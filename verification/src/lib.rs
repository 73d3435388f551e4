// A convenience layer over filesystem-style path and stream handling:
// path normalization, file and directory handles over an in-memory
// store, buffered line-oriented reads and typed buffer conversion,
// with the behavior of every operation stated and checked.
use vstd::prelude::*;

pub mod color;
pub mod convert;
pub mod dir;
pub mod fd;
pub mod file;
pub mod find;
pub mod laws;
pub mod model;
pub mod number;
pub mod pathstr;
pub mod pbuilder;
pub mod stream;
pub mod strs;
pub mod symbols;
pub mod text;
pub mod web;

verus! {

/// Whether a path string names an absolute location or one relative
/// to the current working directory.
pub enum UriKind {
    Absolute,
    Relative,
}

} // verus!
