use vstd::prelude::*;

use crate::convert::FsError;
use crate::dir::DirectoryInfo;
use crate::file::FileInfo;
use crate::model::FsModel;
use crate::pathstr::{ext_name_of, extension_of, is_canon, lemma_normalized_canon, name_of,
    normalized};

verus! {

/// What stands at a path: a file, a directory, or nothing.  Absence
/// never equals absence: two missing entries have nothing in common.
pub enum Attributes {
    File,
    Directory,
    Absent,
}

impl Attributes {
    /// A numeric tag: zero for a file, one for a directory, a negative
    /// value for absence.
    pub fn to_i32(&self) -> (r: i32)
        ensures
            self is File ==> r == 0,
            self is Directory ==> r == 1,
            self is Absent ==> r == -1,
    {
        match self {
            Attributes::File => 0,
            Attributes::Directory => 1,
            Attributes::Absent => -1,
        }
    }
}

impl PartialEq for Attributes {
    fn eq(&self, other: &Attributes) -> (r: bool) {
        let n = self.to_i32();
        n != -1 && n == other.to_i32()
    }
}

impl vstd::std_specs::cmp::PartialEqSpecImpl for Attributes {
    open spec fn obeys_eq_spec() -> bool {
        true
    }

    open spec fn eq_spec(&self, other: &Attributes) -> bool {
        !(self is Absent) && ((self is File && other is File) || (self is Directory
            && other is Directory))
    }
}

/// A handle that is a file or a directory, told apart once when it is
/// opened against the store.
pub enum FileDir {
    File(FileInfo),
    Directory(DirectoryInfo),
}

impl FileDir {
    /// The held path.
    pub open spec fn path(self) -> Seq<char> {
        match self {
            FileDir::File(f) => f.path(),
            FileDir::Directory(d) => d.path(),
        }
    }

    /// Opens the path as whatever stands there; nothing there is an
    /// error.
    pub fn open(path: &str, cwd: &str, fs: &FsModel) -> (r: Result<FileDir, FsError>)
        requires
            is_canon(cwd@),
        ensures
            match r {
                Ok(h) => {
                    &&& h.path() == normalized(path@, cwd@)
                    &&& (h is Directory <==> fs.has_dir(normalized(path@, cwd@)))
                    &&& (h is File ==> fs.has_file(normalized(path@, cwd@)))
                },
                Err(e) => e == FsError::NotFound && !fs.has_path(normalized(path@, cwd@)),
            },
    {
        let b = crate::pbuilder::PathBuilder::from(path, cwd);
        proof {
            lemma_normalized_canon(path@, cwd@);
        }
        if fs.is_dir(b.full_name()) {
            Ok(FileDir::Directory(DirectoryInfo::from_builder(b)))
        } else if fs.is_file(b.full_name()) {
            Ok(FileDir::File(FileInfo::from_builder(b)))
        } else {
            Err(FsError::NotFound)
        }
    }

    /// Whether a directory stands behind this handle.
    pub fn is_dir(&self, fs: &FsModel) -> (r: bool)
        ensures
            r == fs.has_dir(self.path()),
    {
        match self {
            FileDir::File(f) => fs.is_dir(f.full_name()),
            FileDir::Directory(d) => d.is_exist(fs),
        }
    }

    /// Whether a file stands behind this handle.
    pub fn is_file(&self, fs: &FsModel) -> (r: bool)
        ensures
            r == fs.has_file(self.path()),
    {
        match self {
            FileDir::File(f) => f.is_exist(fs),
            FileDir::Directory(d) => fs.is_file(d.full_name()),
        }
    }

    /// What stands at the held path now.
    pub fn attributes(&self, fs: &FsModel) -> (r: Attributes)
        ensures
            r is File ==> (self is File && fs.has_file(self.path())),
            r is Directory ==> (self is Directory && fs.has_dir(self.path())),
            r is Absent ==> (match *self {
                FileDir::File(_) => !fs.has_file(self.path()),
                FileDir::Directory(_) => !fs.has_dir(self.path()),
            }),
    {
        match self {
            FileDir::File(f) => {
                if f.is_exist(fs) {
                    Attributes::File
                } else {
                    Attributes::Absent
                }
            },
            FileDir::Directory(d) => {
                if d.is_exist(fs) {
                    Attributes::Directory
                } else {
                    Attributes::Absent
                }
            },
        }
    }

    /// The attribute the two handles share, or absence when they do not
    /// share one.
    pub fn common_attr_with(&self, other: &FileDir, fs: &FsModel) -> (r: Attributes)
        ensures
            r is Absent <==> !(self.attr_spec(fs) == other.attr_spec(fs) && !(self.attr_spec(fs)
                is Absent)),
            !(r is Absent) ==> r == self.attr_spec(fs),
    {
        let a = self.attributes(fs);
        let b = other.attributes(fs);
        if a == b {
            a
        } else {
            Attributes::Absent
        }
    }

    /// What stands at the held path, as a spec-level tag.
    pub open spec fn attr_spec(&self, fs: &FsModel) -> Attributes {
        match *self {
            FileDir::File(_) => if fs.has_file(self.path()) {
                Attributes::File
            } else {
                Attributes::Absent
            },
            FileDir::Directory(_) => if fs.has_dir(self.path()) {
                Attributes::Directory
            } else {
                Attributes::Absent
            },
        }
    }

    /// Whether both handles stand on entries of the same kind.
    pub fn attr_eq(&self, other: &FileDir, fs: &FsModel) -> (r: bool)
        ensures
            r == (self.attr_spec(fs) == other.attr_spec(fs) && !(self.attr_spec(fs) is Absent)),
    {
        match self.common_attr_with(other, fs) {
            Attributes::Absent => false,
            _ => true,
        }
    }

    /// Whether the two handles hold equal entries: equal file bytes for
    /// two files, structurally equal trees for two directories, and
    /// never for a pair that does not share a kind.
    pub fn is_eq(&self, other: &FileDir, fs: &FsModel) -> (r: bool)
        requires
            fs.wf(),
        ensures
            r == (match (*self, *other) {
                (FileDir::File(a), FileDir::File(b)) => fs.has_file(a.path()) && fs.has_file(
                    b.path(),
                ) && fs.content(a.path()) == fs.content(b.path()),
                (FileDir::Directory(a), FileDir::Directory(b)) => fs.has_dir(a.path())
                    && fs.has_dir(b.path()) && (a.path() == b.path() || crate::dir::trees_eq(
                    fs.files_view(),
                    fs.dirs_view(),
                    a.path(),
                    b.path(),
                )),
                _ => false,
            }),
    {
        match (self, other) {
            (FileDir::File(a), FileDir::File(b)) => a.is_eq(b, fs),
            (FileDir::Directory(a), FileDir::Directory(b)) => {
                if a.is_exist(fs) && b.is_exist(fs) {
                    a.is_eq(b, fs)
                } else {
                    false
                }
            },
            _ => false,
        }
    }

    /// The whole held path.
    pub fn full_name(&self) -> (r: &str)
        ensures
            r@ == self.path(),
    {
        match self {
            FileDir::File(f) => f.full_name(),
            FileDir::Directory(d) => d.full_name(),
        }
    }

    /// The trailing segment of the path.
    pub fn name(&self) -> (r: &str)
        ensures
            r@ == name_of(self.path()),
    {
        match self {
            FileDir::File(f) => f.name(),
            FileDir::Directory(d) => d.name(),
        }
    }

    /// The trailing segment without its extension.
    pub fn ext_name(&self) -> (r: &str)
        ensures
            r@ == ext_name_of(self.path()),
    {
        match self {
            FileDir::File(f) => f.ext_name(),
            FileDir::Directory(d) => d.ext_name(),
        }
    }

    /// The extension of the trailing segment, dot included.
    pub fn extension(&self) -> (r: &str)
        ensures
            r@ == extension_of(self.path()),
    {
        match self {
            FileDir::File(f) => f.extension(),
            FileDir::Directory(d) => d.extension(),
        }
    }

    /// The children of a directory handle, resolved as files or
    /// directories themselves; a file handle lists nothing.
    pub fn children(&self, fs: &FsModel) -> (r: Option<Vec<FileDir>>)
        requires
            fs.wf(),
        ensures
            r is Some <==> (self is Directory && fs.has_dir(self.path())),
            match r {
                Some(v) => ({
                    let listed = crate::model::file_paths_in(fs.files_view(), self.path())
                        + crate::model::dir_paths_in(fs.dirs_view(), self.path());
                    &&& v@.len() == listed.len()
                    &&& (forall|i: int|
                        0 <= i < v@.len() ==> (#[trigger] v@[i]).path() == listed[i] && ((
                        v@[i] is Directory) == fs.has_dir(listed[i])))
                }),
                None => true,
            },
    {
        match self {
            FileDir::Directory(d) => {
                if d.is_exist(fs) {
                    let paths = fs.children_in(d.full_name());
                    let ghost listed = crate::model::file_paths_in(
                        fs.files_view(),
                        self.path(),
                    ) + crate::model::dir_paths_in(fs.dirs_view(), self.path());
                    let mut out: Vec<FileDir> = Vec::new();
                    let n = paths.len();
                    let mut i: usize = 0;
                    while i < n
                        invariant
                            i <= n,
                            n == paths@.len(),
                            paths@.map_values(|s: String| s@) == listed,
                            out@.len() == i,
                            forall|j: int|
                                0 <= j < i ==> (#[trigger] out@[j]).path() == listed[j] && ((
                                out@[j] is Directory) == fs.has_dir(listed[j])),
                        decreases n - i,
                    {
                        let b = crate::pbuilder::PathBuilder::from_normalized(paths[i].clone());
                        if fs.is_dir(paths[i].as_str()) {
                            out.push(FileDir::Directory(DirectoryInfo::from_builder(b)));
                        } else {
                            out.push(FileDir::File(FileInfo::from_builder(b)));
                        }
                        i = i + 1;
                    }
                    Some(out)
                } else {
                    None
                }
            },
            _ => None,
        }
    }

    /// The child files of a directory handle; a file handle lists
    /// nothing.
    pub fn files(&self, fs: &FsModel) -> (r: Option<Vec<FileInfo>>)
        requires
            fs.wf(),
        ensures
            r is Some <==> (self is Directory && fs.has_dir(self.path())),
            match r {
                Some(v) => v@.len() == crate::model::file_paths_in(
                    fs.files_view(),
                    self.path(),
                ).len() && (forall|i: int|
                    0 <= i < v@.len() ==> (#[trigger] v@[i]).path()
                        == crate::model::file_paths_in(fs.files_view(), self.path())[i]),
                None => true,
            },
    {
        match self {
            FileDir::Directory(d) => {
                if d.is_exist(fs) {
                    Some(d.files(fs))
                } else {
                    None
                }
            },
            _ => None,
        }
    }

    /// The child directories of a directory handle; a file handle lists
    /// nothing.
    pub fn directories(&self, fs: &FsModel) -> (r: Option<Vec<DirectoryInfo>>)
        requires
            fs.wf(),
        ensures
            r is Some <==> (self is Directory && fs.has_dir(self.path())),
            match r {
                Some(v) => v@.len() == crate::model::dir_paths_in(
                    fs.dirs_view(),
                    self.path(),
                ).len() && (forall|i: int|
                    0 <= i < v@.len() ==> (#[trigger] v@[i]).path() == crate::model::dir_paths_in(
                        fs.dirs_view(),
                        self.path(),
                    )[i]),
                None => true,
            },
    {
        match self {
            FileDir::Directory(d) => {
                if d.is_exist(fs) {
                    Some(d.directories(fs))
                } else {
                    None
                }
            },
            _ => None,
        }
    }

    /// Removes what the handle stands on: the file, or the whole
    /// directory tree.  A missing entry is already gone and is no
    /// error.
    pub fn del(self, fs: &mut FsModel) -> (r: Result<(), FsError>)
        requires
            old(fs).wf(),
            (self is Directory ==> is_canon(self.path())),
        ensures
            final(fs).wf(),
            match r {
                Ok(()) => match self {
                    FileDir::File(f) => !final(fs).has_file(f.path()),
                    FileDir::Directory(d) => !final(fs).has_dir(d.path()) || d.path()
                        == seq!['/'],
                },
                Err(e) => e == FsError::Other && self is Directory && self.path()
                    == seq!['/'] && old(fs).has_dir(self.path()),
            },
    {
        match self {
            FileDir::File(f) => {
                match f.del(fs) {
                    Ok(()) => {
                        proof {
                            let fv = old(fs).files_view();
                            crate::model::lemma_find_key(fv, self.path());
                            let k = crate::model::find_key(fv, self.path());
                            assert(fv[k].0 == self.path());
                            assert forall|j: int|
                                0 <= j < fv.len() && j != k implies (#[trigger] fv[j]).0
                                != self.path() by {
                                if j < k {
                                    assert(fv[j].0 != fv[k].0);
                                } else {
                                    assert(fv[k].0 != fv[j].0);
                                }
                            }
                            crate::model::lemma_find_key(fs.files_view(), self.path());
                            if fs.has_file(self.path()) {
                                let w = crate::model::find_key(fs.files_view(), self.path());
                                assert(fs.files_view()[w] == (if w < k {
                                    fv[w]
                                } else {
                                    fv[w + 1]
                                }));
                            }
                        }
                        Ok(())
                    },
                    Err(_) => Ok(()),
                }
            },
            FileDir::Directory(d) => {
                let ghost p = d.path();
                if !d.is_exist(fs) {
                    return Ok(());
                }
                match d.del(fs) {
                    Ok(()) => {
                        proof {
                            crate::model::lemma_dirs_not_under_contains(
                                old(fs).dirs_view(),
                                p,
                            );
                            crate::find::lemma_first_idx_contains(fs.dirs_view(), p);
                        }
                        Ok(())
                    },
                    Err(e) => Err(FsError::Other),
                }
            },
        }
    }

    /// Copies what the handle stands on to a fresh destination: the
    /// file's bytes, or the whole directory tree mirrored.
    pub fn copy_new(&self, fs: &mut FsModel, path: &str, cwd: &str) -> (r: Result<(), FsError>)
        requires
            old(fs).wf(),
            is_canon(cwd@),
            self is Directory ==> is_canon(self.path()),
        ensures
            final(fs).wf(),
            old(fs).files_view().is_prefix_of(final(fs).files_view()),
            ({
                let dest = normalized(path@, cwd@);
                match *self {
                    FileDir::File(f) => match r {
                        Ok(()) => {
                            &&& !old(fs).has_path(dest)
                            &&& old(fs).has_file(f.path())
                            &&& final(fs).files_view() == old(fs).files_view().push(
                                (dest, old(fs).content(f.path())),
                            )
                        },
                        Err(e) => {
                            &&& final(fs).files_view() == old(fs).files_view()
                            &&& e == (if old(fs).has_path(dest) {
                                FsError::AlreadyExists
                            } else {
                                FsError::NotFound
                            })
                            &&& (old(fs).has_path(dest) || !old(fs).has_file(f.path()) || !old(fs).dirs_view().contains(crate::pathstr::dir_of(dest)))
                        },
                    },
                    FileDir::Directory(d) => match r {
                        Ok(()) => {
                            if old(fs).has_dir(d.path()) && d.path().len() > 1 {
                                final(fs).files_view() == old(fs).files_view()
                                    + crate::model::relabeled_files_under(
                                    old(fs).files_view(),
                                    d.path(),
                                    dest,
                                )
                            } else {
                                final(fs).files_view() == old(fs).files_view() && final(fs).has_dir(dest)
                            }
                        },
                        Err(e) => {
                            &&& (e == FsError::AlreadyExists || e == FsError::Other)
                            &&& ({
                                ||| dest.len() <= 1
                                ||| d.path().len() <= 1
                                ||| (e == FsError::Other && !old(fs).has_dir(d.path()) && old(fs).blocked(dest))
                                ||| (e == FsError::AlreadyExists && (exists|pp: Seq<char>|
                                    #[trigger] crate::model::in_dir_tree(pp, d.path()) && old(fs).has_file(pp) && final(fs).has_path(
                                        crate::model::relabel(pp, d.path(), dest),
                                    )))
                                ||| (e == FsError::Other && (exists|q: Seq<char>|
                                    #[trigger] old(fs).has_dir(q) && (q == d.path()
                                        || crate::model::in_dir_tree(q, d.path())) && old(fs).blocked(crate::model::relabel(q, d.path(), dest))))
                            })
                        },
                    },
                }
            }),
    {
        match self {
            FileDir::File(f) => f.copy_new(fs, path, cwd),
            FileDir::Directory(d) => d.copy_new(fs, path, cwd),
        }
    }

    /// Moves what the handle stands on to a fresh destination and
    /// points the handle there: the file, or the whole directory tree.
    pub fn move_new(&mut self, fs: &mut FsModel, path: &str, cwd: &str) -> (r: Result<
        (),
        FsError,
    >)
        requires
            old(fs).wf(),
            is_canon(cwd@),
            (*old(self)) is Directory ==> is_canon(old(self).path()),
        ensures
            final(fs).wf(),
            ((*final(self)) is File) == ((*old(self)) is File),
            ({
                let src = old(self).path();
                let dest = normalized(path@, cwd@);
                match r {
                    Ok(()) => {
                        &&& final(self).path() == dest
                        &&& ((*old(self)) is File ==> old(fs).has_file(src) && !final(fs).has_file(src) && final(fs).has_file(dest) && final(fs).content(dest)
                            == old(fs).content(src))
                        &&& ((*old(self)) is Directory ==> old(fs).has_dir(src) && !final(fs).has_dir(src) && final(fs).has_dir(dest))
                    },
                    Err(e) => final(self).path() == old(self).path(),
                }
            }),
    {
        match self {
            FileDir::File(f) => f.move_new(fs, path, cwd),
            FileDir::Directory(d) => d.move_new(fs, path, cwd),
        }
    }

    /// The size behind the handle: the file's size, or the total size
    /// of the directory tree, saturating at the largest representable
    /// value.
    pub fn size_bytes(&self, fs: &FsModel) -> (r: u64)
        ensures
            match *self {
                FileDir::File(f) => (fs.has_file(f.path()) ==> r == fs.content(f.path()).len())
                    && (!fs.has_file(f.path()) ==> r == 0),
                FileDir::Directory(d) => {
                    let s = crate::model::size_under(fs.files_view(), d.path());
                    (s <= u64::MAX ==> r == s) && (s > u64::MAX ==> r == u64::MAX)
                },
            },
    {
        match self {
            FileDir::File(f) => {
                let s = f.size_bytes(fs);
                s as u64
            },
            FileDir::Directory(d) => d.size_bytes(fs),
        }
    }
}

} // verus!
