use vstd::prelude::*;
use vstd::string::StrSliceExecFns;
use vstd::string::StringExecFns;

use crate::pathstr::{
    corrected, ext_name_of, extension_of, last_index, last_pos_char, lemma_last_index, name_of,
    normalize_str, normalized, parent_of, relate_to_absolute_str,
};
use crate::text::{chars_of, string_from_chars};

verus! {

/// A sequence with every occurrence of `from` rewritten to `to`, scanning
/// left to right.  An empty pattern matches between every character, as
/// the standard string replacement does.
pub open spec fn replace_all(s: Seq<char>, from: Seq<char>, to: Seq<char>) -> Seq<char>
    decreases s.len(),
{
    if from.len() == 0 {
        if s.len() == 0 {
            to
        } else {
            to + s.take(1) + replace_all(s.skip(1), from, to)
        }
    } else if s.len() < from.len() {
        s
    } else if s.take(from.len() as int) == from {
        to + replace_all(s.skip(from.len() as int), from, to)
    } else {
        s.take(1) + replace_all(s.skip(1), from, to)
    }
}

/// The path with its trailing extension replaced by `ext` (a dot is added
/// when `ext` does not bring its own).
pub open spec fn set_extension_spec(s: Seq<char>, ext: Seq<char>) -> Seq<char> {
    let base = s.take(s.len() - extension_of(s).len());
    if ext.len() > 0 && ext[0] == '.' {
        base + ext
    } else {
        base + seq!['.'] + ext
    }
}

/// An owned, normalized path string, with segment and extension
/// decomposition and in-place edits of the trailing segment.
pub struct PathBuilder {
    inner: String,
}

impl View for PathBuilder {
    type V = Seq<char>;

    closed spec fn view(&self) -> Seq<char> {
        self.inner@
    }
}

impl Clone for PathBuilder {
    fn clone(&self) -> (r: Self)
        ensures
            r@ == self@,
    {
        PathBuilder { inner: self.inner.clone() }
    }
}

impl PartialEq for PathBuilder {
    fn eq(&self, other: &PathBuilder) -> (r: bool) {
        self.inner == other.inner
    }
}

impl vstd::std_specs::cmp::PartialEqSpecImpl for PathBuilder {
    open spec fn obeys_eq_spec() -> bool {
        true
    }

    open spec fn eq_spec(&self, other: &PathBuilder) -> bool {
        self@ == other@
    }
}

impl PathBuilder {
    /// Normalizes `path`, resolving it against the working directory `cwd`
    /// when it is relative.
    pub fn from(path: &str, cwd: &str) -> (r: PathBuilder)
        ensures
            r@ == normalized(path@, cwd@),
    {
        PathBuilder { inner: normalize_str(path, cwd) }
    }

    /// Wraps an already normalized string without touching it.
    pub(crate) fn from_normalized(path: String) -> (r: PathBuilder)
        ensures
            r@ == path@,
    {
        PathBuilder { inner: path }
    }

    pub fn borrow(&self) -> (r: &PathBuilder)
        ensures
            r == self,
    {
        self
    }

    /// Whether anything stands at this path in the store.
    pub fn is_exist(&self, fs: &crate::model::FsModel) -> (r: bool)
        ensures
            r == fs.has_path(self@),
    {
        fs.is_exist(self.inner.as_str())
    }

    /// A fresh copy of the held path string.
    pub fn string_clone(&self) -> (r: String)
        ensures
            r@ == self@,
    {
        self.inner.clone()
    }

    /// The whole held path.
    pub fn full_name(&self) -> (r: &str)
        ensures
            r@ == self@,
    {
        self.inner.as_str()
    }

    /// Rewrites every occurrence of `from` to `to` in the held path.
    pub fn replace(&mut self, from: &str, to: &str)
        ensures
            final(self)@ == replace_all(old(self)@, from@, to@),
    {
        let s = chars_of(self.inner.as_str());
        let f = chars_of(from);
        let t = chars_of(to);
        let r = replace_chars(&s, &f, &t);
        self.inner = string_from_chars(&r);
    }

    /// The position of the last occurrence of `c`, counted in characters.
    pub fn last_pos(&self, c: char) -> (r: Option<usize>)
        ensures
            match r {
                Some(k) => k == last_index(self@, c),
                None => last_index(self@, c) == -1,
            },
    {
        last_pos_char(self.inner.as_str(), c)
    }

    /// The trailing segment: everything after the last `/`.
    pub fn name(&self) -> (r: &str)
        ensures
            r@ == name_of(self@),
    {
        match last_pos_char(self.inner.as_str(), '/') {
            Some(k) => {
                proof {
                    lemma_last_index(self.inner@, '/');
                }
                let n = self.inner.as_str().unicode_len();
                let r = self.inner.as_str().substring_char(k + 1, n);
                proof {
                    assert(r@ =~= name_of(self@));
                }
                r
            },
            None => {
                proof {
                    reveal_strlit("");
                    assert(""@ =~= name_of(self@));
                }
                ""
            },
        }
    }

    /// The trailing segment with its extension stripped; a hidden name
    /// whose only dot leads is returned whole.
    pub fn ext_name(&self) -> (r: &str)
        ensures
            r@ == ext_name_of(self@),
    {
        let nm = self.name();
        match last_pos_char(nm, '.') {
            Some(k) if k >= 1 => {
                proof {
                    lemma_last_index(nm@, '.');
                }
                let r = nm.substring_char(0, k);
                proof {
                    assert(r@ =~= ext_name_of(self@));
                }
                r
            },
            _ => nm,
        }
    }

    /// The extension of the trailing segment, dot included; empty when the
    /// name has no dot past its first character.
    pub fn extension(&self) -> (r: &str)
        ensures
            r@ == extension_of(self@),
    {
        let nm = self.name();
        match last_pos_char(nm, '.') {
            Some(k) if k >= 1 => {
                proof {
                    lemma_last_index(nm@, '.');
                }
                let n = nm.unicode_len();
                let r = nm.substring_char(k, n);
                proof {
                    assert(r@ =~= extension_of(self@));
                }
                r
            },
            _ => {
                proof {
                    reveal_strlit("");
                    assert(""@ =~= extension_of(self@));
                }
                ""
            },
        }
    }

    /// Everything before the last `/`, or the root marker for the root.
    pub fn parent(&self) -> (r: &str)
        requires
            last_index(self@, '/') >= 0,
        ensures
            r@ == parent_of(self@),
    {
        let n = self.inner.as_str().unicode_len();
        if n == 1 && self.inner.as_str().get_char(0) == '/' {
            proof {
                reveal_strlit("%Root%");
            }
            "%Root%"
        } else {
            proof {
                lemma_last_index(self.inner@, '/');
            }
            let k = match last_pos_char(self.inner.as_str(), '/') {
                Some(k) => k,
                None => 0,
            };
            let r = self.inner.as_str().substring_char(0, k);
            proof {
                assert(r@ =~= parent_of(self@));
            }
            r
        }
    }

    /// Replaces the trailing segment by `name`, keeping the extension.
    pub fn rename(&mut self, name: &str)
        requires
            last_index(old(self)@, '/') >= 0,
        ensures
            final(self)@ == old(self)@.take(last_index(old(self)@, '/') + 1) + name@
                + extension_of(old(self)@),
    {
        proof {
            lemma_last_index(self.inner@, '/');
        }
        let ext = self.extension().to_owned();
        let n = self.inner.as_str().unicode_len();
        let k = match last_pos_char(self.inner.as_str(), '/') {
            Some(k) => k,
            None => 0,
        };
        proof {
            lemma_last_index(self.inner@, '/');
            assert(k < n);
        }
        let mut v = chars_of(self.inner.as_str());
        v.truncate(k + 1);
        let mut nm = chars_of(name);
        v.append(&mut nm);
        let mut ex = chars_of(ext.as_str());
        v.append(&mut ex);
        self.inner = string_from_chars(&v);
        proof {
            assert(self.inner@ =~= old(self)@.take(last_index(old(self)@, '/') + 1) + name@
                + extension_of(old(self)@));
        }
    }

    /// Appends one character to the held path.
    pub fn push(&mut self, ch: char)
        ensures
            final(self)@ == old(self)@.push(ch),
    {
        let mut v = chars_of(self.inner.as_str());
        v.push(ch);
        self.inner = string_from_chars(&v);
    }

    /// Appends a string to the held path.
    pub fn push_str(&mut self, string: &str)
        ensures
            final(self)@ == old(self)@ + string@,
    {
        self.inner.append(string);
    }

    /// Moves the entry name (without its extension) under a new parent
    /// directory, normalizing the result.
    pub fn set_parent(&mut self, parent: &str)
        ensures
            final(self)@ == corrected(parent@ + seq!['/'] + ext_name_of(old(self)@)),
    {
        let en = self.ext_name().to_owned();
        self.inner = relate_to_absolute_str(en.as_str(), parent);
    }

    /// Whether the trailing segment starts with a dot.
    pub fn is_hide(&self) -> (r: bool)
        ensures
            r == (name_of(self@).len() > 0 && name_of(self@)[0] == '.'),
    {
        let nm = self.name();
        nm.unicode_len() > 0 && nm.get_char(0) == '.'
    }

    /// Adds or removes the leading dot of the trailing segment, keeping
    /// the extension.
    pub fn set_hide(&mut self, hide: bool)
        requires
            last_index(old(self)@, '/') >= 0,
        ensures
            ({
                let hidden = name_of(old(self)@).len() > 0 && name_of(old(self)@)[0] == '.';
                let stem = ext_name_of(old(self)@);
                let keep = old(self)@.take(last_index(old(self)@, '/') + 1);
                if hide && !hidden {
                    final(self)@ == keep + seq!['.'] + stem + extension_of(old(self)@)
                } else if !hide && hidden {
                    final(self)@ == keep + stem.skip(1) + extension_of(old(self)@)
                } else {
                    final(self)@ == old(self)@
                }
            }),
    {
        proof {
            lemma_ext_name_hidden(self.inner@);
        }
        let hidden = self.is_hide();
        if hide && !hidden {
            let mut nm = chars_of(self.ext_name());
            nm.insert(0, '.');
            let s = string_from_chars(&nm);
            self.rename(s.as_str());
            proof {
                assert(seq!['.'] + ext_name_of(old(self)@) =~= nm@);
            }
        } else if !hide && hidden {
            let mut nm = chars_of(self.ext_name());
            nm.remove(0);
            let s = string_from_chars(&nm);
            self.rename(s.as_str());
            proof {
                assert(ext_name_of(old(self)@).skip(1) =~= nm@);
            }
        }
    }

    /// Replaces the extension of the trailing segment, or appends one.
    pub fn set_extension(&mut self, extension: &str)
        ensures
            final(self)@ == set_extension_spec(old(self)@, extension@),
    {
        proof {
            lemma_extension_suffix(self.inner@);
        }
        let e = self.extension().unicode_len();
        let mut v = chars_of(self.inner.as_str());
        let keep = v.len() - e;
        v.truncate(keep);
        if !(extension.unicode_len() > 0 && extension.get_char(0) == '.') {
            v.push('.');
        }
        let mut ex = chars_of(extension);
        v.append(&mut ex);
        self.inner = string_from_chars(&v);
        proof {
            assert(self.inner@ =~= set_extension_spec(old(self)@, extension@));
        }
    }
}

/// The extension is no longer than the whole path.
proof fn lemma_extension_suffix(s: Seq<char>)
    ensures
        extension_of(s).len() <= s.len(),
{
    lemma_last_index(s, '/');
    let nm = name_of(s);
    lemma_last_index(nm, '.');
}

/// A name starting with a dot keeps that dot in its stem.
proof fn lemma_ext_name_hidden(s: Seq<char>)
    ensures
        name_of(s).len() > 0 && name_of(s)[0] == '.' ==> ext_name_of(s).len() > 0
            && ext_name_of(s)[0] == '.',
        name_of(s).len() == 0 ==> ext_name_of(s).len() == 0,
{
    let nm = name_of(s);
    lemma_last_index(nm, '.');
}

/// Every occurrence of `from` rewritten to `to`, scanning left to right.
fn replace_chars(s: &Vec<char>, from: &Vec<char>, to: &Vec<char>) -> (r: Vec<char>)
    ensures
        r@ == replace_all(s@, from@, to@),
{
    let mut out: Vec<char> = Vec::new();
    let mut i: usize = 0;
    proof {
        assert(s@.skip(0) =~= s@);
        assert(Seq::<char>::empty() + replace_all(s@, from@, to@) =~= replace_all(
            s@,
            from@,
            to@,
        ));
    }
    while i < s.len()
        invariant
            i <= s@.len(),
            replace_all(s@, from@, to@) == out@ + replace_all(s@.skip(i as int), from@, to@),
        decreases s@.len() - i,
    {
        let ghost rest = s@.skip(i as int);
        let ghost out0 = out@;
        let n = s.len();
        if from.len() > 0 && from.len() <= n - i && matches_at(s, i, from) {
            let mut t = to.clone();
            out.append(&mut t);
            i = i + from.len();
            proof {
                assert(rest.take(from@.len() as int) =~= s@.subrange(
                    i - from@.len(),
                    i as int,
                ));
                assert(rest.skip(from@.len() as int) =~= s@.skip(i as int));
                assert(replace_all(rest, from@, to@) == to@ + replace_all(
                    s@.skip(i as int),
                    from@,
                    to@,
                ));
                assert(out0 + (to@ + replace_all(s@.skip(i as int), from@, to@)) =~= out@
                    + replace_all(s@.skip(i as int), from@, to@));
            }
        } else if from.len() == 0 {
            let mut t = to.clone();
            out.append(&mut t);
            out.push(s[i]);
            i = i + 1;
            proof {
                assert(rest.take(1) =~= seq![s@[i - 1]]);
                assert(rest.skip(1) =~= s@.skip(i as int));
                assert(out0 + (to@ + rest.take(1) + replace_all(s@.skip(i as int), from@, to@))
                    =~= out@ + replace_all(s@.skip(i as int), from@, to@));
            }
        } else {
            out.push(s[i]);
            i = i + 1;
            proof {
                if rest.len() >= from@.len() {
                    assert(rest.take(from@.len() as int) =~= s@.subrange(
                        i - 1,
                        i - 1 + from@.len(),
                    ));
                    assert(rest.take(from@.len() as int) != from@);
                }
                assert(rest.take(1) =~= seq![s@[i - 1]]);
                assert(rest.skip(1) =~= s@.skip(i as int));
                assert(out0 + (rest.take(1) + replace_all(s@.skip(i as int), from@, to@)) =~= out@
                    + replace_all(s@.skip(i as int), from@, to@));
            }
        }
    }
    proof {
        assert(s@.skip(s@.len() as int) =~= Seq::<char>::empty());
        if from@.len() == 0 {
            assert(replace_all(s@.skip(s@.len() as int), from@, to@) == to@);
        } else {
            assert(replace_all(s@.skip(s@.len() as int), from@, to@) =~= Seq::<char>::empty());
            assert(out@ + Seq::<char>::empty() =~= out@);
        }
    }
    if from.len() == 0 {
        let mut t = to.clone();
        out.append(&mut t);
    }
    out
}

/// Whether `pat` occurs in `s` starting at position `i`.
fn matches_at(s: &Vec<char>, i: usize, pat: &Vec<char>) -> (r: bool)
    requires
        i + pat@.len() <= s@.len(),
    ensures
        r == (s@.subrange(i as int, i + pat@.len()) =~= pat@),
{
    let n = s.len();
    let mut j: usize = 0;
    while j < pat.len()
        invariant
            j <= pat@.len(),
            i + pat@.len() <= s@.len(),
            n == s@.len(),
            forall|m: int| 0 <= m < j ==> s@[i + m] == pat@[m],
        decreases pat@.len() - j,
    {
        if s[i + j] != pat[j] {
            proof {
                assert(s@.subrange(i as int, i + pat@.len())[j as int] != pat@[j as int]);
            }
            return false;
        }
        j = j + 1;
    }
    proof {
        assert(s@.subrange(i as int, i + pat@.len()) =~= pat@);
    }
    true
}

} // verus!
