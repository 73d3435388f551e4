use vstd::prelude::*;

use crate::convert::FsError;
use crate::file::FileInfo;
use crate::model::{
    dir_paths_in, file_paths_in, is_prefix_dir, size_under, FsModel,
};
use crate::pathstr::{
    dir_of, ext_name_of, is_canon, last_index, lemma_normalized_canon, name_of, normalized,
    parent_of,
};
use crate::pbuilder::PathBuilder;
use crate::text::str_eq;

verus! {

/// The child files of the directory `d`: name and content of each, in
/// store order.
pub open spec fn child_files_sig(fsv: crate::model::FileSeq, d: Seq<char>) -> Seq<
    (Seq<char>, Seq<u8>),
> {
    crate::model::file_paths_in(fsv, d).map_values(
        |p: Seq<char>| (name_of(p), fsv[crate::model::find_key(fsv, p)].1),
    )
}

/// Structural tree equality unfolded at most `fuel` levels deep: equal
/// child file names and contents, equal child directory names, and
/// recursively equal child directories, in store order.
pub open spec fn trees_eq_fuel(
    fsv: crate::model::FileSeq,
    ds: Seq<Seq<char>>,
    a: Seq<char>,
    b: Seq<char>,
    fuel: nat,
) -> bool
    decreases fuel,
{
    if fuel == 0 {
        true
    } else {
        let ca = dir_paths_in(ds, a);
        let cb = dir_paths_in(ds, b);
        &&& child_files_sig(fsv, a) == child_files_sig(fsv, b)
        &&& ca.len() == cb.len()
        &&& (forall|i: int|
            0 <= i < ca.len() ==> name_of(#[trigger] ca[i]) == name_of(cb[i]) && trees_eq_fuel(
                fsv,
                ds,
                ca[i],
                cb[i],
                (fuel - 1) as nat,
            ))
    }
}

/// Structural tree equality: with as much fuel as the deepest stored
/// path, every level is compared.
pub open spec fn trees_eq(
    fsv: crate::model::FileSeq,
    ds: Seq<Seq<char>>,
    a: Seq<char>,
    b: Seq<char>,
) -> bool {
    trees_eq_fuel(fsv, ds, a, b, crate::model::max_len(ds) + 1)
}

/// A handle on one directory path.  Listing calls read the store anew
/// each time; nothing is cached.
pub struct DirectoryInfo {
    inner: PathBuilder,
}

impl DirectoryInfo {
    /// The held path.
    pub closed spec fn path(self) -> Seq<char> {
        self.inner@
    }

    /// A handle is well formed when its path is normalized and
    /// absolute.
    pub open spec fn wf(self) -> bool {
        is_canon(self.path())
    }

    /// Opens a handle on the normalized path, touching no state.
    pub fn open(path: &str, cwd: &str) -> (r: DirectoryInfo)
        requires
            is_canon(cwd@),
        ensures
            r.path() == normalized(path@, cwd@),
            r.wf(),
    {
        proof {
            lemma_normalized_canon(path@, cwd@);
        }
        DirectoryInfo { inner: PathBuilder::from(path, cwd) }
    }

    /// Wraps an already normalized path.
    pub(crate) fn from_builder(inner: PathBuilder) -> (r: DirectoryInfo)
        ensures
            r.path() == inner@,
    {
        DirectoryInfo { inner }
    }

    /// Opens the directory, creating it and its ancestors when nothing
    /// stands at the path yet.
    pub fn open_smart(path: &str, cwd: &str, fs: &mut FsModel) -> (r: Result<
        DirectoryInfo,
        FsError,
    >)
        requires
            old(fs).wf(),
            is_canon(cwd@),
        ensures
            final(fs).wf(),
            final(fs).files_view() == old(fs).files_view(),
            forall|q: Seq<char>| old(fs).has_dir(q) ==> final(fs).has_dir(q),
            forall|q: Seq<char>|
                final(fs).has_dir(q) ==> old(fs).has_dir(q) || is_prefix_dir(
                    q,
                    normalized(path@, cwd@),
                ),
            match r {
                Ok(d) => {
                    &&& d.path() == normalized(path@, cwd@)
                    &&& d.wf()
                    &&& (old(fs).has_path(d.path()) || final(fs).has_dir(d.path()))
                },
                Err(e) => e == FsError::Other && old(fs).blocked(normalized(path@, cwd@))
                    && !old(fs).has_path(normalized(path@, cwd@)),
            },
    {
        let builder = PathBuilder::from(path, cwd);
        proof {
            lemma_normalized_canon(path@, cwd@);
        }
        if !fs.is_exist(builder.full_name()) {
            match fs.ensure_dirs(builder.full_name()) {
                Ok(()) => {},
                Err(e) => {
                    return Err(e);
                },
            }
        }
        Ok(DirectoryInfo { inner: builder })
    }

    /// Creates the directory and its ancestors; nothing changes when it
    /// is already there.
    pub fn create(&mut self, fs: &mut FsModel) -> (r: Result<(), FsError>)
        requires
            old(fs).wf(),
            old(self).wf(),
        ensures
            *final(self) == *old(self),
            final(fs).wf(),
            final(fs).files_view() == old(fs).files_view(),
            forall|q: Seq<char>| old(fs).has_dir(q) ==> final(fs).has_dir(q),
            forall|q: Seq<char>|
                final(fs).has_dir(q) ==> old(fs).has_dir(q) || is_prefix_dir(
                    q,
                    old(self).path(),
                ),
            match r {
                Ok(()) => final(fs).has_dir(old(self).path()),
                Err(e) => e == FsError::Other && old(fs).blocked(old(self).path()),
            },
    {
        fs.ensure_dirs(self.inner.full_name())
    }

    /// The whole held path.
    pub fn full_name(&self) -> (r: &str)
        ensures
            r@ == self.path(),
    {
        self.inner.full_name()
    }

    /// The held path builder.
    pub fn builder(&self) -> (r: &PathBuilder)
        ensures
            r@ == self.path(),
    {
        self.inner.borrow()
    }

    /// The trailing segment of the path.
    pub fn name(&self) -> (r: &str)
        ensures
            r@ == name_of(self.path()),
    {
        self.inner.name()
    }

    /// The trailing segment without its extension.
    pub fn ext_name(&self) -> (r: &str)
        ensures
            r@ == ext_name_of(self.path()),
    {
        self.inner.ext_name()
    }

    /// The extension of the trailing segment, dot included.
    pub fn extension(&self) -> (r: &str)
        ensures
            r@ == crate::pathstr::extension_of(self.path()),
    {
        self.inner.extension()
    }

    /// Everything before the last separator.
    pub fn parent_str(&self) -> (r: &str)
        requires
            self.wf(),
        ensures
            r@ == parent_of(self.path()),
    {
        proof {
            crate::pathstr::lemma_last_index(self.path(), '/');
            if last_index(self.path(), '/') == -1 {
                assert(self.path()[0] != '/');
            }
        }
        self.inner.parent()
    }

    /// Whether the trailing segment starts with a dot.
    pub fn is_hide(&self) -> (r: bool)
        ensures
            r == (name_of(self.path()).len() > 0 && name_of(self.path())[0] == '.'),
    {
        self.inner.is_hide()
    }

    /// The tree size in whole kilobyte steps.
    pub fn size_kb(&self, fs: &FsModel) -> (r: u64)
        ensures
            size_under(fs.files_view(), self.path()) <= u64::MAX ==> r == size_under(
                fs.files_view(),
                self.path(),
            ) / 1024,
    {
        self.size_bytes(fs) / 1024
    }

    /// The tree size in whole megabyte steps.
    pub fn size_mb(&self, fs: &FsModel) -> (r: u64)
        ensures
            size_under(fs.files_view(), self.path()) <= u64::MAX ==> r == size_under(
                fs.files_view(),
                self.path(),
            ) / 1024 / 1024,
    {
        self.size_kb(fs) / 1024
    }

    /// Whether a directory stands at this path.
    pub fn is_exist(&self, fs: &FsModel) -> (r: bool)
        ensures
            r == fs.has_dir(self.path()),
    {
        fs.is_dir(self.full_name())
    }

    /// What stands at this path: a directory or nothing.
    pub fn attributes(&self, fs: &FsModel) -> (r: crate::fd::Attributes)
        ensures
            r is Directory <==> fs.has_dir(self.path()),
            !(r is File),
    {
        if fs.is_dir(self.full_name()) {
            crate::fd::Attributes::Directory
        } else {
            crate::fd::Attributes::Absent
        }
    }

    /// This handle as a file-or-directory handle.
    pub fn to_file_dir(self) -> (r: crate::fd::FileDir)
        ensures
            r is Directory,
            r.path() == self.path(),
    {
        crate::fd::FileDir::Directory(self)
    }

    /// The paths of the files directly in this directory, in store
    /// order.
    pub fn file_paths(&self, fs: &FsModel) -> (r: Vec<String>)
        requires
            fs.wf(),
        ensures
            r@.map_values(|s: String| s@) == file_paths_in(fs.files_view(), self.path()),
    {
        fs.files_in(self.inner.full_name())
    }

    /// Handles on the files directly in this directory, in store order.
    pub fn files(&self, fs: &FsModel) -> (r: Vec<FileInfo>)
        requires
            fs.wf(),
        ensures
            r@.len() == file_paths_in(fs.files_view(), self.path()).len(),
            forall|i: int|
                0 <= i < r@.len() ==> (#[trigger] r@[i]).path() == file_paths_in(
                    fs.files_view(),
                    self.path(),
                )[i] && r@[i].stream_state() is Closed,
    {
        let paths = fs.files_in(self.inner.full_name());
        let ghost target = file_paths_in(fs.files_view(), self.path());
        let mut out: Vec<FileInfo> = Vec::new();
        let n = paths.len();
        let mut i: usize = 0;
        while i < n
            invariant
                i <= n,
                n == paths@.len(),
                paths@.map_values(|s: String| s@) == target,
                out@.len() == i,
                forall|j: int|
                    0 <= j < i ==> (#[trigger] out@[j]).path() == target[j] && out@[j].stream_state()
                        is Closed,
            decreases n - i,
        {
            let b = PathBuilder::from_normalized(paths[i].clone());
            out.push(FileInfo::from_builder(b));
            i = i + 1;
        }
        out
    }

    /// The paths of the directories directly in this directory, in
    /// store order.
    pub fn directory_paths(&self, fs: &FsModel) -> (r: Vec<String>)
        requires
            fs.wf(),
        ensures
            r@.map_values(|s: String| s@) == dir_paths_in(fs.dirs_view(), self.path()),
    {
        fs.dirs_in(self.inner.full_name())
    }

    /// Handles on the directories directly in this directory, in store
    /// order.
    pub fn directories(&self, fs: &FsModel) -> (r: Vec<DirectoryInfo>)
        requires
            fs.wf(),
        ensures
            r@.len() == dir_paths_in(fs.dirs_view(), self.path()).len(),
            forall|i: int|
                0 <= i < r@.len() ==> (#[trigger] r@[i]).path() == dir_paths_in(
                    fs.dirs_view(),
                    self.path(),
                )[i],
    {
        let paths = fs.dirs_in(self.inner.full_name());
        let ghost target = dir_paths_in(fs.dirs_view(), self.path());
        let mut out: Vec<DirectoryInfo> = Vec::new();
        let n = paths.len();
        let mut i: usize = 0;
        while i < n
            invariant
                i <= n,
                n == paths@.len(),
                paths@.map_values(|s: String| s@) == target,
                out@.len() == i,
                forall|j: int| 0 <= j < i ==> (#[trigger] out@[j]).path() == target[j],
            decreases n - i,
        {
            let b = PathBuilder::from_normalized(paths[i].clone());
            out.push(DirectoryInfo::from_builder(b));
            i = i + 1;
        }
        out
    }

    /// The paths of everything directly in this directory: files first,
    /// then directories, each group in store order.
    pub fn children_path(&self, fs: &FsModel) -> (r: Vec<String>)
        requires
            fs.wf(),
        ensures
            r@.map_values(|s: String| s@) == file_paths_in(fs.files_view(), self.path())
                + dir_paths_in(fs.dirs_view(), self.path()),
    {
        fs.children_in(self.inner.full_name())
    }

    /// Whether something named `child` stands directly in this
    /// directory.
    pub fn contain_child(&self, fs: &FsModel, child: &str) -> (r: bool)
        ensures
            r == fs.has_path(self.path() + seq!['/'] + child@),
    {
        let mut target = String::new();
        target.append(self.inner.full_name());
        target.push('/');
        target.append(child);
        proof {
            assert(target@ =~= self.path() + seq!['/'] + child@);
        }
        fs.is_exist(target.as_str())
    }

    /// The total size of every file lying anywhere below this
    /// directory, saturating at the largest representable value.
    pub fn size_bytes(&self, fs: &FsModel) -> (r: u64)
        ensures
            size_under(fs.files_view(), self.path()) <= u64::MAX ==> r == size_under(
                fs.files_view(),
                self.path(),
            ),
            size_under(fs.files_view(), self.path()) > u64::MAX ==> r == u64::MAX,
    {
        fs.total_size_under(self.inner.full_name())
    }

    /// Mirrors this directory and everything below it at a fresh place.
    /// Each file is refused individually when something already stands
    /// at its destination; the walk is not atomic, so an aborted copy
    /// leaves the part already mirrored.
    pub fn copy_new(&self, fs: &mut FsModel, path: &str, cwd: &str) -> (r: Result<(), FsError>)
        requires
            old(fs).wf(),
            is_canon(cwd@),
            self.wf(),
        ensures
            final(fs).wf(),
            old(fs).files_view().is_prefix_of(final(fs).files_view()),
            forall|q: Seq<char>| old(fs).has_dir(q) ==> final(fs).has_dir(q),
            ({
                let src = self.path();
                let dest = normalized(path@, cwd@);
                match r {
                    Ok(()) => {
                        if old(fs).has_dir(src) && src.len() > 1 {
                            &&& (forall|q: Seq<char>|
                                old(fs).has_dir(q) && (q == src || crate::model::in_dir_tree(
                                    q,
                                    src,
                                )) ==> final(fs).has_dir(
                                    #[trigger] crate::model::relabel(q, src, dest),
                                ))
                            &&& final(fs).files_view() == old(fs).files_view()
                                + crate::model::relabeled_files_under(
                                old(fs).files_view(),
                                src,
                                dest,
                            )
                        } else {
                            &&& final(fs).files_view() == old(fs).files_view()
                            &&& final(fs).has_dir(dest)
                        }
                    },
                    Err(e) => {
                        &&& (e == FsError::AlreadyExists || e == FsError::Other)
                        &&& ({
                            ||| dest.len() <= 1
                            ||| src.len() <= 1
                            ||| (e == FsError::Other && !old(fs).has_dir(src) && old(
                                fs,
                            ).blocked(dest))
                            ||| (e == FsError::AlreadyExists && (exists|pp: Seq<char>|
                                #[trigger] crate::model::in_dir_tree(pp, src) && old(
                                    fs,
                                ).has_file(pp) && final(fs).has_path(
                                    crate::model::relabel(pp, src, dest),
                                )))
                            ||| (e == FsError::Other && (exists|q: Seq<char>|
                                #[trigger] old(fs).has_dir(q) && (q == src
                                    || crate::model::in_dir_tree(q, src)) && old(fs).blocked(
                                    crate::model::relabel(q, src, dest),
                                )))
                        })
                    },
                }
            }),
    {
        let dest = PathBuilder::from(path, cwd);
        proof {
            lemma_normalized_canon(path@, cwd@);
        }
        if dest.full_name().unicode_len() <= 1 {
            return Err(FsError::Other);
        }
        if self.full_name().unicode_len() <= 1 {
            return Err(FsError::Other);
        }
        if !fs.is_dir(self.inner.full_name()) {
            return match fs.ensure_dirs(dest.full_name()) {
                Ok(()) => Ok(()),
                Err(_) => Err(FsError::Other),
            };
        }
        fs.copy_tree(self.inner.full_name(), dest.full_name())
    }

    /// Mirrors this directory into the directory `path`, keeping its
    /// name.
    pub fn copy_to(&self, fs: &mut FsModel, path: &str, cwd: &str) -> (r: Result<(), FsError>)
        requires
            old(fs).wf(),
            is_canon(cwd@),
            self.wf(),
        ensures
            final(fs).wf(),
            old(fs).files_view().is_prefix_of(final(fs).files_view()),
            forall|q: Seq<char>| old(fs).has_dir(q) ==> final(fs).has_dir(q),
            ({
                let src = self.path();
                let dest = normalized(path@ + seq!['/'] + name_of(self.path()), cwd@);
                match r {
                    Ok(()) => {
                        if old(fs).has_dir(src) && src.len() > 1 {
                            &&& (forall|q: Seq<char>|
                                old(fs).has_dir(q) && (q == src || crate::model::in_dir_tree(
                                    q,
                                    src,
                                )) ==> final(fs).has_dir(
                                    #[trigger] crate::model::relabel(q, src, dest),
                                ))
                            &&& final(fs).files_view() == old(fs).files_view()
                                + crate::model::relabeled_files_under(
                                old(fs).files_view(),
                                src,
                                dest,
                            )
                        } else {
                            &&& final(fs).files_view() == old(fs).files_view()
                            &&& final(fs).has_dir(dest)
                        }
                    },
                    Err(e) => {
                        &&& (e == FsError::AlreadyExists || e == FsError::Other)
                        &&& ({
                            ||| dest.len() <= 1
                            ||| src.len() <= 1
                            ||| (e == FsError::Other && !old(fs).has_dir(src) && old(
                                fs,
                            ).blocked(dest))
                            ||| (e == FsError::AlreadyExists && (exists|pp: Seq<char>|
                                #[trigger] crate::model::in_dir_tree(pp, src) && old(
                                    fs,
                                ).has_file(pp) && final(fs).has_path(
                                    crate::model::relabel(pp, src, dest),
                                )))
                            ||| (e == FsError::Other && (exists|q: Seq<char>|
                                #[trigger] old(fs).has_dir(q) && (q == src
                                    || crate::model::in_dir_tree(q, src)) && old(fs).blocked(
                                    crate::model::relabel(q, src, dest),
                                )))
                        })
                    },
                }
            }),
    {
        let mut target = String::new();
        target.append(path);
        target.push('/');
        target.append(self.name());
        proof {
            assert(target@ =~= path@ + seq!['/'] + name_of(self.path()));
        }
        self.copy_new(fs, target.as_str(), cwd)
    }

    /// Moves the whole tree to a fresh place and points the handle
    /// there: a mirror followed by the removal of the source tree.
    pub fn move_new(&mut self, fs: &mut FsModel, path: &str, cwd: &str) -> (r: Result<
        (),
        FsError,
    >)
        requires
            old(fs).wf(),
            is_canon(cwd@),
            old(self).wf(),
        ensures
            final(fs).wf(),
            ({
                let src = old(self).path();
                let dest = normalized(path@, cwd@);
                match r {
                    Ok(()) => {
                        &&& old(fs).has_dir(src)
                        &&& final(self).path() == dest
                        &&& !final(fs).has_dir(src)
                        &&& final(fs).has_dir(dest)
                        &&& final(fs).files_view() == crate::model::files_not_under(
                            old(fs).files_view() + crate::model::relabeled_files_under(
                                old(fs).files_view(),
                                src,
                                dest,
                            ),
                            src,
                        )
                    },
                    Err(e) => {
                        &&& *final(self) == *old(self)
                        &&& (e == FsError::NotFound || e == FsError::Other || e
                            == FsError::AlreadyExists)
                        &&& (e == FsError::NotFound ==> !old(fs).has_dir(src))
                        &&& ({
                            ||| dest.len() <= 1
                            ||| src.len() <= 1
                            ||| !old(fs).has_dir(src)
                            ||| dest == src
                            ||| crate::model::in_dir_tree(dest, src)
                            ||| (e == FsError::AlreadyExists && (exists|pp: Seq<char>|
                                #[trigger] crate::model::in_dir_tree(pp, src) && old(
                                    fs,
                                ).has_file(pp) && final(fs).has_path(
                                    crate::model::relabel(pp, src, dest),
                                )))
                            ||| (e == FsError::Other && (exists|q: Seq<char>|
                                #[trigger] old(fs).has_dir(q) && (q == src
                                    || crate::model::in_dir_tree(q, src)) && old(fs).blocked(
                                    crate::model::relabel(q, src, dest),
                                )))
                        })
                    },
                }
            }),
    {
        let ghost src = self.path();
        let ghost dest_spec = normalized(path@, cwd@);
        let dest = PathBuilder::from(path, cwd);
        proof {
            lemma_normalized_canon(path@, cwd@);
        }
        if dest.full_name().unicode_len() <= 1 || self.full_name().unicode_len() <= 1 {
            return Err(FsError::Other);
        }
        if !fs.is_dir(self.inner.full_name()) {
            return Err(FsError::NotFound);
        }
        if str_eq(dest.full_name(), self.inner.full_name()) || crate::pathstr::is_under_str(
            dest.full_name(),
            self.inner.full_name(),
        ) {
            return Err(FsError::Other);
        }
        match fs.copy_tree(self.inner.full_name(), dest.full_name()) {
            Ok(()) => {},
            Err(e) => {
                return Err(e);
            },
        }
        proof {
            // the mirror of the source itself is the destination
            assert(src.skip(src.len() as int) =~= Seq::<char>::empty());
            assert(crate::model::relabel(src, src, dest_spec) =~= dest_spec);
            assert(fs.has_dir(dest_spec));
        }
        let ghost ds_copy = fs.dirs_view();
        fs.remove_tree(self.inner.full_name());
        proof {
            // the destination survives the removal of the source tree:
            // it is a directory elsewhere in the store
            crate::model::lemma_dirs_not_under_contains(ds_copy, src);
            crate::find::lemma_first_idx_contains(ds_copy, dest_spec);
            crate::find::lemma_first_idx_contains(ds_copy, src);
            crate::find::lemma_first_idx_contains(fs.dirs_view(), dest_spec);
            crate::find::lemma_first_idx_contains(fs.dirs_view(), src);
        }
        *self = DirectoryInfo { inner: dest };
        Ok(())
    }

    /// Whether this directory and another hold structurally equal
    /// trees: the same child file names with the same contents, the
    /// same child directory names, and recursively equal child
    /// directories, level by level in store order.
    ///
    /// The recursion is deliberately conjunctive at every level.  A
    /// known variant of this comparison inverts the subdirectory step
    /// (rejecting two trees exactly when their subdirectories compare
    /// equal), which reports trees with differing subtrees as equal;
    /// this library states and proves the conjunctive form instead.
    pub fn is_eq(&self, other: &DirectoryInfo, fs: &FsModel) -> (r: bool)
        requires
            fs.wf(),
        ensures
            r == (self.path() == other.path() || trees_eq(
                fs.files_view(),
                fs.dirs_view(),
                self.path(),
                other.path(),
            )),
    {
        if str_eq(self.full_name(), other.full_name()) {
            return true;
        }
        proof {
            crate::model::lemma_max_len(fs.dirs_view());
        }
        self.is_eq_rec(other, fs, Ghost(crate::model::max_len(fs.dirs_view()) + 1))
    }

    /// One bounded step of the structural comparison.
    fn is_eq_rec(&self, other: &DirectoryInfo, fs: &FsModel, Ghost(fuel): Ghost<nat>) -> (r:
        bool)
        requires
            fs.wf(),
            fuel >= 1,
            fuel as int >= crate::model::max_len(fs.dirs_view()) + 1 - self.path().len(),
        ensures
            r == trees_eq_fuel(fs.files_view(), fs.dirs_view(), self.path(), other.path(), fuel),
        decreases fuel,
    {
        let ghost fsv = fs.files_view();
        let ghost ds = fs.dirs_view();
        let ghost a = self.path();
        let ghost b = other.path();
        let ghost siga = child_files_sig(fsv, a);
        let ghost sigb = child_files_sig(fsv, b);
        let fa = fs.files_in(self.inner.full_name());
        let fb = fs.files_in(other.inner.full_name());
        proof {
            crate::model::lemma_file_paths_in(fsv, a);
            crate::model::lemma_file_paths_in(fsv, b);
        }
        if fa.len() != fb.len() {
            proof {
                assert(siga.len() != sigb.len());
            }
            return false;
        }
        let n = fa.len();
        let mut i: usize = 0;
        while i < n
            invariant
                i <= n,
                n == fa@.len(),
                n == fb@.len(),
                fs.wf(),
                fuel >= 1,
                fsv == fs.files_view(),
                a == self.path(),
                b == other.path(),
                siga == child_files_sig(fsv, a),
                sigb == child_files_sig(fsv, b),
                siga.len() == n,
                sigb.len() == n,
                fa@.map_values(|s: String| s@) == crate::model::file_paths_in(fsv, a),
                fb@.map_values(|s: String| s@) == crate::model::file_paths_in(fsv, b),
                forall|j: int| 0 <= j < i ==> #[trigger] siga[j] == sigb[j],
            decreases n - i,
        {
            proof {
                crate::model::lemma_file_paths_in(fsv, a);
                crate::model::lemma_file_paths_in(fsv, b);
                assert(fa@[i as int]@ == crate::model::file_paths_in(fsv, a)[i as int]);
                assert(fb@[i as int]@ == crate::model::file_paths_in(fsv, b)[i as int]);
            }
            let na = crate::pathstr::name_of_str(fa[i].as_str());
            let nb = crate::pathstr::name_of_str(fb[i].as_str());
            if !str_eq(na.as_str(), nb.as_str()) {
                proof {
                    assert(siga[i as int].0 != sigb[i as int].0);
                }
                return false;
            }
            let ca = match fs.read_file(fa[i].as_str()) {
                Some(v) => v,
                None => {
                    proof {
                        assert(false);
                    }
                    return false;
                },
            };
            let cb = match fs.read_file(fb[i].as_str()) {
                Some(v) => v,
                None => {
                    proof {
                        assert(false);
                    }
                    return false;
                },
            };
            if !crate::text::bytes_eq(&ca, &cb) {
                proof {
                    assert(siga[i as int].1 != sigb[i as int].1);
                }
                return false;
            }
            proof {
                assert(siga[i as int] == sigb[i as int]);
            }
            i = i + 1;
        }
        proof {
            assert(siga =~= sigb);
        }
        let da = fs.dirs_in(self.inner.full_name());
        let db = fs.dirs_in(other.inner.full_name());
        proof {
            crate::model::lemma_dir_paths_in(ds, a);
            crate::model::lemma_dir_paths_in(ds, b);
        }
        if da.len() != db.len() {
            return false;
        }
        let m = da.len();
        let mut k: usize = 0;
        while k < m
            invariant
                k <= m,
                m == da@.len(),
                m == db@.len(),
                fs.wf(),
                fuel >= 1,
                fuel as int >= crate::model::max_len(fs.dirs_view()) + 1 - self.path().len(),
                fsv == fs.files_view(),
                ds == fs.dirs_view(),
                a == self.path(),
                b == other.path(),
                da@.map_values(|s: String| s@) == dir_paths_in(ds, a),
                db@.map_values(|s: String| s@) == dir_paths_in(ds, b),
                forall|j: int|
                    0 <= j < k ==> name_of(#[trigger] dir_paths_in(ds, a)[j]) == name_of(
                        dir_paths_in(ds, b)[j],
                    ) && trees_eq_fuel(
                        fsv,
                        ds,
                        dir_paths_in(ds, a)[j],
                        dir_paths_in(ds, b)[j],
                        (fuel - 1) as nat,
                    ),
            decreases m - k,
        {
            proof {
                crate::model::lemma_dir_paths_in(ds, a);
                crate::model::lemma_dir_paths_in(ds, b);
                crate::model::lemma_max_len(ds);
                assert(da@[k as int]@ == dir_paths_in(ds, a)[k as int]);
                assert(db@[k as int]@ == dir_paths_in(ds, b)[k as int]);
                let ca = dir_paths_in(ds, a)[k as int];
                assert(ds.contains(ca));
                let w = choose|w: int| 0 <= w < ds.len() && ds[w] == ca;
                assert(ca.len() <= crate::model::max_len(ds));
                crate::model::lemma_child_longer(ca, a);
            }
            let na = crate::pathstr::name_of_str(da[k].as_str());
            let nb = crate::pathstr::name_of_str(db[k].as_str());
            if !str_eq(na.as_str(), nb.as_str()) {
                return false;
            }
            let ha = DirectoryInfo::from_builder(PathBuilder::from_normalized(da[k].clone()));
            let hb = DirectoryInfo::from_builder(PathBuilder::from_normalized(db[k].clone()));
            if !ha.is_eq_rec(&hb, fs, Ghost((fuel - 1) as nat)) {
                return false;
            }
            k = k + 1;
        }
        proof {
            assert forall|j: int|
                0 <= j < dir_paths_in(ds, a).len() implies name_of(
                #[trigger] dir_paths_in(ds, a)[j],
            ) == name_of(dir_paths_in(ds, b)[j]) && trees_eq_fuel(
                fsv,
                ds,
                dir_paths_in(ds, a)[j],
                dir_paths_in(ds, b)[j],
                (fuel - 1) as nat,
            ) by {}
        }
        true
    }

    /// Moves the whole tree into the directory `path`, keeping its
    /// name.
    pub fn move_to(&mut self, fs: &mut FsModel, path: &str, cwd: &str) -> (r: Result<
        (),
        FsError,
    >)
        requires
            old(fs).wf(),
            is_canon(cwd@),
            old(self).wf(),
        ensures
            final(fs).wf(),
            ({
                let src = old(self).path();
                let dest = normalized(path@ + seq!['/'] + name_of(old(self).path()), cwd@);
                match r {
                    Ok(()) => {
                        &&& old(fs).has_dir(src)
                        &&& final(self).path() == dest
                        &&& !final(fs).has_dir(src)
                        &&& final(fs).has_dir(dest)
                    },
                    Err(e) => {
                        &&& *final(self) == *old(self)
                        &&& (e == FsError::NotFound ==> !old(fs).has_dir(src))
                        &&& ({
                            ||| dest.len() <= 1
                            ||| src.len() <= 1
                            ||| !old(fs).has_dir(src)
                            ||| dest == src
                            ||| crate::model::in_dir_tree(dest, src)
                            ||| (e == FsError::AlreadyExists && (exists|pp: Seq<char>|
                                #[trigger] crate::model::in_dir_tree(pp, src) && old(
                                    fs,
                                ).has_file(pp) && final(fs).has_path(
                                    crate::model::relabel(pp, src, dest),
                                )))
                            ||| (e == FsError::Other && (exists|q: Seq<char>|
                                #[trigger] old(fs).has_dir(q) && (q == src
                                    || crate::model::in_dir_tree(q, src)) && old(fs).blocked(
                                    crate::model::relabel(q, src, dest),
                                )))
                        })
                    },
                }
            }),
    {
        let mut target = String::new();
        target.append(path);
        target.push('/');
        target.append(self.name());
        proof {
            assert(target@ =~= path@ + seq!['/'] + name_of(self.path()));
        }
        self.move_new(fs, target.as_str(), cwd)
    }

    /// Removes the directory with everything below it, consuming the
    /// handle.  The root itself cannot be removed.
    pub fn del(self, fs: &mut FsModel) -> (r: Result<(), FsError>)
        requires
            old(fs).wf(),
            self.wf(),
        ensures
            final(fs).wf(),
            match r {
                Ok(()) => {
                    &&& old(fs).has_dir(self.path())
                    &&& self.path().len() > 1
                    &&& final(fs).files_view() == crate::model::files_not_under(
                        old(fs).files_view(),
                        self.path(),
                    )
                    &&& final(fs).dirs_view() == crate::model::dirs_not_under(
                        old(fs).dirs_view(),
                        self.path(),
                    )
                },
                Err(e) => {
                    &&& *final(fs) == *old(fs)
                    &&& e == (if !old(fs).has_dir(self.path()) {
                        FsError::NotFound
                    } else {
                        FsError::Other
                    })
                    &&& (e == FsError::Other ==> self.path() == seq!['/'])
                },
            },
    {
        if !fs.is_dir(self.inner.full_name()) {
            return Err(FsError::NotFound);
        }
        if self.inner.full_name().unicode_len() <= 1 {
            return Err(FsError::Other);
        }
        fs.remove_tree(self.inner.full_name());
        Ok(())
    }
}

} // verus!
