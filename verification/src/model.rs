use vstd::prelude::*;

use crate::convert::FsError;
use crate::pathstr::{dir_of, is_canon, last_index, lemma_last_index};
use crate::text::{clone_bytes, str_eq};

verus! {

/// The spec-level picture of the stored files: path and content, in
/// creation order.
pub type FileSeq = Seq<(Seq<char>, Seq<u8>)>;

/// The first position at which the path `p` is stored, or `-1`.
pub open spec fn find_key(fs: FileSeq, p: Seq<char>) -> int
    decreases fs.len(),
{
    if fs.len() == 0 {
        -1
    } else if fs[0].0 == p {
        0
    } else {
        let r = find_key(fs.drop_first(), p);
        if r == -1 {
            -1
        } else {
            r + 1
        }
    }
}

pub proof fn lemma_find_key(fs: FileSeq, p: Seq<char>)
    ensures
        -1 <= find_key(fs, p) < fs.len(),
        find_key(fs, p) >= 0 ==> fs[find_key(fs, p)].0 == p,
        forall|j: int| 0 <= j < find_key(fs, p) ==> fs[j].0 != p,
        find_key(fs, p) == -1 ==> forall|j: int| 0 <= j < fs.len() ==> fs[j].0 != p,
    decreases fs.len(),
{
    if fs.len() > 0 && fs[0].0 != p {
        lemma_find_key(fs.drop_first(), p);
        assert forall|j: int| 0 <= j < find_key(fs, p) implies fs[j].0 != p by {
            if j > 0 {
                assert(fs[j] == fs.drop_first()[j - 1]);
            }
        }
        if find_key(fs, p) == -1 {
            assert forall|j: int| 0 <= j < fs.len() implies fs[j].0 != p by {
                if j > 0 {
                    assert(fs[j] == fs.drop_first()[j - 1]);
                }
            }
        }
    }
}

/// Whether `q` is a prefix of `p` that ends right before a separator or
/// at the end: one of the directories that `p` runs through, or `p`
/// itself.
pub open spec fn is_prefix_dir(q: Seq<char>, p: Seq<char>) -> bool {
    exists|j: int|
        1 <= j <= p.len() && (j == p.len() || p[j] == '/') && q == #[trigger] p.take(j)
}

/// Whether `p` lies strictly below the directory `d`.
pub open spec fn in_dir_tree(p: Seq<char>, d: Seq<char>) -> bool {
    if d == seq!['/'] {
        p.len() > 1 && p[0] == '/'
    } else {
        p.len() > d.len() && p.take(d.len() as int) == d && p[d.len() as int] == '/'
    }
}

/// The paths of the stored files that sit directly in the directory
/// `d`, in store order.
pub open spec fn file_paths_in(fs: FileSeq, d: Seq<char>) -> Seq<Seq<char>>
    decreases fs.len(),
{
    if fs.len() == 0 {
        Seq::empty()
    } else {
        file_paths_in(fs.drop_last(), d) + (if dir_of(fs.last().0) == d {
            seq![fs.last().0]
        } else {
            Seq::empty()
        })
    }
}

/// The stored directories that sit directly in the directory `d`, in
/// store order.  The root sits in no directory.
pub open spec fn dir_paths_in(ds: Seq<Seq<char>>, d: Seq<char>) -> Seq<Seq<char>>
    decreases ds.len(),
{
    if ds.len() == 0 {
        Seq::empty()
    } else {
        dir_paths_in(ds.drop_last(), d) + (if ds.last().len() > 1 && dir_of(ds.last()) == d {
            seq![ds.last()]
        } else {
            Seq::empty()
        })
    }
}

/// Every listed child file path names a stored file that sits in `d`.
pub proof fn lemma_file_paths_in(fs: FileSeq, d: Seq<char>)
    ensures
        forall|i: int|
            0 <= i < file_paths_in(fs, d).len() ==> find_key(
                fs,
                #[trigger] file_paths_in(fs, d)[i],
            ) >= 0 && dir_of(file_paths_in(fs, d)[i]) == d,
    decreases fs.len(),
{
    if fs.len() > 0 {
        lemma_file_paths_in(fs.drop_last(), d);
        let res = file_paths_in(fs, d);
        let res0 = file_paths_in(fs.drop_last(), d);
        assert forall|i: int|
            0 <= i < res.len() implies find_key(fs, #[trigger] res[i]) >= 0 && dir_of(res[i])
            == d by {
            lemma_find_key(fs, res[i]);
            if i < res0.len() {
                assert(res[i] == res0[i]);
                lemma_find_key(fs.drop_last(), res[i]);
                let w = find_key(fs.drop_last(), res[i]);
                assert(fs.drop_last()[w] == fs[w]);
                if find_key(fs, res[i]) == -1 {
                    assert(fs[w].0 != res[i]);
                }
            } else {
                assert(res[i] == fs.last().0);
                if find_key(fs, res[i]) == -1 {
                    assert(fs[fs.len() - 1].0 != res[i]);
                }
            }
        }
    }
}

/// Every listed child directory is stored, sits in `d`, and is longer
/// than `d`.
pub proof fn lemma_dir_paths_in(ds: Seq<Seq<char>>, d: Seq<char>)
    requires
        forall|i: int| 0 <= i < ds.len() ==> is_canon(#[trigger] ds[i]),
    ensures
        forall|i: int|
            0 <= i < dir_paths_in(ds, d).len() ==> ds.contains(
                #[trigger] dir_paths_in(ds, d)[i],
            ) && dir_paths_in(ds, d)[i].len() > d.len() && dir_of(dir_paths_in(ds, d)[i]) == d,
    decreases ds.len(),
{
    if ds.len() > 0 {
        lemma_dir_paths_in(ds.drop_last(), d);
        let res = dir_paths_in(ds, d);
        let res0 = dir_paths_in(ds.drop_last(), d);
        assert forall|i: int|
            0 <= i < res.len() implies ds.contains(#[trigger] res[i]) && res[i].len() > d.len()
            && dir_of(res[i]) == d by {
            if i < res0.len() {
                assert(res[i] == res0[i]);
                assert(ds.drop_last().contains(res[i]));
                let w = choose|w: int|
                    0 <= w < ds.drop_last().len() && ds.drop_last()[w] == res[i];
                assert(ds[w] == res[i]);
            } else {
                assert(res[i] == ds.last());
                assert(ds[ds.len() - 1] == res[i]);
                lemma_child_longer(res[i], d);
            }
        }
    }
}

/// A directory that sits in `d` is longer than `d`.
pub proof fn lemma_child_longer(c: Seq<char>, d: Seq<char>)
    requires
        c.len() > 1,
        is_canon(c),
        dir_of(c) == d,
    ensures
        c.len() > d.len(),
{
    lemma_last_index(c, '/');
    let li = last_index(c, '/');
    if li == -1 {
        assert(c[0] != '/');
    }
    if li == 0 {
        assert(d == seq!['/']);
    } else {
        assert(d == c.take(li));
    }
}

/// The total length of the file contents that lie anywhere below the
/// directory `d`.
pub open spec fn size_under(fs: FileSeq, d: Seq<char>) -> nat
    decreases fs.len(),
{
    if fs.len() == 0 {
        0
    } else {
        size_under(fs.drop_last(), d) + (if in_dir_tree(fs.last().0, d) {
            fs.last().1.len()
        } else {
            0
        })
    }
}

/// The total length of the file contents sitting directly in `d`.
pub open spec fn direct_size(fs: FileSeq, d: Seq<char>) -> nat
    decreases fs.len(),
{
    if fs.len() == 0 {
        0
    } else {
        direct_size(fs.drop_last(), d) + (if dir_of(fs.last().0) == d {
            fs.last().1.len()
        } else {
            0
        })
    }
}

/// The total of the subtree sizes of the listed directories.
pub open spec fn sum_sizes(fs: FileSeq, cs: Seq<Seq<char>>) -> nat
    decreases cs.len(),
{
    if cs.len() == 0 {
        0
    } else {
        sum_sizes(fs, cs.drop_last()) + size_under(fs, cs.last())
    }
}

/// The first position at or after `i` holding a separator, or the
/// length when none follows.
pub open spec fn next_slash(s: Seq<char>, i: int) -> int
    decreases s.len() - i,
{
    if i >= s.len() || i < 0 {
        s.len() as int
    } else if s[i] == '/' {
        i
    } else {
        next_slash(s, i + 1)
    }
}

pub proof fn lemma_next_slash(s: Seq<char>, i: int)
    requires
        0 <= i <= s.len(),
    ensures
        i <= next_slash(s, i) <= s.len(),
        next_slash(s, i) < s.len() ==> s[next_slash(s, i)] == '/',
        forall|t: int| i <= t < next_slash(s, i) ==> s[t] != '/',
    decreases s.len() - i,
{
    if i < s.len() && s[i] != '/' {
        lemma_next_slash(s, i + 1);
    }
}

/// Every prefix of a stored entry's path that ends right before a
/// separator is itself a stored directory.
pub proof fn lemma_prefix_dirs_stored(ds: Seq<Seq<char>>, x: Seq<char>, j: int)
    requires
        is_canon(x),
        x.len() > 1,
        ds.contains(dir_of(x)),
        forall|i: int|
            0 <= i < ds.len() ==> (#[trigger] ds[i]).len() > 1 ==> ds.contains(dir_of(ds[i])),
        2 <= j < x.len(),
        x[j] == '/',
    ensures
        ds.contains(x.take(j)),
    decreases x.len(),
{
    lemma_last_index(x, '/');
    let li = last_index(x, '/');
    assert(li >= j);
    if li == j {
        assert(dir_of(x) == x.take(j));
    } else {
        let y = dir_of(x);
        assert(li >= 2) by {
            if li < 2 {
                assert(x[j] != '/');
            }
        }
        assert(y == x.take(li));
        assert(is_canon(y)) by {
            assert(y[0] == x[0]);
            assert(y.last() == x[li - 1]);
            assert(!(x[li - 1] == '/' && x[li] == '/'));
            assert(forall|t: int| 0 <= t < y.len() ==> #[trigger] y[t] == x[t]);
        }
        assert(y.len() > 1);
        let w = choose|w: int| 0 <= w < ds.len() && ds[w] == y;
        assert(ds.contains(dir_of(y)));
        assert(y[j] == x[j]);
        lemma_prefix_dirs_stored(ds, y, j);
        assert(y.take(j) =~= x.take(j));
    }
}

/// A stored directory that sits in `d` is listed among the children of
/// `d`.
pub proof fn lemma_dir_paths_in_complete(ds: Seq<Seq<char>>, d: Seq<char>, x: Seq<char>)
    requires
        ds.contains(x),
        x.len() > 1,
        dir_of(x) == d,
    ensures
        dir_paths_in(ds, d).contains(x),
    decreases ds.len(),
{
    let w = choose|w: int| 0 <= w < ds.len() && ds[w] == x;
    if w == ds.len() - 1 {
        assert(dir_paths_in(ds, d).last() == x);
    } else {
        assert(ds.drop_last()[w] == x);
        assert(ds.drop_last().contains(x));
        lemma_dir_paths_in_complete(ds.drop_last(), d, x);
        let res0 = dir_paths_in(ds.drop_last(), d);
        let w2 = choose|w2: int| 0 <= w2 < res0.len() && res0[w2] == x;
        assert(dir_paths_in(ds, d)[w2] == x);
    }
}

/// Two distinct directories sitting in the same directory hold
/// disjoint trees.
proof fn lemma_sibling_disjoint(x: Seq<char>, c1: Seq<char>, c2: Seq<char>, d: Seq<char>)
    requires
        c1 != c2,
        is_canon(c1),
        is_canon(c2),
        c1.len() > 1,
        c2.len() > 1,
        dir_of(c1) == d,
        dir_of(c2) == d,
    ensures
        !(in_dir_tree(x, c1) && in_dir_tree(x, c2)),
{
    if in_dir_tree(x, c1) && in_dir_tree(x, c2) {
        if c1.len() == c2.len() {
            assert(x.take(c1.len() as int) == c1);
            assert(x.take(c2.len() as int) == c2);
            assert(c1 =~= c2);
        } else if c1.len() < c2.len() {
            lemma_sibling_overlap(x, c1, c2, d);
        } else {
            lemma_sibling_overlap(x, c2, c1, d);
        }
    }
}

/// The shorter of two overlapping siblings would have to hold the
/// longer one, which contradicts their sitting side by side.
proof fn lemma_sibling_overlap(x: Seq<char>, c1: Seq<char>, c2: Seq<char>, d: Seq<char>)
    requires
        is_canon(c1),
        is_canon(c2),
        c1.len() > 1,
        c2.len() > 1,
        c1.len() < c2.len(),
        dir_of(c1) == d,
        dir_of(c2) == d,
        in_dir_tree(x, c1),
        in_dir_tree(x, c2),
    ensures
        c1 == c2,
{
    lemma_child_longer(c1, d);
    lemma_child_longer(c2, d);
    assert(x.take(c1.len() as int) == c1);
    assert(x.take(c2.len() as int) == c2);
    assert(c2[c1.len() as int] == x[c1.len() as int]) by {
        assert(x.take(c2.len() as int)[c1.len() as int] == x[c1.len() as int]);
    }
    assert(x[c1.len() as int] == '/');
    lemma_last_index(c2, '/');
    let li = last_index(c2, '/');
    assert(li >= c1.len()) by {
        if li < c1.len() {
            assert(c2[c1.len() as int] != '/');
        }
    }
    assert(li >= 2);
    assert(dir_of(c2) == c2.take(li));
    assert(d.len() == li);
    assert(d.len() < c1.len());
}

/// A fresh entry adds its length to at most one subtree among the
/// children, and the sums follow.
proof fn lemma_sum_sizes_push(fs: FileSeq, e: (Seq<char>, Seq<u8>), cs: Seq<Seq<char>>)
    requires
        forall|i: int, j: int|
            0 <= i < cs.len() && 0 <= j < cs.len() && i != j ==> !(in_dir_tree(
                e.0,
                #[trigger] cs[i],
            ) && in_dir_tree(e.0, #[trigger] cs[j])),
    ensures
        sum_sizes(fs.push(e), cs) == sum_sizes(fs, cs) + (if exists|i: int|
            0 <= i < cs.len() && in_dir_tree(e.0, #[trigger] cs[i]) {
            e.1.len()
        } else {
            0nat
        }),
    decreases cs.len(),
{
    if cs.len() > 0 {
        lemma_sum_sizes_push(fs, e, cs.drop_last());
        assert(fs.push(e).drop_last() =~= fs);
        assert(size_under(fs.push(e), cs.last()) == size_under(fs, cs.last()) + (if in_dir_tree(
            e.0,
            cs.last(),
        ) {
            e.1.len()
        } else {
            0nat
        }));
        assert(forall|i: int|
            0 <= i < cs.len() - 1 ==> #[trigger] cs.drop_last()[i] == cs[i]);
        if in_dir_tree(e.0, cs.last()) {
            assert(!(exists|i: int|
                0 <= i < cs.drop_last().len() && in_dir_tree(e.0, #[trigger] cs.drop_last()[i])))
                by {
                if exists|i: int|
                    0 <= i < cs.drop_last().len() && in_dir_tree(e.0, #[trigger] cs.drop_last()[i]) {
                    let i = choose|i: int|
                        0 <= i < cs.drop_last().len() && in_dir_tree(
                            e.0,
                            #[trigger] cs.drop_last()[i],
                        );
                    assert(in_dir_tree(e.0, cs[i]) && in_dir_tree(e.0, cs[cs.len() - 1]));
                }
            }
            assert(exists|i: int| 0 <= i < cs.len() && in_dir_tree(e.0, #[trigger] cs[i])) by {
                assert(in_dir_tree(e.0, cs[cs.len() - 1]));
            }
        } else {
            assert((exists|i: int|
                0 <= i < cs.drop_last().len() && in_dir_tree(e.0, #[trigger] cs.drop_last()[i]))
                == (exists|i: int| 0 <= i < cs.len() && in_dir_tree(e.0, #[trigger] cs[i]))) by {
                if exists|i: int| 0 <= i < cs.len() && in_dir_tree(e.0, #[trigger] cs[i]) {
                    let i = choose|i: int|
                        0 <= i < cs.len() && in_dir_tree(e.0, #[trigger] cs[i]);
                    assert(i < cs.len() - 1);
                    assert(in_dir_tree(e.0, cs.drop_last()[i]));
                }
                if exists|i: int|
                    0 <= i < cs.drop_last().len() && in_dir_tree(e.0, #[trigger] cs.drop_last()[i]) {
                    let i = choose|i: int|
                        0 <= i < cs.drop_last().len() && in_dir_tree(
                            e.0,
                            #[trigger] cs.drop_last()[i],
                        );
                    assert(in_dir_tree(e.0, cs[i]));
                }
            }
        }
    }
}

/// What lies below `d` is either directly in `d` or below exactly one
/// listed child of `d`.
proof fn lemma_classify(
    ds: Seq<Seq<char>>,
    d: Seq<char>,
    x: Seq<char>,
)
    requires
        is_canon(x),
        x.len() > 1,
        is_canon(d),
        ds.contains(dir_of(x)),
        ds.contains(seq!['/']),
        forall|i: int| 0 <= i < ds.len() ==> is_canon(#[trigger] ds[i]),
        forall|i: int|
            0 <= i < ds.len() ==> (#[trigger] ds[i]).len() > 1 ==> ds.contains(dir_of(ds[i])),
        in_dir_tree(x, d),
        dir_of(x) != d,
    ensures
        exists|i: int|
            0 <= i < dir_paths_in(ds, d).len() && in_dir_tree(x, #[trigger] dir_paths_in(ds, d)[i]),
{
    lemma_last_index(x, '/');
    let li = last_index(x, '/');
    let dl: int = if d == seq!['/'] {
        1
    } else {
        d.len() as int
    };
    let start: int = if d == seq!['/'] {
        1
    } else {
        d.len() as int + 1
    };
    assert(li >= 0) by {
        if li == -1 {
            assert(x[0] != '/');
        }
    }
    if d == seq!['/'] {
        assert(li > 0) by {
            if li == 0 {
                assert(dir_of(x) == seq!['/']);
            }
        }
    } else {
        assert(x[d.len() as int] == '/');
        assert(li >= d.len()) by {
            if li < d.len() {
                assert(x[d.len() as int] != '/');
            }
        }
        assert(li > d.len()) by {
            if li == d.len() {
                assert(li >= 2);
                assert(dir_of(x) == x.take(li));
                assert(x.take(li) =~= d);
            }
        }
    }
    lemma_next_slash(x, start);
    let j1 = next_slash(x, start);
    assert(j1 <= li) by {
        if j1 > li {
            assert(x[li] != '/');
        }
    }
    assert(x[j1] == '/');
    assert(j1 >= 2);
    let c = x.take(j1);
    assert(forall|t: int| 0 <= t < c.len() ==> #[trigger] c[t] == x[t]);
    lemma_prefix_dirs_stored(ds, x, j1);
    assert(ds.contains(c));
    assert(c.len() == j1 > 1);
    // the child holds x
    assert(is_canon(c)) by {
        assert(c[0] == x[0]);
        assert(c.last() == x[j1 - 1]);
        assert(!(x[j1 - 1] == '/' && x[j1] == '/'));
        assert(forall|t: int| 0 <= t < c.len() ==> #[trigger] c[t] == x[t]);
    }
    lemma_last_index(c, '/');
    let lc = last_index(c, '/');
    let lexp: int = if d == seq!['/'] {
        0
    } else {
        d.len() as int
    };
    assert(lc == lexp) by {
        if d == seq!['/'] {
            assert(c[0] == '/');
            if lc > 0 {
                assert(c[lc] == '/');
                assert(1 <= lc < j1);
                assert(x[lc] != '/');
            }
            if lc < 0 {
                assert(c[0] != '/');
            }
        } else {
            assert(c[d.len() as int] == x[d.len() as int]);
            assert(c[d.len() as int] == '/');
            if lc > d.len() {
                assert(c[lc] == '/');
                assert(start <= lc < j1);
                assert(x[lc] != '/');
            }
            if lc < d.len() {
                assert(c[d.len() as int] != '/');
            }
        }
    }
    assert(dir_of(c) == d) by {
        if d == seq!['/'] {
            assert(lc == 0);
        } else {
            assert(lc == d.len());
            assert(lc > 0);
            assert(c.take(lc) =~= d) by {
                assert(x.take(d.len() as int) == d);
                assert(forall|t: int|
                    0 <= t < d.len() ==> #[trigger] c.take(lc)[t] == x[t]);
                assert(forall|t: int|
                    0 <= t < d.len() ==> #[trigger] x.take(d.len() as int)[t] == x[t]);
            }
        }
    }
    lemma_dir_paths_in_complete(ds, d, c);
    let w = choose|w: int| 0 <= w < dir_paths_in(ds, d).len() && dir_paths_in(ds, d)[w] == c;
    assert(in_dir_tree(x, c)) by {
        assert(x.take(c.len() as int) =~= c);
        assert(x[c.len() as int] == '/');
        assert(x.len() > c.len()) by {
            assert(j1 <= li < x.len());
        }
    }
    assert(in_dir_tree(x, dir_paths_in(ds, d)[w]));
}

/// The size of a tree splits into the files directly in its root and
/// the sizes of its child trees: the recursive descent reaches every
/// file below the directory exactly once.
pub proof fn lemma_size_recursive_descent(fs: FileSeq, ds: Seq<Seq<char>>, d: Seq<char>)
    requires
        is_canon(d),
        ds.contains(seq!['/']),
        forall|i: int| 0 <= i < ds.len() ==> is_canon(#[trigger] ds[i]),
        forall|i: int, j: int| 0 <= i < j < ds.len() ==> ds[i] != ds[j],
        forall|i: int|
            0 <= i < ds.len() ==> (#[trigger] ds[i]).len() > 1 ==> ds.contains(dir_of(ds[i])),
        forall|i: int|
            0 <= i < fs.len() ==> is_canon((#[trigger] fs[i]).0) && fs[i].0.len() > 1,
        forall|i: int| 0 <= i < fs.len() ==> ds.contains(dir_of((#[trigger] fs[i]).0)),
    ensures
        size_under(fs, d) == direct_size(fs, d) + sum_sizes(fs, dir_paths_in(ds, d)),
    decreases fs.len(),
{
    let cs = dir_paths_in(ds, d);
    lemma_dir_paths_in(ds, d);
    lemma_dir_paths_in_unique(ds, d);
    if fs.len() == 0 {
        assert(fs =~= Seq::<(Seq<char>, Seq<u8>)>::empty());
        lemma_sum_sizes_zero(cs);
    } else {
        let fs0 = fs.drop_last();
        let e = fs.last();
        assert(forall|i: int|
            0 <= i < fs0.len() ==> #[trigger] fs0[i] == fs[i]);
        assert(fs[fs.len() - 1] == e);
        assert(is_canon(e.0) && e.0.len() > 1);
        assert(ds.contains(dir_of(e.0)));
        lemma_size_recursive_descent(fs0, ds, d);
        assert(fs0.push(e) =~= fs);
        assert forall|i: int, j: int|
            0 <= i < cs.len() && 0 <= j < cs.len() && i != j implies !(in_dir_tree(
            e.0,
            #[trigger] cs[i],
        ) && in_dir_tree(e.0, #[trigger] cs[j])) by {
            if in_dir_tree(e.0, cs[i]) && in_dir_tree(e.0, cs[j]) {
                if i < j {
                    assert(cs[i] != cs[j]);
                } else {
                    assert(cs[j] != cs[i]);
                }
                lemma_sibling_disjoint(e.0, cs[i], cs[j], d);
            }
        }
        lemma_sum_sizes_push(fs0, e, cs);
        assert(sum_sizes(fs, cs) == sum_sizes(fs0.push(e), cs));
        // classify the new entry
        if in_dir_tree(e.0, d) {
            if dir_of(e.0) == d {
                assert(!(exists|i: int|
                    0 <= i < cs.len() && in_dir_tree(e.0, #[trigger] cs[i]))) by {
                    if exists|i: int| 0 <= i < cs.len() && in_dir_tree(e.0, #[trigger] cs[i]) {
                        let i = choose|i: int|
                            0 <= i < cs.len() && in_dir_tree(e.0, #[trigger] cs[i]);
                        assert(ds.contains(cs[i]));
                        let w = choose|w: int| 0 <= w < ds.len() && ds[w] == cs[i];
                        assert(is_canon(cs[i]));
                        lemma_in_own_dir_only(e.0, cs[i], d);
                    }
                }
            } else {
                assert(ds.contains(dir_of(e.0))) by {
                    assert(fs[fs.len() - 1] == e);
                }
                lemma_classify(ds, d, e.0);
            }
        } else {
            assert(!(exists|i: int|
                0 <= i < cs.len() && in_dir_tree(e.0, #[trigger] cs[i]))) by {
                if exists|i: int| 0 <= i < cs.len() && in_dir_tree(e.0, #[trigger] cs[i]) {
                    let i = choose|i: int|
                        0 <= i < cs.len() && in_dir_tree(e.0, #[trigger] cs[i]);
                    assert(ds.contains(cs[i]));
                    let w = choose|w: int| 0 <= w < ds.len() && ds[w] == cs[i];
                    assert(is_canon(cs[i]));
                    lemma_dir_of_in_tree(cs[i]);
                    assert(in_dir_tree(cs[i], d));
                    lemma_tree_trans(e.0, cs[i], d);
                }
            }
            assert(dir_of(e.0) != d) by {
                if dir_of(e.0) == d {
                    assert(fs[fs.len() - 1] == e);
                    lemma_dir_of_in_tree(e.0);
                }
            }
        }
        let u_d: nat = if in_dir_tree(e.0, d) {
            e.1.len()
        } else {
            0
        };
        assert(size_under(fs, d) == size_under(fs0, d) + u_d);
        let u_dir: nat = if dir_of(e.0) == d {
            e.1.len()
        } else {
            0
        };
        assert(direct_size(fs, d) == direct_size(fs0, d) + u_dir);
        let u_c: nat = if exists|i: int| 0 <= i < cs.len() && in_dir_tree(e.0, #[trigger] cs[i]) {
            e.1.len()
        } else {
            0
        };
        assert(sum_sizes(fs, cs) == sum_sizes(fs0, cs) + u_c);
        assert(u_d == u_dir + u_c);
    }
}

/// An empty store gives empty sums.
proof fn lemma_sum_sizes_zero(cs: Seq<Seq<char>>)
    ensures
        sum_sizes(Seq::empty(), cs) == 0,
    decreases cs.len(),
{
    if cs.len() > 0 {
        lemma_sum_sizes_zero(cs.drop_last());
    }
}

/// The listed children of a duplicate-free store are pairwise
/// distinct.
proof fn lemma_dir_paths_in_unique(ds: Seq<Seq<char>>, d: Seq<char>)
    requires
        forall|i: int, j: int| 0 <= i < j < ds.len() ==> ds[i] != ds[j],
    ensures
        forall|i: int, j: int|
            0 <= i < j < dir_paths_in(ds, d).len() ==> dir_paths_in(ds, d)[i] != dir_paths_in(
                ds,
                d,
            )[j],
    decreases ds.len(),
{
    if ds.len() > 0 {
        assert(forall|i: int, j: int|
            0 <= i < j < ds.drop_last().len() ==> ds.drop_last()[i] != ds.drop_last()[j]);
        lemma_dir_paths_in_unique(ds.drop_last(), d);
        let res = dir_paths_in(ds, d);
        let res0 = dir_paths_in(ds.drop_last(), d);
        assert forall|i: int, j: int|
            0 <= i < j < res.len() implies res[i] != res[j] by {
            if j < res0.len() {
                assert(res[i] == res0[i] && res[j] == res0[j]);
            } else {
                assert(res[j] == ds.last());
                assert(res[i] == res0[i]);
                lemma_dir_paths_in_member(ds.drop_last(), d, i);
                let w = choose|w: int|
                    0 <= w < ds.drop_last().len() && ds.drop_last()[w] == res0[i];
                assert(ds[w] == res0[i]);
                assert(ds[w] != ds[ds.len() - 1]);
            }
        }
    }
}

/// Every listed child is an element of the store.
proof fn lemma_dir_paths_in_member(ds: Seq<Seq<char>>, d: Seq<char>, i: int)
    requires
        0 <= i < dir_paths_in(ds, d).len(),
    ensures
        ds.contains(dir_paths_in(ds, d)[i]),
    decreases ds.len(),
{
    if ds.len() > 0 {
        let res = dir_paths_in(ds, d);
        let res0 = dir_paths_in(ds.drop_last(), d);
        if i < res0.len() {
            lemma_dir_paths_in_member(ds.drop_last(), d, i);
            let w = choose|w: int|
                0 <= w < ds.drop_last().len() && ds.drop_last()[w] == res0[i];
            assert(ds[w] == res0[i]);
        } else {
            assert(res[i] == ds.last());
            assert(ds[ds.len() - 1] == res[i]);
        }
    }
}

/// Nothing lies strictly below itself.
proof fn lemma_no_self_tree(x: Seq<char>)
    ensures
        !in_dir_tree(x, x),
{
    if in_dir_tree(x, x) {
        if x == seq!['/'] {
        } else {
            assert(x.len() > x.len());
        }
    }
}

/// A path sitting directly in `d` lies below no child of `d`.
proof fn lemma_in_own_dir_only(x: Seq<char>, c: Seq<char>, d: Seq<char>)
    requires
        dir_of(x) == d,
        c.len() > 1,
        is_canon(c),
        dir_of(c) == d,
        is_canon(x),
        x.len() > 1,
    ensures
        !in_dir_tree(x, c),
{
    if in_dir_tree(x, c) {
        lemma_child_longer(c, d);
        lemma_last_index(x, '/');
        let li = last_index(x, '/');
        assert(li >= 0) by {
            if li == -1 {
                assert(x[0] != '/');
            }
        }
        assert(x.take(c.len() as int) == c);
        assert(x[c.len() as int] == '/');
        assert(li >= c.len()) by {
            if li < c.len() {
                assert(x[c.len() as int] != '/');
            }
        }
        if li == 0 {
            assert(dir_of(x) == seq!['/']);
            assert(c.len() <= 0);
        } else {
            assert(dir_of(x) == x.take(li));
            assert(d.len() == li >= c.len() > d.len());
        }
    }
}

/// The stored files that do not lie at or below the directory `d`, in
/// store order.
pub open spec fn files_not_under(fs: FileSeq, d: Seq<char>) -> FileSeq
    decreases fs.len(),
{
    if fs.len() == 0 {
        Seq::empty()
    } else {
        files_not_under(fs.drop_last(), d) + (if fs.last().0 == d || in_dir_tree(
            fs.last().0,
            d,
        ) {
            Seq::empty()
        } else {
            seq![fs.last()]
        })
    }
}

/// The stored directories that do not lie at or below the directory
/// `d`, in store order.
pub open spec fn dirs_not_under(ds: Seq<Seq<char>>, d: Seq<char>) -> Seq<Seq<char>>
    decreases ds.len(),
{
    if ds.len() == 0 {
        Seq::empty()
    } else {
        dirs_not_under(ds.drop_last(), d) + (if ds.last() == d || in_dir_tree(ds.last(), d) {
            Seq::empty()
        } else {
            seq![ds.last()]
        })
    }
}

/// Lying below a directory runs down the tree: what lies below `q` lies
/// below whatever `q` lies at or below.
pub proof fn lemma_tree_trans(x: Seq<char>, q: Seq<char>, d: Seq<char>)
    requires
        in_dir_tree(x, q),
        q == d || in_dir_tree(q, d),
        d.len() >= 1,
    ensures
        in_dir_tree(x, d),
{
    if q != d {
        if d == seq!['/'] {
            if q == seq!['/'] {
            } else {
                assert(x[0] == x.take(q.len() as int)[0]);
                assert(x[0] == q[0]);
                assert(q[0] == q.take(d.len() as int)[0]);
            }
        } else {
            assert(q.len() > d.len());
            assert(q != seq!['/']);
            assert(x.len() > q.len());
            assert forall|t: int| 0 <= t < d.len() implies x.take(d.len() as int)[t]
                == d[t] by {
                assert(x.take(q.len() as int)[t] == x[t]);
                assert(q[t] == q.take(d.len() as int)[t]);
            }
            assert(x.take(d.len() as int) =~= d);
            assert(x[d.len() as int] == x.take(q.len() as int)[d.len() as int]);
            assert(x[d.len() as int] == q[d.len() as int]);
            assert(q[d.len() as int] == '/');
        }
    } else {
        if d == seq!['/'] {
        } else {
            assert(x.len() > d.len());
        }
    }
}

/// Every canonical path that names more than the root lies below the
/// directory that holds it.
pub proof fn lemma_dir_of_in_tree(x: Seq<char>)
    requires
        is_canon(x),
        x.len() > 1,
    ensures
        in_dir_tree(x, dir_of(x)),
{
    lemma_last_index(x, '/');
    let li = last_index(x, '/');
    if li == -1 {
        assert(x[0] != '/');
    }
    if li == 0 {
        assert(dir_of(x) == seq!['/']);
    } else {
        let d = x.take(li);
        assert(d.len() == li);
        if d == seq!['/'] {
            assert(x[0] == '/' && x[1] == '/');
        }
        assert(x.take(d.len() as int) == d);
        assert(x[li] == '/');
    }
}

/// What the file filter keeps: entries of the store, outside the
/// removed tree, with key uniqueness carried over.
pub proof fn lemma_files_not_under_wf(fs: FileSeq, d: Seq<char>)
    ensures
        forall|i: int|
            0 <= i < files_not_under(fs, d).len() ==> fs.contains(
                #[trigger] files_not_under(fs, d)[i],
            ) && files_not_under(fs, d)[i].0 != d && !in_dir_tree(files_not_under(fs, d)[i].0, d),
        (forall|i: int, j: int| 0 <= i < j < fs.len() ==> fs[i].0 != fs[j].0) ==> (forall|
            i: int,
            j: int,
        |
            0 <= i < j < files_not_under(fs, d).len() ==> files_not_under(fs, d)[i].0
                != files_not_under(fs, d)[j].0),
    decreases fs.len(),
{
    if fs.len() > 0 {
        lemma_files_not_under_wf(fs.drop_last(), d);
        let res = files_not_under(fs, d);
        let res0 = files_not_under(fs.drop_last(), d);
        assert forall|i: int|
            0 <= i < res.len() implies fs.contains(#[trigger] res[i]) && res[i].0 != d
            && !in_dir_tree(res[i].0, d) by {
            if i < res0.len() {
                assert(res[i] == res0[i]);
                assert(fs.drop_last().contains(res[i]));
                let w = choose|w: int|
                    0 <= w < fs.drop_last().len() && fs.drop_last()[w] == res[i];
                assert(fs[w] == res[i]);
            } else {
                assert(res[i] == fs.last());
                assert(fs[fs.len() - 1] == res[i]);
            }
        }
        if forall|i: int, j: int| 0 <= i < j < fs.len() ==> fs[i].0 != fs[j].0 {
            assert(forall|i: int, j: int|
                0 <= i < j < fs.drop_last().len() ==> fs.drop_last()[i].0
                    != (fs.drop_last()[j]).0);
            assert forall|i: int, j: int|
                0 <= i < j < res.len() implies res[i].0 != res[j].0 by {
                if j < res0.len() {
                    assert(res[i] == res0[i] && res[j] == res0[j]);
                } else {
                    assert(res[j] == fs.last());
                    assert(res[i] == res0[i]);
                    assert(fs.drop_last().contains(res0[i]));
                    let w = choose|w: int|
                        0 <= w < fs.drop_last().len() && fs.drop_last()[w] == res0[i];
                    assert(fs[w] == res0[i]);
                    assert(fs[w].0 != fs[fs.len() - 1].0);
                }
            }
        }
    }
}

/// How the first position of a key moves when an entry is appended.
pub proof fn lemma_find_key_push(fs: FileSeq, e: (Seq<char>, Seq<u8>), x: Seq<char>)
    ensures
        find_key(fs.push(e), x) == (if find_key(fs, x) >= 0 {
            find_key(fs, x)
        } else if e.0 == x {
            fs.len() as int
        } else {
            -1
        }),
    decreases fs.len(),
{
    if fs.len() == 0 {
        assert(fs.push(e)[0] == e);
        if e.0 != x {
            assert(find_key(Seq::<(Seq<char>, Seq<u8>)>::empty(), x) == -1);
            assert(fs.push(e).drop_first() =~= Seq::<(Seq<char>, Seq<u8>)>::empty());
            assert(find_key(fs.push(e), x) == -1);
        } else {
            assert(find_key(fs.push(e), x) == 0);
        }
    } else {
        assert(fs.push(e)[0] == fs[0]);
        if fs[0].0 != x {
            assert(fs.push(e).drop_first() =~= fs.drop_first().push(e));
            lemma_find_key_push(fs.drop_first(), e, x);
            assert(find_key(fs.push(e), x) == (if find_key(fs.drop_first().push(e), x) == -1 {
                -1int
            } else {
                find_key(fs.drop_first().push(e), x) + 1
            }));
        } else {
            assert(find_key(fs, x) == 0);
            assert(find_key(fs.push(e), x) == 0);
        }
    }
}

/// What the file filter does to lookups: a key outside the removed
/// tree keeps its entry, everything at or below `d` is gone.
pub proof fn lemma_files_not_under_find(fs: FileSeq, d: Seq<char>, x: Seq<char>)
    requires
        forall|i: int, j: int| 0 <= i < j < fs.len() ==> fs[i].0 != fs[j].0,
    ensures
        (find_key(files_not_under(fs, d), x) >= 0) <==> (find_key(fs, x) >= 0 && x != d
            && !in_dir_tree(x, d)),
        find_key(files_not_under(fs, d), x) >= 0 ==> files_not_under(fs, d)[find_key(
            files_not_under(fs, d),
            x,
        )] == fs[find_key(fs, x)],
    decreases fs.len(),
{
    lemma_find_key(fs, x);
    lemma_find_key(files_not_under(fs, d), x);
    if fs.len() > 0 {
        let fs0 = fs.drop_last();
        let e = fs.last();
        assert(forall|i: int, j: int| 0 <= i < j < fs0.len() ==> fs0[i].0 != fs0[j].0);
        lemma_files_not_under_find(fs0, d, x);
        lemma_find_key(fs0, x);
        lemma_find_key(files_not_under(fs0, d), x);
        assert(fs0.push(e) =~= fs);
        lemma_find_key_push(fs0, e, x);
        lemma_files_not_under_wf(fs0, d);
        if e.0 == d || in_dir_tree(e.0, d) {
            assert(files_not_under(fs, d) =~= files_not_under(fs0, d));
            if x == e.0 {
                assert(find_key(fs0, x) == -1) by {
                    if find_key(fs0, x) >= 0 {
                        assert(fs0[find_key(fs0, x)] == fs[find_key(fs0, x)]);
                        assert(fs[find_key(fs0, x)].0 != fs[fs.len() - 1].0);
                    }
                }
                assert(find_key(files_not_under(fs0, d), x) == -1);
            }
        } else {
            assert(files_not_under(fs, d) =~= files_not_under(fs0, d).push(e));
            lemma_find_key_push(files_not_under(fs0, d), e, x);
            if x == e.0 {
                assert(find_key(fs0, x) == -1) by {
                    if find_key(fs0, x) >= 0 {
                        assert(fs0[find_key(fs0, x)] == fs[find_key(fs0, x)]);
                        assert(fs[find_key(fs0, x)].0 != fs[fs.len() - 1].0);
                    }
                }
                assert(find_key(files_not_under(fs0, d), x) == -1);
                assert(find_key(fs, x) == fs0.len());
                assert(find_key(files_not_under(fs, d), x) == files_not_under(fs0, d).len());
            }
        }
    }
}

/// What the directory filter keeps, exactly.
pub proof fn lemma_dirs_not_under_contains(ds: Seq<Seq<char>>, d: Seq<char>)
    ensures
        forall|x: Seq<char>|
            dirs_not_under(ds, d).contains(x) <==> (#[trigger] ds.contains(x) && x != d
                && !in_dir_tree(x, d)),
        (forall|i: int, j: int| 0 <= i < j < ds.len() ==> ds[i] != ds[j]) ==> (forall|
            i: int,
            j: int,
        |
            0 <= i < j < dirs_not_under(ds, d).len() ==> dirs_not_under(ds, d)[i]
                != dirs_not_under(ds, d)[j]),
        forall|i: int|
            0 <= i < dirs_not_under(ds, d).len() ==> ds.contains(
                #[trigger] dirs_not_under(ds, d)[i],
            ),
    decreases ds.len(),
{
    if ds.len() > 0 {
        lemma_dirs_not_under_contains(ds.drop_last(), d);
        let res = dirs_not_under(ds, d);
        let res0 = dirs_not_under(ds.drop_last(), d);
        assert forall|i: int|
            0 <= i < res.len() implies ds.contains(#[trigger] res[i]) by {
            if i < res0.len() {
                assert(res[i] == res0[i]);
                assert(ds.drop_last().contains(res[i]));
                let w = choose|w: int|
                    0 <= w < ds.drop_last().len() && ds.drop_last()[w] == res[i];
                assert(ds[w] == res[i]);
            } else {
                assert(res[i] == ds.last());
                assert(ds[ds.len() - 1] == res[i]);
            }
        }
        assert forall|x: Seq<char>|
            res.contains(x) implies (ds.contains(x) && x != d && !in_dir_tree(x, d)) by {
            let w = choose|w: int| 0 <= w < res.len() && res[w] == x;
            if w < res0.len() {
                assert(res0[w] == x);
                assert(res0.contains(x));
                let w2 = choose|w2: int|
                    0 <= w2 < ds.drop_last().len() && ds.drop_last()[w2] == x;
                assert(ds[w2] == x);
            } else {
                assert(x == ds.last());
                assert(ds[ds.len() - 1] == x);
            }
        }
        assert forall|x: Seq<char>|
            ds.contains(x) && x != d && !in_dir_tree(x, d) implies res.contains(x) by {
            let w = choose|w: int| 0 <= w < ds.len() && ds[w] == x;
            if w < ds.len() - 1 {
                assert(ds.drop_last()[w] == x);
                assert(ds.drop_last().contains(x));
                assert(res0.contains(x));
                let w2 = choose|w2: int| 0 <= w2 < res0.len() && res0[w2] == x;
                assert(res[w2] == x);
            } else {
                assert(x == ds.last());
                assert(res[res.len() - 1] == x);
            }
        }
        if forall|i: int, j: int| 0 <= i < j < ds.len() ==> ds[i] != ds[j] {
            assert(forall|i: int, j: int|
                0 <= i < j < ds.drop_last().len() ==> ds.drop_last()[i] != ds.drop_last()[j]);
            assert forall|i: int, j: int|
                0 <= i < j < res.len() implies res[i] != res[j] by {
                if j < res0.len() {
                    assert(res[i] == res0[i] && res[j] == res0[j]);
                } else {
                    assert(res[j] == ds.last());
                    assert(res[i] == res0[i]);
                    assert(res0.contains(res0[i]));
                    let w = choose|w: int|
                        0 <= w < ds.drop_last().len() && ds.drop_last()[w] == res0[i];
                    assert(ds[w] == res0[i]);
                    assert(ds[w] != ds[ds.len() - 1]);
                }
            }
        }
    }
}

/// The path `p`, moved from below `src` to the same place below
/// `dest`.
pub open spec fn relabel(p: Seq<char>, src: Seq<char>, dest: Seq<char>) -> Seq<char> {
    dest + p.skip(src.len() as int)
}

/// The files below `src`, relabeled below `dest`, in store order.
pub open spec fn relabeled_files_under(fs: FileSeq, src: Seq<char>, dest: Seq<char>) -> FileSeq
    decreases fs.len(),
{
    if fs.len() == 0 {
        Seq::empty()
    } else {
        relabeled_files_under(fs.drop_last(), src, dest) + (if in_dir_tree(fs.last().0, src) {
            seq![(relabel(fs.last().0, src, dest), fs.last().1)]
        } else {
            Seq::empty()
        })
    }
}

/// The relabeling of a store prefix is a prefix of the whole
/// relabeling.
pub proof fn lemma_relabeled_prefix(fs: FileSeq, src: Seq<char>, dest: Seq<char>, i: int)
    requires
        0 <= i <= fs.len(),
    ensures
        relabeled_files_under(fs.take(i), src, dest).len() <= relabeled_files_under(
            fs,
            src,
            dest,
        ).len(),
        relabeled_files_under(fs.take(i), src, dest) == relabeled_files_under(
            fs,
            src,
            dest,
        ).take(relabeled_files_under(fs.take(i), src, dest).len() as int),
    decreases fs.len(),
{
    if i == fs.len() {
        assert(fs.take(i) =~= fs);
        assert(relabeled_files_under(fs, src, dest).take(
            relabeled_files_under(fs, src, dest).len() as int,
        ) =~= relabeled_files_under(fs, src, dest));
    } else {
        lemma_relabeled_prefix(fs.drop_last(), src, dest, i);
        assert(fs.drop_last().take(i) =~= fs.take(i));
        let part = relabeled_files_under(fs.take(i), src, dest);
        let whole0 = relabeled_files_under(fs.drop_last(), src, dest);
        let whole = relabeled_files_under(fs, src, dest);
        assert(part == whole0.take(part.len() as int));
        assert(part.len() <= whole0.len());
        assert(whole0.take(part.len() as int) =~= whole.take(part.len() as int));
    }
}

/// How the last separator moves through a concatenation.
pub proof fn lemma_last_index_concat(a: Seq<char>, b: Seq<char>, c: char)
    ensures
        last_index(a + b, c) == (if last_index(b, c) >= 0 {
            a.len() + last_index(b, c)
        } else {
            last_index(a, c)
        }),
    decreases b.len(),
{
    if b.len() == 0 {
        assert(a + b =~= a);
    } else {
        assert((a + b).last() == b.last());
        if b.last() == c {
        } else {
            assert((a + b).drop_last() =~= a + b.drop_last());
            lemma_last_index_concat(a, b.drop_last(), c);
        }
    }
}

/// A path below `src` relabels to a canonical path below `dest`, held
/// by the relabeling of its own directory.
#[verifier::rlimit(60)]
pub proof fn lemma_relabel(f: Seq<char>, src: Seq<char>, dest: Seq<char>)
    requires
        is_canon(f),
        is_canon(src),
        src.len() > 1,
        is_canon(dest),
        dest.len() > 1,
        in_dir_tree(f, src),
    ensures
        is_canon(relabel(f, src, dest)),
        relabel(f, src, dest).len() > dest.len(),
        in_dir_tree(relabel(f, src, dest), dest),
        dir_of(relabel(f, src, dest)) == relabel(dir_of(f), src, dest),
        last_index(f, '/') >= src.len(),
        dir_of(f) == src || in_dir_tree(dir_of(f), src),
        dir_of(f) == src ==> relabel(dir_of(f), src, dest) == dest,
{
    let suf = f.skip(src.len() as int);
    let r = relabel(f, src, dest);
    assert(f[src.len() as int] == '/');
    assert(suf[0] == '/');
    assert(suf.len() == f.len() - src.len());
    lemma_last_index(f, '/');
    let lif = last_index(f, '/');
    assert(lif >= src.len()) by {
        if lif < src.len() {
            assert(f[src.len() as int] != '/');
        }
    }
    assert(f =~= f.take(src.len() as int) + suf);
    lemma_last_index_concat(f.take(src.len() as int), suf, '/');
    lemma_last_index(suf, '/');
    let lsuf = last_index(suf, '/');
    assert(lsuf >= 0) by {
        if lsuf == -1 {
            assert(suf[0] != '/');
        }
    }
    assert(lif == src.len() + lsuf);
    lemma_last_index_concat(dest, suf, '/');
    lemma_last_index(r, '/');
    assert(last_index(r, '/') == dest.len() + lsuf);
    // canonical shape of the relabeled path
    assert(is_canon(r)) by {
        assert(r[0] == dest[0]);
        assert(forall|t: int|
            0 <= t < r.len() ==> #[trigger] r[t] == (if t < dest.len() {
                dest[t]
            } else {
                suf[t - dest.len()]
            }));
        assert(forall|t: int|
            0 <= t < suf.len() ==> #[trigger] suf[t] == f[t + src.len()]);
        assert(r.last() == f.last());
        assert(forall|t: int|
            0 <= t < r.len() - 1 ==> !(#[trigger] r[t] == '/' && r[t + 1] == '/')) by {
            assert(dest.last() != '/');
        }
    }
    // the held directory relabels along
    let dr = dir_of(r);
    assert(dest.len() + lsuf > 0);
    assert(dr == r.take(dest.len() + lsuf));
    let df = dir_of(f);
    if lif == 0 {
        assert(false);
    }
    assert(df == f.take(lif));
    assert(df.len() == lif >= src.len());
    assert(df.take(src.len() as int) =~= src);
    assert(relabel(df, src, dest) =~= dest + df.skip(src.len() as int));
    assert(dr =~= dest + df.skip(src.len() as int)) by {
        assert(dr.len() == dest.len() + lsuf);
        assert(df.skip(src.len() as int).len() == lif - src.len());
        assert(forall|t: int|
            0 <= t < lif - src.len() ==> #[trigger] df.skip(src.len() as int)[t] == f[t
                + src.len()]);
    }
    // where the held directory sits relative to src
    if lif == src.len() {
        assert(df =~= src);
        assert(relabel(df, src, dest) =~= dest);
    } else {
        assert(in_dir_tree(df, src)) by {
            assert(df.take(src.len() as int) == src);
            assert(df[src.len() as int] == f[src.len() as int]);
        }
    }
    assert(in_dir_tree(r, dest)) by {
        assert(r.take(dest.len() as int) =~= dest);
        assert(r[dest.len() as int] == suf[0]);
    }
}

/// Relabeling keeps distinct paths below `src` distinct.
pub proof fn lemma_relabel_inj(f1: Seq<char>, f2: Seq<char>, src: Seq<char>, dest: Seq<char>)
    requires
        in_dir_tree(f1, src),
        in_dir_tree(f2, src),
        src.len() > 1,
        relabel(f1, src, dest) == relabel(f2, src, dest),
    ensures
        f1 == f2,
{
    assert(f1.skip(src.len() as int) =~= relabel(f1, src, dest).skip(dest.len() as int));
    assert(f2.skip(src.len() as int) =~= relabel(f2, src, dest).skip(dest.len() as int));
    assert(f1 =~= f1.take(src.len() as int) + f1.skip(src.len() as int));
    assert(f2 =~= f2.take(src.len() as int) + f2.skip(src.len() as int));
}

/// The path `p`, with its leading `src` characters replaced by `dest`.
fn relabel_str(p: &str, src: &str, dest: &str) -> (r: String)
    requires
        p@.len() >= src@.len(),
    ensures
        r@ == relabel(p@, src@, dest@),
{
    let sl = src.unicode_len();
    let pl = p.unicode_len();
    let suffix = p.substring_char(sl, pl);
    let mut out = String::new();
    out.append(dest);
    out.append(suffix);
    proof {
        assert(out@ =~= relabel(p@, src@, dest@));
    }
    out
}

/// The length of the longest stored directory path.
pub open spec fn max_len(ds: Seq<Seq<char>>) -> nat
    decreases ds.len(),
{
    if ds.len() == 0 {
        0
    } else {
        let rest = max_len(ds.drop_last());
        if ds.last().len() > rest {
            ds.last().len()
        } else {
            rest
        }
    }
}

pub proof fn lemma_max_len(ds: Seq<Seq<char>>)
    ensures
        forall|i: int| 0 <= i < ds.len() ==> (#[trigger] ds[i]).len() <= max_len(ds),
    decreases ds.len(),
{
    if ds.len() > 0 {
        lemma_max_len(ds.drop_last());
        assert forall|i: int| 0 <= i < ds.len() implies (#[trigger] ds[i]).len() <= max_len(
            ds,
        ) by {
            if i < ds.len() - 1 {
                assert(ds[i] == ds.drop_last()[i]);
            }
        }
    }
}

/// An in-memory filesystem: a flat store of files with contents and of
/// directories, both under normalized absolute paths, in creation order.
pub struct FsModel {
    files: Vec<(String, Vec<u8>)>,
    dirs: Vec<String>,
}

impl FsModel {
    /// The stored files, as path and content pairs in order.
    pub closed spec fn files_view(self) -> FileSeq {
        self.files@.map_values(|e: (String, Vec<u8>)| (e.0@, e.1@))
    }

    /// The stored directory paths, in order.
    pub closed spec fn dirs_view(self) -> Seq<Seq<char>> {
        self.dirs@.map_values(|d: String| d@)
    }

    pub open spec fn has_file(self, p: Seq<char>) -> bool {
        find_key(self.files_view(), p) >= 0
    }

    /// The content stored under a file path.
    pub open spec fn content(self, p: Seq<char>) -> Seq<u8> {
        self.files_view()[find_key(self.files_view(), p)].1
    }

    pub open spec fn has_dir(self, p: Seq<char>) -> bool {
        crate::find::first_idx(self.dirs_view(), p) >= 0
    }

    pub open spec fn has_path(self, p: Seq<char>) -> bool {
        self.has_file(p) || self.has_dir(p)
    }

    /// A stored file stands at `p` itself or at one of the directory
    /// prefixes leading to it, so no directory can be made there.
    pub open spec fn blocked(self, p: Seq<char>) -> bool {
        exists|j: int|
            1 <= j <= p.len() && (j == p.len() || p[j] == '/') && self.has_file(
                #[trigger] p.take(j),
            )
    }

    /// Well-formedness: the root directory exists; every stored path is
    /// normalized and absolute; paths are unique in each store; and the
    /// directory holding each entry is itself stored.
    pub open spec fn wf(self) -> bool {
        let fs = self.files_view();
        let ds = self.dirs_view();
        &&& ds.contains(seq!['/'])
        &&& (forall|i: int| 0 <= i < ds.len() ==> is_canon(#[trigger] ds[i]))
        &&& (forall|i: int, j: int|
            0 <= i < j < ds.len() ==> #[trigger] ds[i] != #[trigger] ds[j])
        &&& (forall|i: int|
            0 <= i < fs.len() ==> is_canon(#[trigger] fs[i].0) && fs[i].0.len() > 1)
        &&& (forall|i: int, j: int|
            0 <= i < j < fs.len() ==> (#[trigger] fs[i].0) != (#[trigger] fs[j].0))
        &&& (forall|i: int| 0 <= i < fs.len() ==> ds.contains(dir_of(#[trigger] fs[i].0)))
        &&& (forall|i: int|
            0 <= i < ds.len() ==> (#[trigger] ds[i]).len() > 1 ==> ds.contains(dir_of(ds[i])))
    }

    /// An empty filesystem holding only the root directory.
    pub fn new() -> (r: FsModel)
        ensures
            r.wf(),
            r.files_view().len() == 0,
            r.dirs_view() =~= seq![seq!['/']],
    {
        let mut dirs: Vec<String> = Vec::new();
        let root = String::from_str("/");
        proof {
            reveal_strlit("/");
            assert(root@ =~= seq!['/']);
        }
        dirs.push(root);
        let r = FsModel { files: Vec::new(), dirs };
        proof {
            assert(r.dirs_view() =~= seq![seq!['/']]);
            assert(r.files_view() =~= Seq::<(Seq<char>, Seq<u8>)>::empty());
            assert(r.dirs_view()[0] == seq!['/']);
            assert(r.dirs_view().contains(seq!['/']));
        }
        r
    }

    /// The position of a stored file path, if any.
    fn file_index(&self, path: &str) -> (r: Option<usize>)
        ensures
            match r {
                Some(k) => k == find_key(self.files_view(), path@),
                None => find_key(self.files_view(), path@) == -1,
            },
    {
        let n = self.files.len();
        let mut i: usize = 0;
        while i < n
            invariant
                i <= n,
                n == self.files@.len(),
                forall|j: int| 0 <= j < i ==> (#[trigger] self.files_view()[j]).0 != path@,
            decreases n - i,
        {
            if str_eq(self.files[i].0.as_str(), path) {
                proof {
                    lemma_find_key(self.files_view(), path@);
                    assert(self.files_view()[i as int].0 == path@);
                    if find_key(self.files_view(), path@) > i as int {
                        assert(self.files_view()[i as int].0 != path@);
                    }
                    if find_key(self.files_view(), path@) < i as int {
                        assert(self.files_view()[find_key(self.files_view(), path@)].0 == path@);
                    }
                }
                return Some(i);
            }
            i = i + 1;
        }
        proof {
            lemma_find_key(self.files_view(), path@);
            if find_key(self.files_view(), path@) >= 0 {
                assert(self.files_view()[find_key(self.files_view(), path@)].0 == path@);
            }
        }
        None
    }

    /// The position of a stored directory path, if any.
    fn dir_index(&self, path: &str) -> (r: Option<usize>)
        ensures
            match r {
                Some(k) => k == crate::find::first_idx(self.dirs_view(), path@),
                None => crate::find::first_idx(self.dirs_view(), path@) == -1,
            },
    {
        let n = self.dirs.len();
        let mut i: usize = 0;
        while i < n
            invariant
                i <= n,
                n == self.dirs@.len(),
                forall|j: int| 0 <= j < i ==> #[trigger] self.dirs_view()[j] != path@,
            decreases n - i,
        {
            if str_eq(self.dirs[i].as_str(), path) {
                proof {
                    crate::find::lemma_first_idx(self.dirs_view(), path@);
                    assert(self.dirs_view()[i as int] == path@);
                    if crate::find::first_idx(self.dirs_view(), path@) > i as int {
                        assert(self.dirs_view()[i as int] != path@);
                    }
                }
                return Some(i);
            }
            i = i + 1;
        }
        proof {
            crate::find::lemma_first_idx(self.dirs_view(), path@);
            if crate::find::first_idx(self.dirs_view(), path@) >= 0 {
                let k = crate::find::first_idx(self.dirs_view(), path@);
                assert(self.dirs_view()[k] == path@);
            }
        }
        None
    }

    /// Whether a file is stored under this path.
    pub fn is_file(&self, path: &str) -> (r: bool)
        ensures
            r == self.has_file(path@),
    {
        self.file_index(path).is_some()
    }

    /// Whether a directory is stored under this path.
    pub fn is_dir(&self, path: &str) -> (r: bool)
        ensures
            r == self.has_dir(path@),
    {
        self.dir_index(path).is_some()
    }

    /// Whether anything is stored under this path.
    pub fn is_exist(&self, path: &str) -> (r: bool)
        ensures
            r == self.has_path(path@),
    {
        self.is_file(path) || self.is_dir(path)
    }

    /// The content stored under a file path, copied out.
    pub fn read_file(&self, path: &str) -> (r: Option<Vec<u8>>)
        ensures
            match r {
                Some(v) => self.has_file(path@) && v@ == self.content(path@),
                None => !self.has_file(path@),
            },
    {
        match self.file_index(path) {
            Some(k) => {
                proof {
                    lemma_find_key(self.files_view(), path@);
                    assert(self.files_view().len() == self.files@.len());
                }
                Some(clone_bytes(&self.files[k].1))
            },
            None => None,
        }
    }

    /// Stores `content` under a file path, replacing what was there or
    /// appending a new entry.
    pub(crate) fn put_file(&mut self, path: &str, content: Vec<u8>)
        requires
            old(self).wf(),
            is_canon(path@),
            path@.len() > 1,
            old(self).dirs_view().contains(dir_of(path@)),
        ensures
            final(self).wf(),
            final(self).dirs_view() == old(self).dirs_view(),
            ({
                let k = find_key(old(self).files_view(), path@);
                if k >= 0 {
                    final(self).files_view() == old(self).files_view().update(
                        k,
                        (path@, content@),
                    )
                } else {
                    final(self).files_view() == old(self).files_view().push((path@, content@))
                }
            }),
    {
        proof {
            lemma_find_key(self.files_view(), path@);
            assert(self.files_view().len() == self.files@.len());
        }
        match self.file_index(path) {
            Some(k) => {
                let ghost pre = self.files_view();
                self.files[k] = (path.to_owned(), content);
                proof {
                    assert(self.files_view() =~= pre.update(
                        k as int,
                        (path@, content@),
                    ));
                    assert forall|i: int|
                        0 <= i < self.files_view().len() implies (
                    #[trigger] self.files_view()[i]).0 == pre[i].0 by {
                        assert(pre[k as int].0 == path@);
                    }
                    assert(final(self).wf());
                }
            },
            None => {
                let ghost pre = self.files_view();
                self.files.push((path.to_owned(), content));
                proof {
                    assert(self.files_view() =~= pre.push((path@, content@)));
                    assert forall|i: int|
                        0 <= i < pre.len() implies #[trigger] self.files_view()[i] == pre[i] by {}
                    assert(final(self).wf());
                }
            },
        }
    }

    /// Removes the file stored under a path; reports whether one was
    /// there.
    pub(crate) fn remove_file(&mut self, path: &str) -> (r: bool)
        requires
            old(self).wf(),
        ensures
            final(self).wf(),
            final(self).dirs_view() == old(self).dirs_view(),
            ({
                let k = find_key(old(self).files_view(), path@);
                if k >= 0 {
                    r && final(self).files_view() == old(self).files_view().remove(k)
                } else {
                    !r && final(self).files_view() == old(self).files_view()
                }
            }),
    {
        proof {
            lemma_find_key(self.files_view(), path@);
            assert(self.files_view().len() == self.files@.len());
        }
        match self.file_index(path) {
            Some(k) => {
                let ghost pre = self.files_view();
                self.files.remove(k);
                proof {
                    assert(self.files_view() =~= pre.remove(k as int));
                    assert forall|i: int|
                        0 <= i < self.files_view().len() implies #[trigger] self.files_view()[i]
                        == (if i < k as int {
                        pre[i]
                    } else {
                        pre[i + 1]
                    }) by {}
                    assert(final(self).wf());
                }
                true
            },
            None => false,
        }
    }

    /// Creates the directory at `path` and every directory leading to
    /// it, skipping those already present.  Fails when a file stands in
    /// the way; directories created before the failing step remain, as a
    /// partial recursive creation leaves them on a real filesystem.
    pub(crate) fn ensure_dirs(&mut self, path: &str) -> (r: Result<(), FsError>)
        requires
            old(self).wf(),
            is_canon(path@),
        ensures
            final(self).wf(),
            final(self).files_view() == old(self).files_view(),
            old(self).dirs_view().is_prefix_of(final(self).dirs_view()),
            forall|q: Seq<char>| old(self).has_dir(q) ==> final(self).has_dir(q),
            forall|q: Seq<char>|
                final(self).has_dir(q) ==> old(self).has_dir(q) || is_prefix_dir(q, path@),
            match r {
                Ok(()) => final(self).has_dir(path@),
                Err(e) => e == FsError::Other && old(self).blocked(path@),
            },
    {
        let n = path.unicode_len();
        proof {
            assert(self.files_view().len() == self.files@.len());
        }
        if n <= 1 {
            proof {
                assert(path@ =~= seq!['/']);
                crate::find::lemma_first_idx_contains(self.dirs_view(), seq!['/']);
            }
            return Ok(());
        }
        let mut j: usize = 2;
        let mut last_slash: usize = 0;
        while j < n
            invariant
                2 <= j <= n,
                n == path@.len(),
                n > 1,
                is_canon(path@),
                self.wf(),
                self.files_view() == old(self).files_view(),
                old(self).dirs_view().is_prefix_of(self.dirs_view()),
                forall|q: Seq<char>| old(self).has_dir(q) ==> self.has_dir(q),
                forall|q: Seq<char>|
                    self.has_dir(q) ==> old(self).has_dir(q) || is_prefix_dir(q, path@),
                last_slash == 0 || (2 <= last_slash && last_slash < j && last_slash < n),
                last_slash > 0 ==> path@[last_slash as int] == '/' && self.has_dir(
                    path@.take(last_slash as int),
                ),
                forall|t: int| last_slash < t < j ==> path@[t] != '/',
            decreases n - j,
        {
            if path.get_char(j) == '/' {
                let ghost mid = *self;
                let ok = self.ensure_prefix(path, j, last_slash);
                proof {
                    assert forall|x: Seq<char>|
                        self.has_dir(x) implies old(self).has_dir(x) || is_prefix_dir(
                        x,
                        path@,
                    ) by {
                        if !old(self).has_dir(x) && !mid.has_dir(x) {
                            assert(x == path@.take(j as int));
                            assert(1 <= j as int <= path@.len() && path@[j as int] == '/' && x
                                == path@.take(j as int));
                        }
                    }
                }
                if !ok {
                    proof {
                        assert(1 <= j as int <= path@.len() && path@[j as int] == '/' && old(
                            self,
                        ).has_file(path@.take(j as int)));
                    }
                    return Err(FsError::Other);
                }
                last_slash = j;
            }
            j = j + 1;
        }
        let ghost mid = *self;
        let ok = self.ensure_prefix(path, n, last_slash);
        proof {
            assert(path@.take(n as int) =~= path@);
            assert forall|x: Seq<char>|
                self.has_dir(x) implies old(self).has_dir(x) || is_prefix_dir(x, path@) by {
                if !old(self).has_dir(x) && !mid.has_dir(x) {
                    assert(x == path@.take(n as int));
                    assert(1 <= n as int <= path@.len() && n as int == path@.len() && x
                        == path@.take(n as int));
                }
            }
        }
        if !ok {
            proof {
                assert(1 <= n as int <= path@.len() && n as int == path@.len() && old(
                    self,
                ).has_file(path@.take(n as int)));
            }
            return Err(FsError::Other);
        }
        Ok(())
    }

    /// Makes the prefix of `path` that ends at `j` a directory, unless a
    /// file already stands there.
    fn ensure_prefix(&mut self, path: &str, j: usize, last_slash: usize) -> (r: bool)
        requires
            old(self).wf(),
            is_canon(path@),
            path@.len() > 1,
            2 <= j <= path@.len(),
            j == path@.len() || path@[j as int] == '/',
            last_slash == 0 || (2 <= last_slash && last_slash < j),
            last_slash > 0 ==> path@[last_slash as int] == '/' && old(self).has_dir(
                path@.take(last_slash as int),
            ),
            forall|t: int| last_slash < t < j ==> path@[t] != '/',
        ensures
            final(self).wf(),
            final(self).files_view() == old(self).files_view(),
            old(self).dirs_view().is_prefix_of(final(self).dirs_view()),
            forall|q: Seq<char>| old(self).has_dir(q) ==> final(self).has_dir(q),
            forall|q: Seq<char>|
                final(self).has_dir(q) ==> old(self).has_dir(q) || q == path@.take(j as int),
            r ==> final(self).has_dir(path@.take(j as int)),
            !r ==> old(self).has_file(path@.take(j as int)) && *final(self) == *old(self),
    {
        let at_end = j == path.unicode_len();
        let q = path.substring_char(0, j);
        proof {
            assert(q@ == path@.take(j as int));
            assert(is_canon(q@)) by {
                assert(q@[0] == path@[0]);
                if !at_end {
                    assert(!(path@[j - 1] == '/' && path@[j as int] == '/'));
                } else {
                    assert(path@.last() != '/');
                }
                assert(q@.last() == path@[j - 1]);
                assert(forall|t: int| 0 <= t < q@.len() ==> #[trigger] q@[t] == path@[t]);
            }
        }
        if self.is_file(q) {
            return false;
        }
        let dir_here = self.is_dir(q);
        if !dir_here {
            proof {
                crate::pathstr::lemma_last_index(q@, '/');
                let li = last_index(q@, '/');
                if last_slash > 0 {
                    assert(q@[last_slash as int] == '/');
                    if li > last_slash as int {
                        assert(q@[li] != '/');
                    }
                    assert(li == last_slash as int);
                    assert(dir_of(q@) =~= path@.take(last_slash as int));
                    crate::find::lemma_first_idx_contains(
                        self.dirs_view(),
                        path@.take(last_slash as int),
                    );
                } else {
                    if li > 0 {
                        assert(q@[li] != '/');
                    }
                    assert(li == 0);
                    assert(dir_of(q@) == seq!['/']);
                }
                crate::find::lemma_first_idx_contains(self.dirs_view(), q@);
            }
            let ghost pre_dirs = self.dirs_view();
            self.dirs.push(q.to_owned());
            proof {
                assert(self.dirs_view() =~= pre_dirs.push(q@));
                assert(self.dirs_view().last() == q@);
                assert(self.dirs_view().contains(q@));
                assert forall|i: int|
                    0 <= i < pre_dirs.len() implies #[trigger] self.dirs_view()[i]
                    == pre_dirs[i] by {}
                assert forall|x: Seq<char>| pre_dirs.contains(x) implies self
                    .dirs_view().contains(x) by {
                    let w = choose|w: int| 0 <= w < pre_dirs.len() && pre_dirs[w] == x;
                    assert(self.dirs_view()[w] == x);
                }
                assert(self.wf());
                assert forall|x: Seq<char>|
                    self.has_dir(x) implies old(self).has_dir(x) || x == q@ by {
                    crate::find::lemma_first_idx_contains(self.dirs_view(), x);
                    crate::find::lemma_first_idx_contains(pre_dirs, x);
                    if x != q@ {
                        let w = choose|w: int|
                            0 <= w < self.dirs_view().len() && self.dirs_view()[w] == x;
                        assert(w < pre_dirs.len());
                        assert(pre_dirs[w] == x);
                    }
                }
                assert forall|x: Seq<char>| old(self).has_dir(x) implies self.has_dir(x) by {
                    crate::find::lemma_first_idx_contains(self.dirs_view(), x);
                    crate::find::lemma_first_idx_contains(pre_dirs, x);
                }
                crate::find::lemma_first_idx_contains(self.dirs_view(), q@);
            }
        } else {
            proof {
                crate::find::lemma_first_idx_contains(self.dirs_view(), q@);
            }
        }
        true
    }

    /// The paths of the files sitting directly in the directory `d`, in
    /// store order.
    pub fn files_in(&self, d: &str) -> (r: Vec<String>)
        requires
            self.wf(),
        ensures
            r@.map_values(|s: String| s@) == file_paths_in(self.files_view(), d@),
    {
        let n = self.files.len();
        let mut out: Vec<String> = Vec::new();
        proof {
            assert(self.files_view().take(0) =~= Seq::<(Seq<char>, Seq<u8>)>::empty());
            assert(out@.map_values(|s: String| s@) =~= file_paths_in(
                self.files_view().take(0),
                d@,
            ));
        }
        let mut i: usize = 0;
        while i < n
            invariant
                i <= n,
                n == self.files@.len(),
                self.wf(),
                out@.map_values(|s: String| s@) == file_paths_in(
                    self.files_view().take(i as int),
                    d@,
                ),
            decreases n - i,
        {
            let ghost pre = out@;
            proof {
                assert(self.files_view()[i as int].0 == self.files@[i as int].0@);
                assert(is_canon(self.files_view()[i as int].0));
            }
            let parent = crate::pathstr::dir_of_str(self.files[i].0.as_str());
            if str_eq(parent.as_str(), d) {
                out.push(self.files[i].0.clone());
            }
            proof {
                let tk = self.files_view().take(i as int + 1);
                assert(tk.drop_last() =~= self.files_view().take(i as int));
                assert(tk.last() == self.files_view()[i as int]);
                if dir_of(self.files_view()[i as int].0) == d@ {
                    assert(out@.map_values(|s: String| s@) =~= pre.map_values(|s: String| s@)
                        + seq![self.files_view()[i as int].0]);
                } else {
                    assert(out@.map_values(|s: String| s@) =~= pre.map_values(
                        |s: String| s@,
                    ));
                }
            }
            i = i + 1;
        }
        proof {
            assert(self.files_view().take(n as int) =~= self.files_view());
        }
        out
    }

    /// The paths of the directories sitting directly in the directory
    /// `d`, in store order.
    pub fn dirs_in(&self, d: &str) -> (r: Vec<String>)
        requires
            self.wf(),
        ensures
            r@.map_values(|s: String| s@) == dir_paths_in(self.dirs_view(), d@),
    {
        let n = self.dirs.len();
        let mut out: Vec<String> = Vec::new();
        proof {
            assert(self.dirs_view().take(0) =~= Seq::<Seq<char>>::empty());
            assert(out@.map_values(|s: String| s@) =~= dir_paths_in(
                self.dirs_view().take(0),
                d@,
            ));
        }
        let mut i: usize = 0;
        while i < n
            invariant
                i <= n,
                n == self.dirs@.len(),
                self.wf(),
                out@.map_values(|s: String| s@) == dir_paths_in(
                    self.dirs_view().take(i as int),
                    d@,
                ),
            decreases n - i,
        {
            let ghost pre = out@;
            proof {
                assert(self.dirs_view()[i as int] == self.dirs@[i as int]@);
                assert(is_canon(self.dirs_view()[i as int]));
            }
            let entry = &self.dirs[i];
            if entry.as_str().unicode_len() > 1 {
                let parent = crate::pathstr::dir_of_str(entry.as_str());
                if str_eq(parent.as_str(), d) {
                    out.push(entry.clone());
                }
            }
            proof {
                let tk = self.dirs_view().take(i as int + 1);
                assert(tk.drop_last() =~= self.dirs_view().take(i as int));
                assert(tk.last() == self.dirs_view()[i as int]);
                if self.dirs_view()[i as int].len() > 1 && dir_of(self.dirs_view()[i as int])
                    == d@ {
                    assert(out@.map_values(|s: String| s@) =~= pre.map_values(|s: String| s@)
                        + seq![self.dirs_view()[i as int]]);
                } else {
                    assert(out@.map_values(|s: String| s@) =~= pre.map_values(
                        |s: String| s@,
                    ));
                }
            }
            i = i + 1;
        }
        proof {
            assert(self.dirs_view().take(n as int) =~= self.dirs_view());
        }
        out
    }

    /// The paths of all children of the directory `d`: first its files,
    /// then its directories, each group in store order.
    pub fn children_in(&self, d: &str) -> (r: Vec<String>)
        requires
            self.wf(),
        ensures
            r@.map_values(|s: String| s@) == file_paths_in(self.files_view(), d@)
                + dir_paths_in(self.dirs_view(), d@),
    {
        let mut out = self.files_in(d);
        let mut tail = self.dirs_in(d);
        let ghost a = out@;
        let ghost b = tail@;
        out.append(&mut tail);
        proof {
            assert(out@.map_values(|s: String| s@) =~= a.map_values(|s: String| s@)
                + b.map_values(|s: String| s@));
        }
        out
    }

    /// Removes the directory `d` and everything at or below it, files
    /// and directories alike.
    pub(crate) fn remove_tree(&mut self, d: &str)
        requires
            old(self).wf(),
            is_canon(d@),
            d@.len() > 1,
        ensures
            final(self).wf(),
            final(self).files_view() == files_not_under(old(self).files_view(), d@),
            final(self).dirs_view() == dirs_not_under(old(self).dirs_view(), d@),
    {
        let ghost fs0 = self.files_view();
        let ghost ds0 = self.dirs_view();
        let n = self.files.len();
        let mut keep_files: Vec<(String, Vec<u8>)> = Vec::new();
        proof {
            assert(fs0.take(0) =~= Seq::<(Seq<char>, Seq<u8>)>::empty());
            assert(keep_files@.map_values(|e: (String, Vec<u8>)| (e.0@, e.1@))
                =~= files_not_under(fs0.take(0), d@));
        }
        let mut i: usize = 0;
        while i < n
            invariant
                i <= n,
                n == self.files@.len(),
                fs0 == self.files_view(),
                keep_files@.map_values(|e: (String, Vec<u8>)| (e.0@, e.1@)) == files_not_under(
                    fs0.take(i as int),
                    d@,
                ),
            decreases n - i,
        {
            let ghost pre = keep_files@;
            proof {
                assert(fs0[i as int] == (self.files@[i as int].0@, self.files@[i as int].1@));
            }
            let drop_it = str_eq(self.files[i].0.as_str(), d) || crate::pathstr::is_under_str(
                self.files[i].0.as_str(),
                d,
            );
            if !drop_it {
                let s = self.files[i].0.clone();
                let v = clone_bytes(&self.files[i].1);
                keep_files.push((s, v));
            }
            proof {
                let tk = fs0.take(i as int + 1);
                assert(tk.drop_last() =~= fs0.take(i as int));
                assert(tk.last() == fs0[i as int]);
                if fs0[i as int].0 == d@ || in_dir_tree(fs0[i as int].0, d@) {
                    assert(keep_files@.map_values(|e: (String, Vec<u8>)| (e.0@, e.1@))
                        =~= pre.map_values(|e: (String, Vec<u8>)| (e.0@, e.1@)));
                } else {
                    assert(keep_files@.map_values(|e: (String, Vec<u8>)| (e.0@, e.1@))
                        =~= pre.map_values(|e: (String, Vec<u8>)| (e.0@, e.1@)).push(
                        fs0[i as int],
                    ));
                }
            }
            i = i + 1;
        }
        proof {
            assert(fs0.take(n as int) =~= fs0);
        }
        self.files = keep_files;
        let m = self.dirs.len();
        let mut keep_dirs: Vec<String> = Vec::new();
        proof {
            assert(ds0.take(0) =~= Seq::<Seq<char>>::empty());
            assert(keep_dirs@.map_values(|s: String| s@) =~= dirs_not_under(
                ds0.take(0),
                d@,
            ));
        }
        let mut j: usize = 0;
        while j < m
            invariant
                j <= m,
                m == self.dirs@.len(),
                ds0 == self.dirs_view(),
                keep_dirs@.map_values(|s: String| s@) == dirs_not_under(ds0.take(j as int), d@),
            decreases m - j,
        {
            let ghost pre = keep_dirs@;
            proof {
                assert(ds0[j as int] == self.dirs@[j as int]@);
            }
            let drop_it = str_eq(self.dirs[j].as_str(), d) || crate::pathstr::is_under_str(
                self.dirs[j].as_str(),
                d,
            );
            if !drop_it {
                keep_dirs.push(self.dirs[j].clone());
            }
            proof {
                let tk = ds0.take(j as int + 1);
                assert(tk.drop_last() =~= ds0.take(j as int));
                assert(tk.last() == ds0[j as int]);
                if ds0[j as int] == d@ || in_dir_tree(ds0[j as int], d@) {
                    assert(keep_dirs@.map_values(|s: String| s@) =~= pre.map_values(
                        |s: String| s@,
                    ));
                } else {
                    assert(keep_dirs@.map_values(|s: String| s@) =~= pre.map_values(
                        |s: String| s@,
                    ).push(ds0[j as int]));
                }
            }
            j = j + 1;
        }
        proof {
            assert(ds0.take(m as int) =~= ds0);
        }
        self.dirs = keep_dirs;
        proof {
            let resf = files_not_under(fs0, d@);
            let resd = dirs_not_under(ds0, d@);
            lemma_files_not_under_wf(fs0, d@);
            lemma_dirs_not_under_contains(ds0, d@);
            assert(resd.contains(seq!['/'])) by {
                assert(seq!['/'] != d@);
                assert(!in_dir_tree(seq!['/'], d@));
            }
            assert forall|i: int|
                0 <= i < resd.len() implies is_canon(#[trigger] resd[i]) by {
                assert(ds0.contains(resd[i]));
                let w = choose|w: int| 0 <= w < ds0.len() && ds0[w] == resd[i];
            }
            assert forall|i: int|
                0 <= i < resf.len() implies is_canon(#[trigger] resf[i].0) && resf[i].0.len()
                > 1 by {
                assert(fs0.contains(resf[i]));
                let w = choose|w: int| 0 <= w < fs0.len() && fs0[w] == resf[i];
            }
            assert forall|i: int|
                0 <= i < resf.len() implies resd.contains(dir_of(#[trigger] resf[i].0)) by {
                assert(fs0.contains(resf[i]));
                let w = choose|w: int| 0 <= w < fs0.len() && fs0[w] == resf[i];
                let x = resf[i].0;
                assert(ds0.contains(dir_of(x)));
                lemma_dir_of_in_tree(x);
                if dir_of(x) == d@ {
                    assert(in_dir_tree(x, d@));
                    assert(false);
                }
                if in_dir_tree(dir_of(x), d@) {
                    lemma_tree_trans(x, dir_of(x), d@);
                    assert(false);
                }
                assert(resd.contains(dir_of(x)));
            }
            assert forall|i: int|
                0 <= i < resd.len() implies ((#[trigger] resd[i]).len() > 1 ==> resd.contains(
                    dir_of(resd[i]),
                )) by {
                assert(ds0.contains(resd[i]));
                let w = choose|w: int| 0 <= w < ds0.len() && ds0[w] == resd[i];
                let x = resd[i];
                if x.len() > 1 {
                    assert(ds0.contains(dir_of(x)));
                    lemma_dir_of_in_tree(x);
                    assert(resd.contains(x));
                    if dir_of(x) == d@ {
                        assert(in_dir_tree(x, d@));
                        assert(false);
                    }
                    if in_dir_tree(dir_of(x), d@) {
                        lemma_tree_trans(x, dir_of(x), d@);
                        assert(false);
                    }
                    assert(resd.contains(dir_of(x)));
                }
            }
            assert(final(self).wf());
        }
    }

    /// Moves one file to a new path in the same store, replacing
    /// whatever file stood at the destination, as an on-disk rename
    /// does.
    pub(crate) fn move_entry(&mut self, from: &str, to: &str) -> (r: Result<(), FsError>)
        requires
            old(self).wf(),
            is_canon(to@),
            to@.len() > 1,
            old(self).dirs_view().contains(dir_of(to@)),
        ensures
            final(self).wf(),
            final(self).dirs_view() == old(self).dirs_view(),
            match r {
                Ok(()) => {
                    &&& old(self).has_file(from@)
                    &&& !old(self).has_dir(to@)
                    &&& (if from@ == to@ {
                        final(self).files_view() == old(self).files_view()
                    } else {
                        ({
                            let removed = old(self).files_view().remove(
                                find_key(old(self).files_view(), from@),
                            );
                            let k2 = find_key(removed, to@);
                            if k2 >= 0 {
                                final(self).files_view() == removed.update(
                                    k2,
                                    (to@, old(self).content(from@)),
                                )
                            } else {
                                final(self).files_view() == removed.push(
                                    (to@, old(self).content(from@)),
                                )
                            }
                        })
                    })
                },
                Err(e) => {
                    &&& final(self).files_view() == old(self).files_view()
                    &&& e == (if !old(self).has_file(from@) {
                        FsError::NotFound
                    } else {
                        FsError::Other
                    })
                    &&& (e == FsError::Other ==> old(self).has_dir(to@))
                },
            },
    {
        let content = match self.read_file(from) {
            Some(v) => v,
            None => {
                return Err(FsError::NotFound);
            },
        };
        if self.is_dir(to) {
            return Err(FsError::Other);
        }
        if str_eq(from, to) {
            return Ok(());
        }
        proof {
            lemma_find_key(self.files_view(), from@);
        }
        let removed_it = self.remove_file(from);
        proof {
            assert(removed_it);
            lemma_find_key(self.files_view(), to@);
            crate::find::lemma_first_idx_contains(self.dirs_view(), to@);
        }
        self.put_file(to, content);
        Ok(())
    }

    /// Mirrors the tree below `src` under `dest`: first the
    /// directories, then every file, each refused individually when a
    /// destination file already stands in its place.  The walk is not
    /// atomic: on failure the directories and files already mirrored
    /// remain.
    pub(crate) fn copy_tree(&mut self, src: &str, dest: &str) -> (r: Result<(), FsError>)
        requires
            old(self).wf(),
            is_canon(src@),
            src@.len() > 1,
            is_canon(dest@),
            dest@.len() > 1,
        ensures
            final(self).wf(),
            old(self).files_view().is_prefix_of(final(self).files_view()),
            forall|q: Seq<char>| old(self).has_dir(q) ==> final(self).has_dir(q),
            match r {
                Ok(()) => {
                    &&& (forall|q: Seq<char>|
                        old(self).has_dir(q) && (q == src@ || in_dir_tree(q, src@))
                            ==> final(self).has_dir(#[trigger] relabel(q, src@, dest@)))
                    &&& final(self).files_view() == old(self).files_view()
                        + relabeled_files_under(old(self).files_view(), src@, dest@)
                },
                Err(e) => {
                    &&& (e == FsError::AlreadyExists || e == FsError::Other)
                    &&& (exists|k: int|
                        0 <= k <= relabeled_files_under(
                            old(self).files_view(),
                            src@,
                            dest@,
                        ).len() && final(self).files_view() == old(self).files_view()
                            + #[trigger] relabeled_files_under(
                            old(self).files_view(),
                            src@,
                            dest@,
                        ).take(k))
                    &&& (e == FsError::AlreadyExists ==> (exists|p: Seq<char>|
                        #[trigger] in_dir_tree(p, src@) && old(self).has_file(p)
                            && final(self).has_path(relabel(p, src@, dest@))))
                    &&& (e == FsError::Other ==> (exists|q: Seq<char>|
                        #[trigger] old(self).has_dir(q) && (q == src@ || in_dir_tree(q, src@))
                            && old(self).blocked(relabel(q, src@, dest@))))
                },
            },
    {
        let ghost fs0 = self.files_view();
        let ghost ds0 = self.dirs_view();
        let m0 = self.dirs.len();
        let mut i: usize = 0;
        while i < m0
            invariant
                i <= m0,
                m0 == ds0.len(),
                is_canon(src@) && src@.len() > 1,
                is_canon(dest@) && dest@.len() > 1,
                self.wf(),
                self.files_view() == fs0,
                ds0.is_prefix_of(self.dirs_view()),
                forall|q: Seq<char>| old(self).has_dir(q) ==> self.has_dir(q),
                ds0 == old(self).dirs_view(),
                fs0 == old(self).files_view(),
                forall|j: int|
                    0 <= j < i && ((#[trigger] ds0[j]) == src@ || in_dir_tree(ds0[j], src@))
                        ==> self.has_dir(relabel(ds0[j], src@, dest@)),
            decreases m0 - i,
        {
            proof {
                assert(self.dirs_view()[i as int] == ds0[i as int]);
                assert(is_canon(ds0[i as int]));
            }
            let qs = self.dirs[i].clone();
            let hit_src = str_eq(qs.as_str(), src);
            let hit_under = crate::pathstr::is_under_str(qs.as_str(), src);
            if hit_src || hit_under {
                proof {
                    if hit_under {
                        lemma_relabel(qs@, src@, dest@);
                    } else {
                        assert(qs@.skip(src@.len() as int) =~= Seq::<char>::empty());
                        assert(relabel(qs@, src@, dest@) =~= dest@);
                    }
                }
                let t = relabel_str(qs.as_str(), src, dest);
                let ghost mid = *self;
                match self.ensure_dirs(t.as_str()) {
                    Ok(()) => {
                        proof {
                            assert forall|j: int|
                                0 <= j < i + 1 && ((#[trigger] ds0[j]) == src@ || in_dir_tree(
                                    ds0[j],
                                    src@,
                                )) implies self.has_dir(relabel(ds0[j], src@, dest@)) by {}
                        }
                    },
                    Err(_) => {
                        proof {
                            assert(relabeled_files_under(fs0, src@, dest@).take(0)
                                =~= Seq::<(Seq<char>, Seq<u8>)>::empty());
                            assert(self.files_view() =~= fs0 + relabeled_files_under(
                                fs0,
                                src@,
                                dest@,
                            ).take(0));
                            assert(fs0.is_prefix_of(self.files_view()));
                            // the blocking file stands in the untouched store
                            crate::find::lemma_first_idx_contains(ds0, qs@);
                            assert(ds0[i as int] == qs@);
                            assert(ds0.contains(qs@));
                            assert(old(self).has_dir(qs@));
                            assert(mid.blocked(relabel(qs@, src@, dest@)));
                            assert(old(self).blocked(relabel(qs@, src@, dest@)));
                        }
                        return Err(FsError::Other);
                    },
                }
            }
            i = i + 1;
        }
        let ghost ds1 = self.dirs_view();
        let n0 = self.files.len();
        let mut k: usize = 0;
        while k < n0
            invariant
                k <= n0,
                n0 == fs0.len(),
                is_canon(src@) && src@.len() > 1,
                is_canon(dest@) && dest@.len() > 1,
                self.wf(),
                self.dirs_view() == ds1,
                self.files_view() == fs0 + relabeled_files_under(
                    fs0.take(k as int),
                    src@,
                    dest@,
                ),
                ds0 == old(self).dirs_view(),
                fs0 == old(self).files_view(),
                old(self).wf(),
                forall|q: Seq<char>| old(self).has_dir(q) ==> self.has_dir(q),
                ds0.is_prefix_of(self.dirs_view()),
                forall|j: int|
                    0 <= j < ds0.len() && ((#[trigger] ds0[j]) == src@ || in_dir_tree(
                        ds0[j],
                        src@,
                    )) ==> self.has_dir(relabel(ds0[j], src@, dest@)),
            decreases n0 - k,
        {
            let ghost relk = relabeled_files_under(fs0.take(k as int), src@, dest@);
            proof {
                assert(self.files_view().len() == fs0.len() + relk.len());
                assert(self.files_view()[k as int] == fs0[k as int]);
                assert(fs0[k as int] == (self.files@[k as int].0@, self.files@[k as int].1@));
                assert(is_canon(fs0[k as int].0));
                let tk = fs0.take(k as int + 1);
                assert(tk.drop_last() =~= fs0.take(k as int));
                assert(tk.last() == fs0[k as int]);
            }
            let p = self.files[k].0.clone();
            let c = clone_bytes(&self.files[k].1);
            if crate::pathstr::is_under_str(p.as_str(), src) {
                proof {
                    lemma_relabel(p@, src@, dest@);
                }
                let t = relabel_str(p.as_str(), src, dest);
                if self.is_file(t.as_str()) || self.is_dir(t.as_str()) {
                    proof {
                        lemma_relabeled_prefix(fs0, src@, dest@, k as int);
                        // the colliding entry stands in the store as returned
                        lemma_find_key(fs0, p@);
                        if find_key(fs0, p@) == -1 {
                            assert(fs0[k as int].0 != p@);
                        }
                        assert(old(self).has_file(p@));
                        assert(self.has_path(relabel(p@, src@, dest@)));
                    }
                    return Err(FsError::AlreadyExists);
                }
                proof {
                    // the mirrored directory that holds the relabeled file
                    let df = dir_of(p@);
                    assert(self.dirs_view().contains(dir_of(fs0[k as int].0)));
                    crate::find::lemma_first_idx_contains(self.dirs_view(), df);
                    assert(old(self).has_dir(df) || !ds0.contains(df)) by {
                        crate::find::lemma_first_idx_contains(ds0, df);
                        if self.dirs_view().contains(df) && !ds0.contains(df) {
                        }
                    }
                    assert(ds0.contains(df)) by {
                        // the holding directory of a stored file is stored
                        crate::find::lemma_first_idx_contains(ds0, df);
                        if !ds0.contains(df) {
                            assert(old(self).dirs_view().contains(dir_of(fs0[k as int].0)));
                        }
                    }
                    let w = choose|w: int| 0 <= w < ds0.len() && ds0[w] == df;
                    assert(self.has_dir(relabel(df, src@, dest@)));
                    assert(dir_of(t@) == relabel(df, src@, dest@));
                    crate::find::lemma_first_idx_contains(
                        self.dirs_view(),
                        dir_of(t@),
                    );
                    lemma_find_key(self.files_view(), t@);
                }
                let ghost pre_files = self.files_view();
                self.put_file(t.as_str(), c);
                proof {
                    assert(find_key(pre_files, t@) == -1) by {
                        lemma_find_key(pre_files, t@);
                    }
                    assert(self.files_view() == pre_files.push((t@, c@)));
                    assert(self.files_view() =~= fs0 + relabeled_files_under(
                        fs0.take(k as int + 1),
                        src@,
                        dest@,
                    ));
                }
            } else {
                proof {
                    assert(relabeled_files_under(fs0.take(k as int + 1), src@, dest@)
                        =~= relabeled_files_under(fs0.take(k as int), src@, dest@));
                }
            }
            k = k + 1;
        }
        proof {
            assert(fs0.take(n0 as int) =~= fs0);
            assert forall|q: Seq<char>|
                old(self).has_dir(q) && (q == src@ || in_dir_tree(q, src@)) implies self.has_dir(
                #[trigger] relabel(q, src@, dest@),
            ) by {
                crate::find::lemma_first_idx_contains(ds0, q);
                let w = choose|w: int| 0 <= w < ds0.len() && ds0[w] == q;
            }
            assert(fs0.is_prefix_of(self.files_view()));
        }
        Ok(())
    }

    /// The total size of every file lying below the directory `d`,
    /// saturating at the largest representable value.
    pub fn total_size_under(&self, d: &str) -> (r: u64)
        ensures
            size_under(self.files_view(), d@) <= u64::MAX ==> r == size_under(
                self.files_view(),
                d@,
            ),
            size_under(self.files_view(), d@) > u64::MAX ==> r == u64::MAX,
    {
        let n = self.files.len();
        let mut total: u64 = 0;
        proof {
            assert(self.files_view().take(0) =~= Seq::<(Seq<char>, Seq<u8>)>::empty());
        }
        let mut i: usize = 0;
        while i < n
            invariant
                i <= n,
                n == self.files@.len(),
                ({
                    let s = size_under(self.files_view().take(i as int), d@);
                    (s <= u64::MAX ==> total == s) && (s > u64::MAX ==> total == u64::MAX)
                }),
            decreases n - i,
        {
            let ghost tk = self.files_view().take(i as int + 1);
            proof {
                assert(tk.drop_last() =~= self.files_view().take(i as int));
                assert(tk.last() == self.files_view()[i as int]);
            }
            if crate::pathstr::is_under_str(self.files[i].0.as_str(), d) {
                let len_here = self.files[i].1.len();
                proof {
                    assert(self.files_view()[i as int].1 == self.files@[i as int].1@);
                }
                if len_here as u64 > u64::MAX - total {
                    total = u64::MAX;
                } else {
                    total = total + (len_here as u64);
                }
            }
            i = i + 1;
        }
        proof {
            assert(self.files_view().take(n as int) =~= self.files_view());
        }
        total
    }

    /// The length of the content stored under a file path, or zero.
    pub fn file_size(&self, path: &str) -> (r: usize)
        ensures
            self.has_file(path@) ==> r == self.content(path@).len(),
            !self.has_file(path@) ==> r == 0,
    {
        match self.file_index(path) {
            Some(k) => {
                proof {
                    lemma_find_key(self.files_view(), path@);
                    assert(self.files_view().len() == self.files@.len());
                }
                self.files[k].1.len()
            },
            None => 0,
        }
    }
}

} // verus!
