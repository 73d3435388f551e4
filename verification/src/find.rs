use vstd::prelude::*;

verus! {

/// The smallest index at which `x` occurs in `s`, or `-1`.
pub open spec fn first_idx<T>(s: Seq<T>, x: T) -> int
    decreases s.len(),
{
    if s.len() == 0 {
        -1
    } else if s[0] == x {
        0
    } else {
        let r = first_idx(s.drop_first(), x);
        if r == -1 {
            -1
        } else {
            r + 1
        }
    }
}

pub proof fn lemma_first_idx<T>(s: Seq<T>, x: T)
    ensures
        -1 <= first_idx(s, x) < s.len(),
        first_idx(s, x) >= 0 ==> s[first_idx(s, x)] == x,
        forall|j: int| 0 <= j < first_idx(s, x) ==> s[j] != x,
        first_idx(s, x) == -1 ==> forall|j: int| 0 <= j < s.len() ==> s[j] != x,
    decreases s.len(),
{
    if s.len() > 0 && s[0] != x {
        lemma_first_idx(s.drop_first(), x);
        assert forall|j: int| 0 <= j < first_idx(s, x) implies s[j] != x by {
            if j > 0 {
                assert(s[j] == s.drop_first()[j - 1]);
            }
        }
        if first_idx(s, x) == -1 {
            assert forall|j: int| 0 <= j < s.len() implies s[j] != x by {
                if j > 0 {
                    assert(s[j] == s.drop_first()[j - 1]);
                }
            }
        }
    }
}

/// An element occurs somewhere exactly when its first position exists.
pub proof fn lemma_first_idx_contains<T>(s: Seq<T>, x: T)
    ensures
        (first_idx(s, x) >= 0) <==> s.contains(x),
{
    lemma_first_idx(s, x);
    if first_idx(s, x) >= 0 {
        assert(s[first_idx(s, x)] == x);
    }
    if s.contains(x) {
        let w = choose|w: int| 0 <= w < s.len() && s[w] == x;
        if first_idx(s, x) == -1 {
            assert(s[w] != x);
        }
    }
}

/// The largest index at which `x` occurs in `s`, or `-1`.
pub open spec fn last_idx<T>(s: Seq<T>, x: T) -> int
    decreases s.len(),
{
    if s.len() == 0 {
        -1
    } else if s.last() == x {
        s.len() - 1
    } else {
        last_idx(s.drop_last(), x)
    }
}

pub proof fn lemma_last_idx<T>(s: Seq<T>, x: T)
    ensures
        -1 <= last_idx(s, x) < s.len(),
        last_idx(s, x) >= 0 ==> s[last_idx(s, x)] == x,
        forall|j: int| last_idx(s, x) < j < s.len() ==> s[j] != x,
    decreases s.len(),
{
    if s.len() > 0 && s.last() != x {
        lemma_last_idx(s.drop_last(), x);
        assert forall|j: int| last_idx(s, x) < j < s.len() implies s[j] != x by {
            if j < s.len() - 1 {
                assert(s[j] == s.drop_last()[j]);
            }
        }
    }
}

/// How many elements of `s` equal `x`.
pub open spec fn count_eq<T>(s: Seq<T>, x: T) -> nat
    decreases s.len(),
{
    if s.len() == 0 {
        0
    } else {
        count_eq(s.drop_last(), x) + (if s.last() == x {
            1nat
        } else {
            0nat
        })
    }
}

/// Every index at which `x` occurs in `s`, in increasing order.
pub open spec fn indices_of<T>(s: Seq<T>, x: T) -> Seq<int>
    decreases s.len(),
{
    if s.len() == 0 {
        Seq::empty()
    } else {
        indices_of(s.drop_last(), x) + (if s.last() == x {
            seq![s.len() - 1]
        } else {
            Seq::empty()
        })
    }
}

/// The smallest index at which the block `needle` occurs in `s`, or `-1`.
pub open spec fn first_match<T>(s: Seq<T>, needle: Seq<T>) -> int
    decreases s.len(),
{
    if s.len() < needle.len() {
        -1
    } else if s.take(needle.len() as int) == needle {
        0
    } else if s.len() == 0 {
        -1
    } else {
        let r = first_match(s.drop_first(), needle);
        if r == -1 {
            -1
        } else {
            r + 1
        }
    }
}

pub proof fn lemma_first_match<T>(s: Seq<T>, needle: Seq<T>)
    requires
        needle.len() > 0,
    ensures
        -1 <= first_match(s, needle) <= s.len() - needle.len() || first_match(s, needle) == -1,
        first_match(s, needle) >= 0 ==> s.subrange(
            first_match(s, needle),
            first_match(s, needle) + needle.len(),
        ) == needle && first_match(s, needle) + needle.len() <= s.len(),
        forall|j: int|
            0 <= j < first_match(s, needle) ==> #[trigger] s.subrange(j, j + needle.len())
                != needle,
        first_match(s, needle) == -1 ==> forall|j: int|
            0 <= j <= s.len() - needle.len() ==> #[trigger] s.subrange(j, j + needle.len())
                != needle,
    decreases s.len(),
{
    if s.len() >= needle.len() && s.take(needle.len() as int) != needle {
        lemma_first_match(s.drop_first(), needle);
        assert(s.subrange(0, needle.len() as int) == s.take(needle.len() as int));
        assert forall|j: int|
            1 <= j <= s.len() - needle.len() implies #[trigger] s.subrange(j, j + needle.len())
            == s.drop_first().subrange(j - 1, j - 1 + needle.len()) by {
            assert(s.subrange(j, j + needle.len()) =~= s.drop_first().subrange(
                j - 1,
                j - 1 + needle.len(),
            ));
        }
    }
}

/// Position search over a block of elements.
pub trait Find<T> {
    spec fn elems(&self) -> Seq<T>;

    /// The first position holding `x`.
    fn find(&self, x: &T) -> (r: Option<usize>)
        ensures
            match r {
                Some(k) => k == first_idx(self.elems(), *x),
                None => first_idx(self.elems(), *x) == -1,
            },
    ;

    /// Every position holding `x`, in increasing order, or nothing at all.
    fn find_all(&self, x: &T) -> (r: Option<Vec<usize>>)
        ensures
            match r {
                Some(v) => v@.len() > 0 && v@.map_values(|u: usize| u as int) == indices_of(
                    self.elems(),
                    *x,
                ),
                None => indices_of(self.elems(), *x).len() == 0,
            },
    ;

    /// The last position holding `x`.
    fn find_last(&self, x: &T) -> (r: Option<usize>)
        ensures
            match r {
                Some(k) => k == last_idx(self.elems(), *x),
                None => last_idx(self.elems(), *x) == -1,
            },
    ;

    /// The first and last position of the first occurrence of the block
    /// `x`, both inclusive.
    fn finds(&self, x: &[T]) -> (r: Option<(usize, usize)>)
        requires
            x@.len() > 0,
        ensures
            match r {
                Some(p) => p.0 == first_match(self.elems(), x@) && p.1 == p.0 + x@.len() - 1,
                None => first_match(self.elems(), x@) == -1,
            },
    ;

    /// How many positions hold `x`.
    fn find_all_size(&self, x: &T) -> (r: usize)
        ensures
            r == count_eq(self.elems(), *x),
    ;

    /// Whether the last element equals `x`.
    fn last_eq(&self, x: &T) -> (r: bool)
        ensures
            r == (self.elems().len() > 0 && self.elems().last() == *x),
    ;
}

impl Find<u8> for [u8] {
    open spec fn elems(&self) -> Seq<u8> {
        self@
    }

    fn find(&self, x: &u8) -> (r: Option<usize>) {
        let mut i: usize = 0;
        let n = self.len();
        while i < n
            invariant
                i <= n,
                n == self@.len(),
                forall|j: int| 0 <= j < i ==> self@[j] != *x,
            decreases n - i,
        {
            if self[i] == *x {
                proof {
                    lemma_first_idx(self@, *x);
                    if first_idx(self@, *x) > i as int {
                        assert(self@[i as int] != *x);
                    }
                }
                return Some(i);
            }
            i = i + 1;
        }
        proof {
            lemma_first_idx(self@, *x);
            if first_idx(self@, *x) >= 0 {
                assert(self@[first_idx(self@, *x)] == *x);
            }
        }
        None
    }

    fn find_all(&self, x: &u8) -> (r: Option<Vec<usize>>) {
        let mut v: Vec<usize> = Vec::new();
        let mut i: usize = 0;
        let n = self.len();
        proof {
            assert(self@.take(0) =~= Seq::<u8>::empty());
        }
        while i < n
            invariant
                i <= n,
                n == self@.len(),
                v@.map_values(|u: usize| u as int) == indices_of(self@.take(i as int), *x),
            decreases n - i,
        {
            let ghost pre = v@;
            if self[i] == *x {
                v.push(i);
            }
            proof {
                assert(self@.take(i as int + 1).drop_last() =~= self@.take(i as int));
                assert(self@.take(i as int + 1).last() == self@[i as int]);
                if self@[i as int] == *x {
                    assert(v@.map_values(|u: usize| u as int) =~= pre.map_values(
                        |u: usize| u as int,
                    ) + seq![i as int]);
                } else {
                    assert(indices_of(self@.take(i as int + 1), *x) =~= indices_of(
                        self@.take(i as int),
                        *x,
                    ));
                }
            }
            i = i + 1;
        }
        proof {
            assert(self@.take(n as int) =~= self@);
        }
        if v.len() == 0 {
            None
        } else {
            Some(v)
        }
    }

    fn find_last(&self, x: &u8) -> (r: Option<usize>) {
        let n = self.len();
        let mut i: usize = n;
        while i > 0
            invariant
                i <= n,
                n == self@.len(),
                forall|j: int| i <= j < self@.len() ==> self@[j] != *x,
            decreases i,
        {
            i = i - 1;
            if self[i] == *x {
                proof {
                    lemma_last_idx(self@, *x);
                    if last_idx(self@, *x) > i as int {
                        assert(self@[last_idx(self@, *x)] != *x);
                    }
                    if last_idx(self@, *x) < i as int {
                        assert(self@[i as int] != *x);
                    }
                }
                return Some(i);
            }
        }
        proof {
            lemma_last_idx(self@, *x);
            if last_idx(self@, *x) >= 0 {
                assert(self@[last_idx(self@, *x)] == *x);
            }
        }
        None
    }

    fn finds(&self, x: &[u8]) -> (r: Option<(usize, usize)>) {
        let n = self.len();
        let m = x.len();
        if n < m {
            proof {
                lemma_first_match(self@, x@);
            }
            return None;
        }
        let mut i: usize = 0;
        while i <= n - m
            invariant
                m >= 1,
                m <= n,
                i <= n - m + 1,
                n == self@.len(),
                m == x@.len(),
                forall|j: int|
                    0 <= j < i ==> #[trigger] self@.subrange(j, j + x@.len()) != x@,
            decreases n - i,
        {
            if bytes_match_at(self, i, x) {
                proof {
                    lemma_first_match(self@, x@);
                    let fm = first_match(self@, x@);
                    assert(self@.subrange(i as int, i + x@.len()) == x@);
                    if fm > i as int {
                        assert(self@.subrange(i as int, i + x@.len()) != x@);
                    }
                    if fm < i as int || fm == -1 {
                        assert(self@.subrange(fm, fm + x@.len()) == x@);
                    }
                }
                return Some((i, i + m - 1));
            }
            i = i + 1;
        }
        proof {
            lemma_first_match(self@, x@);
            if first_match(self@, x@) >= 0 {
                let fm = first_match(self@, x@);
                assert(self@.subrange(fm, fm + x@.len()) == x@);
            }
        }
        None
    }

    fn find_all_size(&self, x: &u8) -> (r: usize) {
        let mut count: usize = 0;
        let mut i: usize = 0;
        let n = self.len();
        proof {
            assert(self@.take(0) =~= Seq::<u8>::empty());
        }
        while i < n
            invariant
                i <= n,
                n == self@.len(),
                count == count_eq(self@.take(i as int), *x),
                count <= i,
            decreases n - i,
        {
            proof {
                assert(self@.take(i as int + 1).drop_last() =~= self@.take(i as int));
                assert(self@.take(i as int + 1).last() == self@[i as int]);
            }
            if self[i] == *x {
                count = count + 1;
            }
            i = i + 1;
        }
        proof {
            assert(self@.take(n as int) =~= self@);
        }
        count
    }

    fn last_eq(&self, x: &u8) -> (r: bool) {
        let n = self.len();
        n > 0 && self[n - 1] == *x
    }
}

impl Find<u8> for Vec<u8> {
    open spec fn elems(&self) -> Seq<u8> {
        self@
    }

    fn find(&self, x: &u8) -> (r: Option<usize>) {
        <[u8] as Find<u8>>::find(self.as_slice(), x)
    }

    fn find_all(&self, x: &u8) -> (r: Option<Vec<usize>>) {
        <[u8] as Find<u8>>::find_all(self.as_slice(), x)
    }

    fn find_last(&self, x: &u8) -> (r: Option<usize>) {
        <[u8] as Find<u8>>::find_last(self.as_slice(), x)
    }

    fn finds(&self, x: &[u8]) -> (r: Option<(usize, usize)>) {
        <[u8] as Find<u8>>::finds(self.as_slice(), x)
    }

    fn find_all_size(&self, x: &u8) -> (r: usize) {
        <[u8] as Find<u8>>::find_all_size(self.as_slice(), x)
    }

    fn last_eq(&self, x: &u8) -> (r: bool) {
        <[u8] as Find<u8>>::last_eq(self.as_slice(), x)
    }
}

/// Whether the block `pat` stands in `s` at position `i`.
fn bytes_match_at(s: &[u8], i: usize, pat: &[u8]) -> (r: bool)
    requires
        i + pat@.len() <= s@.len(),
    ensures
        r == (s@.subrange(i as int, i + pat@.len()) =~= pat@),
{
    let n = s.len();
    let mut j: usize = 0;
    while j < pat.len()
        invariant
            j <= pat@.len(),
            i + pat@.len() <= s@.len(),
            n == s@.len(),
            forall|m: int| 0 <= m < j ==> s@[i + m] == pat@[m],
        decreases pat@.len() - j,
    {
        if s[i + j] != pat[j] {
            proof {
                assert(s@.subrange(i as int, i + pat@.len())[j as int] != pat@[j as int]);
            }
            return false;
        }
        j = j + 1;
    }
    proof {
        assert(s@.subrange(i as int, i + pat@.len()) =~= pat@);
    }
    true
}

} // verus!
