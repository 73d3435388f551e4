use vstd::prelude::*;
use vstd::string::StrSliceExecFns;

use crate::symbols::{is_lower_code, is_upper_code, lower_code, CharCompare};
use crate::text::chars_of;

verus! {

/// One comparison step of the greedy match: case-blind for letters on
/// the left, exact otherwise.
pub open spec fn match_step_eq(a: char, b: char) -> bool {
    if is_upper_code(a as int) || is_lower_code(a as int) {
        lower_code(a as int) == lower_code(b as int)
    } else {
        a == b
    }
}

/// The positions in `b` hit by greedily matching the characters of `a`
/// against `b`, case-blind, both scanned left to right.
pub open spec fn match_positions(a: Seq<char>, b: Seq<char>, i: int, j: int) -> Seq<int>
    decreases a.len() - i,
{
    if i >= a.len() || i < 0 || j >= b.len() || j < 0 {
        Seq::empty()
    } else if match_step_eq(a[i], b[j]) {
        seq![j] + match_positions(a, b, i + 1, j + 1)
    } else {
        match_positions(a, b, i + 1, j)
    }
}

/// A greedy, case-blind subsequence match of one string against
/// another.
pub trait Str {
    spec fn str_chars(&self) -> Seq<char>;

    /// The positions of `other` hit by greedily matching this string
    /// against it, or nothing when no character matched.
    fn match_with(&self, other: &Self) -> (r: Option<Vec<usize>>)
        ensures
            match r {
                Some(v) => v@.len() > 0 && v@.map_values(|u: usize| u as int) == match_positions(
                    self.str_chars(),
                    other.str_chars(),
                    0,
                    0,
                ),
                None => match_positions(self.str_chars(), other.str_chars(), 0, 0).len() == 0,
            },
    ;
}

impl Str for String {
    open spec fn str_chars(&self) -> Seq<char> {
        self@
    }

    fn match_with(&self, other: &String) -> (r: Option<Vec<usize>>) {
        let my_chars = chars_of(self.as_str());
        let other_chars = chars_of(other.as_str());
        let mut pos: Vec<usize> = Vec::new();
        let mut my_index: usize = 0;
        let mut other_index: usize = 0;
        let n = my_chars.len();
        let m = other_chars.len();
        proof {
            assert(pos@.map_values(|u: usize| u as int) =~= Seq::<int>::empty());
        }
        while my_index < n && other_index < m
            invariant
                my_index <= n,
                other_index <= m,
                n == self@.len(),
                m == other@.len(),
                my_chars@ == self@,
                other_chars@ == other@,
                match_positions(self@, other@, 0, 0) == pos@.map_values(|u: usize| u as int)
                    + match_positions(self@, other@, my_index as int, other_index as int),
            decreases n - my_index,
        {
            let ghost pre = pos@;
            let a = my_chars[my_index];
            let b = other_chars[other_index];
            if a.eq_ingore_case(&b) {
                pos.push(other_index);
                my_index = my_index + 1;
                other_index = other_index + 1;
                proof {
                    assert(pre.map_values(|u: usize| u as int) + (seq![other_index - 1]
                        + match_positions(self@, other@, my_index as int, other_index as int))
                        =~= pos@.map_values(|u: usize| u as int) + match_positions(
                        self@,
                        other@,
                        my_index as int,
                        other_index as int,
                    ));
                }
            } else {
                my_index = my_index + 1;
            }
        }
        proof {
            assert(match_positions(self@, other@, my_index as int, other_index as int)
                =~= Seq::<int>::empty());
            assert(pos@.map_values(|u: usize| u as int) + Seq::<int>::empty() =~= pos@.map_values(
                |u: usize| u as int,
            ));
        }
        if pos.len() == 0 {
            None
        } else {
            Some(pos)
        }
    }
}

} // verus!
