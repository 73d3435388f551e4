use vstd::prelude::*;

verus! {

/// An ASCII uppercase letter code.
pub open spec fn is_upper_code(c: int) -> bool {
    65 <= c <= 90
}

/// An ASCII lowercase letter code.
pub open spec fn is_lower_code(c: int) -> bool {
    97 <= c <= 122
}

/// An ASCII digit code.
pub open spec fn is_digit_code(c: int) -> bool {
    48 <= c <= 57
}

/// A code with an ASCII lowercase letter folded to its uppercase form.
pub open spec fn upper_code(c: int) -> int {
    if is_lower_code(c) {
        c - 32
    } else {
        c
    }
}

/// A code with an ASCII uppercase letter folded to its lowercase form.
pub open spec fn lower_code(c: int) -> int {
    if is_upper_code(c) {
        c + 32
    } else {
        c
    }
}

/// ASCII classification and case folding of a character-like value.
pub trait Symbols {
    /// The code this value stands for.
    spec fn code(&self) -> int;

    /// Whether the value is an ASCII letter.
    fn is_letter(&self) -> (r: bool)
        ensures
            r == (is_upper_code(self.code()) || is_lower_code(self.code())),
    ;

    /// Whether the value is an ASCII digit.
    fn is_number(&self) -> (r: bool)
        ensures
            r == is_digit_code(self.code()),
    ;

    /// Whether the value is an ASCII uppercase letter.
    fn is_upper(&self) -> (r: bool)
        ensures
            r == is_upper_code(self.code()),
    ;

    /// Whether the value is an ASCII lowercase letter.
    fn is_lower(&self) -> (r: bool)
        ensures
            r == is_lower_code(self.code()),
    ;

    /// The value as a character, an ASCII lowercase letter folded up.
    fn to_upper(&self) -> (r: char)
        ensures
            r as int == upper_code(self.code()),
    ;

    /// The value as a character, an ASCII uppercase letter folded down.
    fn to_lower(&self) -> (r: char)
        ensures
            r as int == lower_code(self.code()),
    ;
}

impl Symbols for char {
    open spec fn code(&self) -> int {
        *self as int
    }

    fn is_letter(&self) -> (r: bool) {
        self.is_upper() || self.is_lower()
    }

    fn is_number(&self) -> (r: bool) {
        *self >= '0' && *self <= '9'
    }

    fn is_upper(&self) -> (r: bool) {
        *self >= 'A' && *self <= 'Z'
    }

    fn is_lower(&self) -> (r: bool) {
        *self >= 'a' && *self <= 'z'
    }

    fn to_upper(&self) -> (r: char) {
        if *self >= 'a' && *self <= 'z' {
            (*self as u8 - 32) as char
        } else {
            *self
        }
    }

    fn to_lower(&self) -> (r: char) {
        if *self >= 'A' && *self <= 'Z' {
            (*self as u8 + 32) as char
        } else {
            *self
        }
    }
}

impl Symbols for u8 {
    open spec fn code(&self) -> int {
        *self as int
    }

    fn is_letter(&self) -> (r: bool) {
        self.is_upper() || self.is_lower()
    }

    fn is_number(&self) -> (r: bool) {
        *self >= 48 && *self <= 57
    }

    fn is_upper(&self) -> (r: bool) {
        *self >= 65 && *self <= 90
    }

    fn is_lower(&self) -> (r: bool) {
        *self >= 97 && *self <= 122
    }

    fn to_upper(&self) -> (r: char) {
        if *self >= 97 && *self <= 122 {
            (*self - 32) as char
        } else {
            *self as char
        }
    }

    fn to_lower(&self) -> (r: char) {
        if *self >= 65 && *self <= 90 {
            (*self + 32) as char
        } else {
            *self as char
        }
    }
}

/// Order tests of a value against bounds and against a list.
pub trait Range: Sized {
    /// The code this value orders by.
    spec fn ord_code(&self) -> int;

    /// Whether the value lies between `s` and `e`, both inclusive.
    fn range_at(&self, s: &Self, e: &Self) -> (r: bool)
        ensures
            r == (s.ord_code() <= self.ord_code() && self.ord_code() <= e.ord_code()),
    ;

    /// Whether the value equals one of the listed patterns.
    fn contained_in(&self, pats: &[Self]) -> (r: bool)
        ensures
            r == (exists|i: int|
                0 <= i < pats@.len() && (#[trigger] pats@[i]).ord_code() == self.ord_code()),
    ;
}

impl Range for u8 {
    open spec fn ord_code(&self) -> int {
        *self as int
    }

    fn range_at(&self, s: &u8, e: &u8) -> (r: bool) {
        *self >= *s && *e >= *self
    }

    fn contained_in(&self, pats: &[u8]) -> (r: bool) {
        let n = pats.len();
        let mut i: usize = 0;
        while i < n
            invariant
                i <= n,
                n == pats@.len(),
                forall|j: int| 0 <= j < i ==> (#[trigger] pats@[j]) != *self,
            decreases n - i,
        {
            if pats[i] == *self {
                return true;
            }
            i = i + 1;
        }
        false
    }
}

impl Range for char {
    open spec fn ord_code(&self) -> int {
        *self as int
    }

    fn range_at(&self, s: &char, e: &char) -> (r: bool) {
        *self >= *s && *e >= *self
    }

    fn contained_in(&self, pats: &[char]) -> (r: bool) {
        let n = pats.len();
        let mut i: usize = 0;
        while i < n
            invariant
                i <= n,
                n == pats@.len(),
                forall|j: int| 0 <= j < i ==> (#[trigger] pats@[j]) != *self,
            decreases n - i,
        {
            if pats[i] == *self {
                return true;
            }
            i = i + 1;
        }
        false
    }
}

/// Two characters taken as equal when they differ only by ASCII letter
/// case; a non-letter on the left compares plainly.
pub open spec fn eq_ignore_case_spec(a: char, b: char) -> bool {
    if is_upper_code(a as int) || is_lower_code(a as int) {
        lower_code(a as int) == lower_code(b as int)
    } else {
        a == b
    }
}

/// Character comparison, exact or up to ASCII case.
pub trait CharCompare {
    /// The code this value compares by.
    spec fn cmp_code(&self) -> int;

    /// Plain equality.
    fn eq_with(&self, other: &Self) -> (r: bool)
        ensures
            r == (self.cmp_code() == other.cmp_code()),
    ;

    /// Equality up to ASCII letter case.
    fn eq_ingore_case(&self, other: &Self) -> (r: bool)
        ensures
            r == (if is_upper_code(self.cmp_code()) || is_lower_code(self.cmp_code()) {
                lower_code(self.cmp_code()) == lower_code(other.cmp_code())
            } else {
                self.cmp_code() == other.cmp_code()
            }),
    ;
}

impl CharCompare for char {
    open spec fn cmp_code(&self) -> int {
        *self as int
    }

    fn eq_with(&self, other: &char) -> (r: bool) {
        *self == *other
    }

    fn eq_ingore_case(&self, other: &char) -> (r: bool) {
        if self.is_letter() {
            let la = self.to_lower();
            let lb = other.to_lower();
            la == lb
        } else {
            *self == *other
        }
    }
}

} // verus!
