use vstd::prelude::*;

verus! {

/// The base in which a number string is spelled, told by its prefix.
#[derive(PartialEq, Eq, Structural, Debug)]
pub enum NumberSystem {
    Binary,
    Octal,
    Decimal,
    Hexadecimal,
}

/// The base marker letter of a `0x` / `0o` / `0b` prefix.
pub open spec fn ns_of_marker(b: u8) -> NumberSystem {
    if b == 120 || b == 88 {
        NumberSystem::Hexadecimal
    } else if b == 111 || b == 79 {
        NumberSystem::Octal
    } else if b == 98 || b == 66 {
        NumberSystem::Binary
    } else {
        NumberSystem::Decimal
    }
}

/// The base of a number string: a leading `0` followed by a marker letter
/// selects it, anything else is decimal.
pub open spec fn ns_of(s: Seq<u8>) -> NumberSystem {
    if s.len() < 2 {
        NumberSystem::Decimal
    } else if s[0] == 48 {
        ns_of_marker(s[1])
    } else {
        NumberSystem::Decimal
    }
}

impl NumberSystem {
    /// Reads the base of a whole number string from its first two bytes.
    pub fn from_bytes(value: &[u8]) -> (r: NumberSystem)
        ensures
            r == ns_of(value@),
    {
        if value.len() < 2 {
            NumberSystem::Decimal
        } else if value[0] == 48u8 {
            NumberSystem::from_byte(value[1])
        } else {
            NumberSystem::Decimal
        }
    }

    /// Reads the base selected by a single marker letter.
    pub fn from_byte(value: u8) -> (r: NumberSystem)
        ensures
            r == ns_of_marker(value),
    {
        if value == 120u8 || value == 88u8 {
            NumberSystem::Hexadecimal
        } else if value == 111u8 || value == 79u8 {
            NumberSystem::Octal
        } else if value == 98u8 || value == 66u8 {
            NumberSystem::Binary
        } else {
            NumberSystem::Decimal
        }
    }
}

/// An ASCII whitespace character: space, newline, carriage return, tab.
pub open spec fn is_ws_char(c: char) -> bool {
    c == ' ' || c == '\n' || c == '\r' || c == '\t'
}

/// An ASCII whitespace byte.
pub open spec fn is_ws_byte(b: u8) -> bool {
    b == 32 || b == 10 || b == 13 || b == 9
}

/// Whether the character is ASCII whitespace.
pub fn is_white_space(ch: char) -> (r: bool)
    ensures
        r == is_ws_char(ch),
{
    ch == ' ' || ch == '\n' || ch == '\r' || ch == '\t'
}

/// The sequence with trailing whitespace removed.
pub open spec fn trim_end_spec(s: Seq<u8>) -> Seq<u8>
    decreases s.len(),
{
    if s.len() > 0 && is_ws_byte(s.last()) {
        trim_end_spec(s.drop_last())
    } else {
        s
    }
}

/// The sequence with leading whitespace removed.
pub open spec fn trim_start_spec(s: Seq<u8>) -> Seq<u8>
    decreases s.len(),
{
    if s.len() > 0 && is_ws_byte(s[0]) {
        trim_start_spec(s.drop_first())
    } else {
        s
    }
}

/// The sequence with whitespace removed from both ends.
pub open spec fn trim_spec(s: Seq<u8>) -> Seq<u8> {
    trim_start_spec(trim_end_spec(s))
}

/// Trailing zeros of a fraction removed, but never closer than one digit
/// after the dot at position `dot`.
pub open spec fn strip_frac_zeros(s: Seq<u8>, dot: int) -> Seq<u8>
    decreases s.len(),
{
    if s.len() > dot + 2 && s.len() > 0 && s.last() == 48 {
        strip_frac_zeros(s.drop_last(), dot)
    } else {
        s
    }
}

/// Zeros removed at position `start` while more than one digit remains in
/// the run of length `len - start`.
pub open spec fn strip_lead_zeros(s: Seq<u8>, start: int, len: int) -> Seq<u8>
    decreases len,
{
    if len > start + 1 && 0 <= start < s.len() && s[start] == 48 {
        strip_lead_zeros(s.remove(start), start, len - 1)
    } else {
        s
    }
}

/// The whole zero-trimming step on a number string: fraction zeros, then
/// redundant leading zeros, then a lone trailing dot is completed.
pub open spec fn del_zero_spec(s: Seq<u8>) -> Seq<u8> {
    if s.len() < 2 {
        s
    } else {
        let stripped = if ns_of(s) is Decimal {
            let start: int = if s[0] == 45 {
                1
            } else {
                0
            };
            let dot = crate::find::first_idx(s, 46);
            if dot >= 0 {
                strip_lead_zeros(strip_frac_zeros(s, dot), start, dot)
            } else {
                strip_lead_zeros(s, start, s.len() as int)
            }
        } else {
            strip_lead_zeros(s, 2, s.len() as int)
        };
        if stripped.len() > 0 && stripped.last() == 46 {
            stripped.push(48)
        } else {
            stripped
        }
    }
}

/// Whitespace and redundant-zero trimming of a byte buffer that holds a
/// number string.
pub trait Trim {
    spec fn trim_view(&self) -> Seq<u8>;

    /// Removes whitespace at both ends.
    fn trim(&mut self)
        ensures
            final(self).trim_view() == trim_spec(old(self).trim_view()),
    ;

    /// Removes redundant zeros: trailing fraction zeros and leading
    /// integer zeros, keeping at least one digit on each side.
    fn del_zero(&mut self)
        ensures
            final(self).trim_view() == del_zero_spec(old(self).trim_view()),
    ;

    /// Whitespace trimming followed by zero trimming.
    fn trim_zero(&mut self)
        ensures
            final(self).trim_view() == del_zero_spec(trim_spec(old(self).trim_view())),
    ;
}

impl Trim for Vec<u8> {
    open spec fn trim_view(&self) -> Seq<u8> {
        self@
    }

    fn trim(&mut self) {
        loop
            invariant
                trim_end_spec(self@) == trim_end_spec(old(self)@),
            ensures
                trim_end_spec(self@) == trim_end_spec(old(self)@),
                self@ == trim_end_spec(self@),
            decreases self@.len(),
        {
            let n = self.len();
            if n == 0 {
                break ;
            }
            let b = self[n - 1];
            if b == 32 || b == 10 || b == 13 || b == 9 {
                self.pop();
            } else {
                break ;
            }
        }
        let ghost mid = self@;
        loop
            invariant
                trim_start_spec(self@) == trim_start_spec(mid),
            ensures
                trim_start_spec(self@) == trim_start_spec(mid),
                self@ == trim_start_spec(self@),
            decreases self@.len(),
        {
            let n = self.len();
            if n == 0 {
                break ;
            }
            let b = self[0];
            if b == 32 || b == 10 || b == 13 || b == 9 {
                let ghost pre = self@;
                self.remove(0);
                proof {
                    assert(self@ =~= pre.drop_first());
                }
            } else {
                break ;
            }
        }
    }

    fn del_zero(&mut self) {
        if self.len() < 2 {
            return ;
        }
        let ns = NumberSystem::from_bytes(self.as_slice());
        let ghost orig = self@;
        let mut start: usize = 0;
        let mut len: usize;
        match ns {
            NumberSystem::Decimal => {
                if self[0] == 45u8 {
                    start = 1;
                }
                let dot = <[u8] as crate::find::Find<u8>>::find(self.as_slice(), &46u8);
                match dot {
                    Some(k) => {
                        len = k;
                        loop
                            invariant
                                strip_frac_zeros(self@, k as int) == strip_frac_zeros(
                                    orig,
                                    k as int,
                                ),
                            ensures
                                self@ == strip_frac_zeros(orig, k as int),
                            decreases self@.len(),
                        {
                            let n = self.len();
                            if n > 2 && k < n - 2 {
                                if self[n - 1] == 48u8 {
                                    self.pop();
                                } else {
                                    break ;
                                }
                            } else {
                                break ;
                            }
                        }
                    },
                    None => {
                        len = self.len();
                    },
                }
            },
            _ => {
                start = 2;
                len = self.len();
            },
        }
        let ghost mid = self@;
        let ghost len0 = len as int;
        loop
            invariant
                strip_lead_zeros(self@, start as int, len as int) == strip_lead_zeros(
                    mid,
                    start as int,
                    len0,
                ),
                start <= 2,
            ensures
                self@ == strip_lead_zeros(mid, start as int, len0),
            decreases len,
        {
            if len > start + 1 {
                if start < self.len() && self[start] == 48u8 {
                    self.remove(start);
                    len = len - 1;
                } else {
                    break ;
                }
            } else {
                break ;
            }
        }
        let n = self.len();
        if n > 0 && self[n - 1] == 46u8 {
            self.push(48u8);
        }
        proof {
            assert(self@ == del_zero_spec(orig));
        }
    }

    fn trim_zero(&mut self) {
        self.trim();
        self.del_zero();
    }
}

/// The number of leading `0` digits of a digit string.
pub open spec fn lead_zero_count(s: Seq<char>) -> int
    decreases s.len(),
{
    if s.len() > 0 && s[0] == '0' {
        1 + lead_zero_count(s.drop_first())
    } else {
        0
    }
}

/// The number string without its leading zeros; a string of zeros
/// alone collapses to a single `0`.
pub fn del_front_zero(number: &str) -> (r: &str)
    ensures
        ({
            let k = lead_zero_count(number@);
            if k == number@.len() {
                r@ == "0"@
            } else {
                r@ == number@.skip(k)
            }
        }),
{
    let n = number.unicode_len();
    let mut index: usize = 0;
    proof {
        assert(number@.skip(0) =~= number@);
    }
    while index < n && number.get_char(index) == '0'
        invariant
            index <= n,
            n == number@.len(),
            lead_zero_count(number@) == index + lead_zero_count(number@.skip(index as int)),
            forall|t: int| 0 <= t < index ==> number@[t] == '0',
        decreases n - index,
    {
        proof {
            assert(number@.skip(index as int).len() > 0);
            assert(number@.skip(index as int)[0] == number@[index as int]);
            assert(number@.skip(index as int).drop_first() =~= number@.skip(index as int + 1));
        }
        index = index + 1;
    }
    proof {
        let rest = number@.skip(index as int);
        if rest.len() > 0 {
            assert(rest[0] == number@[index as int]);
            assert(lead_zero_count(rest) == 0);
        }
        assert(lead_zero_count(number@) == index as int);
    }
    if index == n {
        proof {
            reveal_strlit("0");
        }
        "0"
    } else {
        let r = number.substring_char(index, n);
        proof {
            assert(r@ =~= number@.skip(index as int));
        }
        r
    }
}

/// The value of one digit in the given base, or `-1` when the byte is no
/// digit of that base.
pub open spec fn digit_val(b: u8, base: int) -> int {
    if base == 16 {
        if 48 <= b <= 57 {
            b - 48
        } else if 97 <= b <= 102 {
            b - 97 + 10
        } else if 65 <= b <= 70 {
            b - 65 + 10
        } else {
            -1
        }
    } else {
        if 48 <= b && b - 48 < base {
            b - 48
        } else {
            -1
        }
    }
}

/// The value of a digit string in the given base.
pub open spec fn radix_val(ds: Seq<u8>, base: int) -> int
    decreases ds.len(),
{
    if ds.len() == 0 {
        0
    } else {
        radix_val(ds.drop_last(), base) * base + digit_val(ds.last(), base)
    }
}

/// Every byte is a digit of the given base.
pub open spec fn all_digits(ds: Seq<u8>, base: int) -> bool {
    forall|i: int| 0 <= i < ds.len() ==> digit_val(#[trigger] ds[i], base) >= 0
}

/// The value of a hexadecimal digit byte.
pub fn hex_to_dec(byte: u8) -> (r: Option<u8>)
    ensures
        match r {
            Some(v) => digit_val(byte, 16) == v as int,
            None => digit_val(byte, 16) == -1,
        },
{
    if byte >= 48u8 && byte <= 57u8 {
        Some(byte - 48u8)
    } else if byte >= 97u8 && byte <= 102u8 {
        Some(byte - 97u8 + 10)
    } else if byte >= 65u8 && byte <= 70u8 {
        Some(byte - 65u8 + 10)
    } else {
        None
    }
}

} // verus!
