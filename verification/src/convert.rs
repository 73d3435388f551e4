use vstd::prelude::*;
use vstd::slice::slice_to_vec;
use vstd::utf8::{decode_utf8, valid_utf8};

use crate::number::{all_digits, digit_val, ns_of, radix_val, trim_spec, NumberSystem, Trim};

verus! {

/// The errors of the filesystem and stream layer, by kind.
#[derive(PartialEq, Eq, Structural, Debug, Clone, Copy)]
pub enum FsError {
    NotFound,
    AlreadyExists,
    PermissionDenied,
    UnexpectedEof,
    InvalidData,
    Other,
}

/// What can go wrong turning a raw byte buffer into a typed value: the
/// buffer was empty, it did not spell a value, or the read behind it
/// failed.
#[derive(PartialEq, Eq, Structural, Debug, Clone, Copy)]
pub enum ConvertError {
    Empty,
    Invalid,
    IoError(FsError),
}

pub type ConResult<T> = Result<T, ConvertError>;

impl From<FsError> for ConvertError {
    fn from(value: FsError) -> (r: ConvertError) {
        ConvertError::IoError(value)
    }
}

impl vstd::std_specs::convert::FromSpecImpl<FsError> for ConvertError {
    open spec fn obeys_from_spec() -> bool {
        true
    }

    open spec fn from_spec(value: FsError) -> ConvertError {
        ConvertError::IoError(value)
    }
}

/// The outcome of reading a decimal number from the whole byte string
/// `s`: an optional sign, then at least one digit, nothing else, and the
/// value within `min ..= max`.
pub open spec fn dec_result(s: Seq<u8>, min: int, max: int) -> Result<int, ConvertError> {
    if s.len() == 0 {
        Err(ConvertError::Invalid)
    } else {
        let sign: int = if s[0] == 45 {
            -1
        } else {
            1
        };
        let ds = if s[0] == 45 || s[0] == 43 {
            s.drop_first()
        } else {
            s
        };
        if ds.len() == 0 || !all_digits(ds, 10) {
            Err(ConvertError::Invalid)
        } else {
            let v = sign * radix_val(ds, 10);
            if min <= v <= max {
                Ok(v)
            } else {
                Err(ConvertError::Invalid)
            }
        }
    }
}

/// The outcome of reading the digits after a two-byte base prefix.
pub open spec fn radix_result(t: Seq<u8>, base: int, max: int) -> Result<int, ConvertError> {
    let ds = t.skip(2);
    if !all_digits(ds, base) {
        Err(ConvertError::Invalid)
    } else {
        let v = radix_val(ds, base);
        if v <= max {
            Ok(v)
        } else {
            Err(ConvertError::Invalid)
        }
    }
}

/// The outcome of reading an integer from a raw buffer: trimmed emptiness
/// means `Empty`; a leading minus or no base prefix reads the raw buffer
/// as decimal; a `0x` / `0o` / `0b` prefix reads the trimmed digits in
/// that base.
pub open spec fn parse_int(bytes: Seq<u8>, min: int, max: int) -> Result<int, ConvertError> {
    let t = trim_spec(bytes);
    if t.len() == 0 {
        Err(ConvertError::Empty)
    } else if t[0] == 45 {
        dec_result(bytes, min, max)
    } else {
        match ns_of(t) {
            NumberSystem::Decimal => dec_result(bytes, min, max),
            NumberSystem::Hexadecimal => radix_result(t, 16, max),
            NumberSystem::Octal => radix_result(t, 8, max),
            NumberSystem::Binary => radix_result(t, 2, max),
        }
    }
}

/// The value of a digit string never shrinks as digits are appended.
proof fn lemma_radix_prefix(ds: Seq<u8>, base: int, k: int)
    requires
        base >= 2,
        0 <= k <= ds.len(),
        all_digits(ds, base),
    ensures
        radix_val(ds, base) >= radix_val(ds.take(k), base),
        radix_val(ds.take(k), base) >= 0,
    decreases ds.len(),
{
    if ds.len() == 0 {
        assert(ds.take(k) =~= ds);
    } else if k == ds.len() {
        assert(ds.take(k) =~= ds);
        lemma_radix_prefix(ds.drop_last(), base, ds.len() - 1);
        assert(ds.drop_last().take(ds.len() - 1) =~= ds.drop_last());
        let v = radix_val(ds.drop_last(), base);
        assert(v * base >= 0) by (nonlinear_arith)
            requires
                v >= 0,
                base >= 2,
        ;
    } else {
        lemma_radix_prefix(ds.drop_last(), base, k);
        assert(ds.drop_last().take(k) =~= ds.take(k));
        let v = radix_val(ds.drop_last(), base);
        assert(v >= radix_val(ds.take(k), base) >= 0);
        assert(v * base >= v) by (nonlinear_arith)
            requires
                v >= 0,
                base >= 2,
        ;
    }
}

/// Reads a decimal spelling of a value in `min ..= max` from the whole
/// byte string.
fn parse_dec_exec(s: &[u8], min: i128, max: i128) -> (r: Result<i128, ConvertError>)
    requires
        -0x8000_0000_0000_0000 <= min <= 0,
        0 <= max <= 0xFFFF_FFFF_FFFF_FFFF,
    ensures
        match r {
            Ok(v) => min <= v <= max && dec_result(s@, min as int, max as int) == Ok::<
                int,
                ConvertError,
            >(v as int),
            Err(e) => dec_result(s@, min as int, max as int) == Err::<int, ConvertError>(e),
        },
{
    let n = s.len();
    if n == 0 {
        return Err(ConvertError::Invalid);
    }
    let neg = s[0] == 45u8;
    let ss: usize = if s[0] == 45u8 || s[0] == 43u8 {
        1
    } else {
        0
    };
    let ghost ds = if s@[0] == 45 || s@[0] == 43 {
        s@.drop_first()
    } else {
        s@
    };
    proof {
        assert(ds =~= s@.skip(ss as int));
    }
    if n == ss {
        return Err(ConvertError::Invalid);
    }
    let mut acc: i128 = 0;
    let mut i: usize = ss;
    while i < n
        invariant
            ss <= i <= n,
            n == s@.len(),
            ss == 0 || ss == 1,
            n > ss,
            ds == s@.skip(ss as int),
            ds == (if s@[0] == 45 || s@[0] == 43 {
                s@.drop_first()
            } else {
                s@
            }),
            neg == (s@[0] == 45),
            (ss == 1) == (s@[0] == 45 || s@[0] == 43),
            -0x8000_0000_0000_0000 <= min <= 0,
            0 <= max <= 0xFFFF_FFFF_FFFF_FFFF,
            neg ==> acc == -radix_val(ds.take(i - ss), 10) && min <= acc <= 0,
            !neg ==> acc == radix_val(ds.take(i - ss), 10) && 0 <= acc <= max,
            all_digits(ds.take(i - ss), 10),
        decreases n - i,
    {
        let b = s[i];
        if !(b >= 48u8 && b <= 57u8) {
            proof {
                assert(digit_val(ds[i - ss], 10) == -1);
            }
            return Err(ConvertError::Invalid);
        }
        let d = (b - 48u8) as i128;
        let ghost pre = ds.take(i - ss);
        proof {
            assert(ds[i - ss] == s@[i as int]);
            assert(digit_val(ds[i - ss], 10) == d as int);
            assert(ds.take(i + 1 - ss).drop_last() =~= pre);
            assert(ds.take(i + 1 - ss).last() == ds[i - ss]);
            assert(all_digits(ds.take(i + 1 - ss), 10));
            assert(radix_val(ds.take(i + 1 - ss), 10) == radix_val(pre, 10) * 10 + d as int);
        }
        if neg {
            let acc2 = acc * 10 - d;
            if acc2 < min {
                proof {
                    if all_digits(ds, 10) {
                        // the value can only shrink further: the whole
                        // string already spells something below `min`
                        lemma_radix_prefix(ds, 10, i + 1 - ss);
                        assert(-radix_val(ds, 10) < min);
                        assert((-1 * radix_val(ds, 10)) == -radix_val(ds, 10)) by (nonlinear_arith);
                    }
                }
                return Err(ConvertError::Invalid);
            }
            acc = acc2;
        } else {
            let acc2 = acc * 10 + d;
            if acc2 > max {
                proof {
                    if all_digits(ds, 10) {
                        lemma_radix_prefix(ds, 10, i + 1 - ss);
                        assert(radix_val(ds, 10) >= radix_val(ds.take(i + 1 - ss), 10));
                    }
                }
                return Err(ConvertError::Invalid);
            }
            acc = acc2;
        }
        i = i + 1;
    }
    proof {
        assert(ds.take(n - ss) =~= ds);
        assert(all_digits(ds, 10));
        assert((-1 * radix_val(ds, 10)) == -radix_val(ds, 10)) by (nonlinear_arith);
        assert((1 * radix_val(ds, 10)) == radix_val(ds, 10)) by (nonlinear_arith);
        if neg {
            assert(acc == -radix_val(ds, 10));
        } else {
            assert(acc == radix_val(ds, 10));
        }
        assert(min <= acc <= max);
    }
    Ok(acc)
}

/// Reads the digits after a two-byte base prefix, in the given base, up
/// to `max`.
fn parse_radix_exec(t: &[u8], base: u8, max: i128) -> (r: Result<i128, ConvertError>)
    requires
        base == 2 || base == 8 || base == 16,
        0 <= max <= 0xFFFF_FFFF_FFFF_FFFF,
        t@.len() >= 2,
    ensures
        match r {
            Ok(v) => 0 <= v <= max && radix_result(t@, base as int, max as int) == Ok::<
                int,
                ConvertError,
            >(v as int),
            Err(e) => radix_result(t@, base as int, max as int) == Err::<int, ConvertError>(e),
        },
{
    let n = t.len();
    let ghost ds = t@.skip(2);
    let mut acc: i128 = 0;
    let mut i: usize = 2;
    while i < n
        invariant
            2 <= i <= n,
            n == t@.len(),
            ds == t@.skip(2),
            base == 2 || base == 8 || base == 16,
            0 <= max <= 0xFFFF_FFFF_FFFF_FFFF,
            acc == radix_val(ds.take(i - 2), base as int),
            0 <= acc <= max,
            all_digits(ds.take(i - 2), base as int),
        decreases n - i,
    {
        let b = t[i];
        let d: i128 = if base == 16 {
            match crate::number::hex_to_dec(b) {
                Some(v) => v as i128,
                None => {
                    proof {
                        assert(digit_val(ds[i - 2], 16) == -1);
                    }
                    return Err(ConvertError::Invalid);
                },
            }
        } else {
            if b >= 48u8 && (b - 48u8) < base {
                (b - 48u8) as i128
            } else {
                proof {
                    assert(digit_val(ds[i - 2], base as int) == -1);
                }
                return Err(ConvertError::Invalid);
            }
        };
        let ghost pre = ds.take(i - 2);
        proof {
            assert(ds.take(i + 1 - 2).drop_last() =~= pre);
            assert(ds.take(i + 1 - 2).last() == ds[i - 2]);
            assert(all_digits(ds.take(i + 1 - 2), base as int));
        }
        proof {
            let ghost bb = base as i128;
            assert(acc * bb <= max * 16 && acc * bb >= 0) by (nonlinear_arith)
                requires
                    0 <= acc <= max,
                    2 <= bb <= 16,
            ;
        }
        let acc2 = acc * (base as i128) + d;
        if acc2 > max {
            proof {
                if all_digits(ds, base as int) {
                    lemma_radix_prefix(ds, base as int, i + 1 - 2);
                    assert(radix_val(ds, base as int) >= radix_val(
                        ds.take(i + 1 - 2),
                        base as int,
                    ));
                }
            }
            return Err(ConvertError::Invalid);
        }
        acc = acc2;
        i = i + 1;
    }
    proof {
        assert(ds.take(n - 2) =~= ds);
    }
    Ok(acc)
}

/// Removes ASCII whitespace at both ends of a byte slice.
fn trim_bytes(s: &[u8]) -> (r: Vec<u8>)
    ensures
        r@ == trim_spec(s@),
{
    let mut v = slice_to_vec(s);
    v.trim();
    v
}

/// Reads an integer in `min ..= max` from a raw buffer, with base
/// detection.
fn parse_int_exec(buf: &[u8], min: i128, max: i128) -> (r: Result<i128, ConvertError>)
    requires
        -0x8000_0000_0000_0000 <= min <= 0,
        0 <= max <= 0xFFFF_FFFF_FFFF_FFFF,
    ensures
        match r {
            Ok(v) => min <= v <= max && parse_int(buf@, min as int, max as int) == Ok::<
                int,
                ConvertError,
            >(v as int),
            Err(e) => parse_int(buf@, min as int, max as int) == Err::<int, ConvertError>(e),
        },
{
    let t = trim_bytes(buf);
    if t.len() == 0 {
        return Err(ConvertError::Empty);
    }
    if t[0] == 45u8 {
        return parse_dec_exec(buf, min, max);
    }
    match NumberSystem::from_bytes(t.as_slice()) {
        NumberSystem::Decimal => parse_dec_exec(buf, min, max),
        NumberSystem::Hexadecimal => parse_radix_exec(t.as_slice(), 16, max),
        NumberSystem::Octal => parse_radix_exec(t.as_slice(), 8, max),
        NumberSystem::Binary => parse_radix_exec(t.as_slice(), 2, max),
    }
}

/// Reads a decimal spelling as a sign and a magnitude, for ranges as
/// wide as the widest integer types.  `neg_limit` bounds the magnitude
/// of a negative value, `pos_limit` that of a positive one.
fn parse_dec_mag(s: &[u8], neg_limit: u128, pos_limit: u128) -> (r: Result<
    (bool, u128),
    ConvertError,
>)
    ensures
        ({
            let min: int = -(neg_limit as int);
            let max: int = pos_limit as int;
            match r {
                Ok(p) => {
                    let v: int = if p.0 {
                        -(p.1 as int)
                    } else {
                        p.1 as int
                    };
                    &&& dec_result(s@, min, max) == Ok::<int, ConvertError>(v)
                    &&& min <= v <= max
                    &&& (p.0 ==> p.1 <= neg_limit)
                    &&& (!p.0 ==> p.1 <= pos_limit)
                },
                Err(e) => dec_result(s@, min, max) == Err::<int, ConvertError>(e),
            }
        }),
{
    let n = s.len();
    if n == 0 {
        return Err(ConvertError::Invalid);
    }
    let neg = s[0] == 45u8;
    let limit: u128 = if neg {
        neg_limit
    } else {
        pos_limit
    };
    let ss: usize = if s[0] == 45u8 || s[0] == 43u8 {
        1
    } else {
        0
    };
    let ghost ds = if s@[0] == 45 || s@[0] == 43 {
        s@.drop_first()
    } else {
        s@
    };
    proof {
        assert(ds =~= s@.skip(ss as int));
    }
    if n == ss {
        return Err(ConvertError::Invalid);
    }
    let mut mag: u128 = 0;
    let mut i: usize = ss;
    while i < n
        invariant
            ss <= i <= n,
            n == s@.len(),
            ss == 0 || ss == 1,
            n > ss,
            ds == s@.skip(ss as int),
            ds == (if s@[0] == 45 || s@[0] == 43 {
                s@.drop_first()
            } else {
                s@
            }),
            neg == (s@[0] == 45),
            (ss == 1) == (s@[0] == 45 || s@[0] == 43),
            limit == (if neg {
                neg_limit
            } else {
                pos_limit
            }),
            mag as int == radix_val(ds.take(i - ss), 10),
            mag <= limit,
            all_digits(ds.take(i - ss), 10),
        decreases n - i,
    {
        let b = s[i];
        if !(b >= 48u8 && b <= 57u8) {
            proof {
                assert(digit_val(ds[i - ss], 10) == -1);
            }
            return Err(ConvertError::Invalid);
        }
        let d = (b - 48u8) as u128;
        let ghost pre = ds.take(i - ss);
        proof {
            assert(ds[i - ss] == s@[i as int]);
            assert(digit_val(ds[i - ss], 10) == d as int);
            assert(ds.take(i + 1 - ss).drop_last() =~= pre);
            assert(ds.take(i + 1 - ss).last() == ds[i - ss]);
            assert(all_digits(ds.take(i + 1 - ss), 10));
            assert(radix_val(ds.take(i + 1 - ss), 10) == radix_val(pre, 10) * 10 + d as int);
        }
        if d > limit || mag > (limit - d) / 10 {
            proof {
                // the next prefix already exceeds the bound, and the
                // value only grows from there
                let q = ((limit - d) as int) / 10;
                if d <= limit && mag as int <= q {
                } else {
                    assert(mag as int * 10 + d as int > limit as int) by {
                        if d > limit {
                        } else {
                            assert(mag as int >= q + 1);
                            assert(10 * q + ((limit - d) as int) % 10 == (limit - d) as int);
                        }
                    }
                }
                if all_digits(ds, 10) {
                    lemma_radix_prefix(ds, 10, i + 1 - ss);
                    assert(radix_val(ds, 10) >= radix_val(ds.take(i + 1 - ss), 10));
                    assert((-1 * radix_val(ds, 10)) == -radix_val(ds, 10)) by (nonlinear_arith);
                    assert((1 * radix_val(ds, 10)) == radix_val(ds, 10)) by (nonlinear_arith);
                }
            }
            return Err(ConvertError::Invalid);
        }
        proof {
            let q = ((limit - d) as int) / 10;
            assert(10 * q + ((limit - d) as int) % 10 == (limit - d) as int);
            assert(mag as int * 10 + d as int <= limit as int);
        }
        mag = mag * 10 + d;
        i = i + 1;
    }
    proof {
        assert(ds.take(n - ss) =~= ds);
        assert((-1 * radix_val(ds, 10)) == -radix_val(ds, 10)) by (nonlinear_arith);
        assert((1 * radix_val(ds, 10)) == radix_val(ds, 10)) by (nonlinear_arith);
    }
    Ok((neg, mag))
}

/// Reads the digits after a two-byte base prefix into a magnitude, for
/// bounds as wide as the widest integer types.
fn parse_radix_mag(t: &[u8], base: u8, pos_limit: u128) -> (r: Result<u128, ConvertError>)
    requires
        base == 2 || base == 8 || base == 16,
        t@.len() >= 2,
    ensures
        match r {
            Ok(v) => radix_result(t@, base as int, pos_limit as int) == Ok::<int, ConvertError>(
                v as int,
            ) && v <= pos_limit,
            Err(e) => radix_result(t@, base as int, pos_limit as int) == Err::<
                int,
                ConvertError,
            >(e),
        },
{
    let n = t.len();
    let ghost ds = t@.skip(2);
    let mut mag: u128 = 0;
    let mut i: usize = 2;
    while i < n
        invariant
            2 <= i <= n,
            n == t@.len(),
            ds == t@.skip(2),
            base == 2 || base == 8 || base == 16,
            mag as int == radix_val(ds.take(i - 2), base as int),
            mag <= pos_limit,
            all_digits(ds.take(i - 2), base as int),
        decreases n - i,
    {
        let b = t[i];
        let d: u128 = if base == 16 {
            match crate::number::hex_to_dec(b) {
                Some(v) => v as u128,
                None => {
                    proof {
                        assert(digit_val(ds[i - 2], 16) == -1);
                    }
                    return Err(ConvertError::Invalid);
                },
            }
        } else {
            if b >= 48u8 && (b - 48u8) < base {
                (b - 48u8) as u128
            } else {
                proof {
                    assert(digit_val(ds[i - 2], base as int) == -1);
                }
                return Err(ConvertError::Invalid);
            }
        };
        let ghost pre = ds.take(i - 2);
        proof {
            assert(ds.take(i + 1 - 2).drop_last() =~= pre);
            assert(ds.take(i + 1 - 2).last() == ds[i - 2]);
            assert(all_digits(ds.take(i + 1 - 2), base as int));
            assert(radix_val(ds.take(i + 1 - 2), base as int) == radix_val(pre, base as int)
                * base + d as int);
        }
        let bb = base as u128;
        if d > pos_limit || mag > (pos_limit - d) / bb {
            proof {
                let q = ((pos_limit - d) as int) / (bb as int);
                if d <= pos_limit && mag as int <= q {
                } else {
                    assert(mag as int * (bb as int) + d as int > pos_limit as int) by {
                        if d > pos_limit {
                            assert(mag as int * (bb as int) >= 0) by (nonlinear_arith)
                                requires
                                    mag as int >= 0,
                                    bb as int >= 2,
                            ;
                        } else {
                            assert(mag as int >= q + 1);
                            assert((bb as int) * q + ((pos_limit - d) as int) % (bb as int) == (
                            pos_limit - d) as int);
                            assert(mag as int * (bb as int) >= (q + 1) * (bb as int))
                                by (nonlinear_arith)
                                requires
                                    mag as int >= q + 1,
                                    bb as int >= 2,
                            ;
                            assert((q + 1) * (bb as int) == q * (bb as int) + bb as int)
                                by (nonlinear_arith);
                            assert(q * (bb as int) == (bb as int) * q) by (nonlinear_arith);
                            assert(((pos_limit - d) as int) % (bb as int) < bb as int);
                        }
                    }
                }
                if all_digits(ds, base as int) {
                    lemma_radix_prefix(ds, base as int, i + 1 - 2);
                    assert(radix_val(ds, base as int) >= radix_val(
                        ds.take(i + 1 - 2),
                        base as int,
                    ));
                }
            }
            return Err(ConvertError::Invalid);
        }
        proof {
            let q = ((pos_limit - d) as int) / (bb as int);
            assert((bb as int) * q + ((pos_limit - d) as int) % (bb as int) == (pos_limit
                - d) as int);
            assert(mag as int * (bb as int) <= q * (bb as int)) by (nonlinear_arith)
                requires
                    0 <= mag as int <= q,
                    bb as int >= 2,
            ;
            assert(q * (bb as int) == (bb as int) * q) by (nonlinear_arith);
            assert(((pos_limit - d) as int) % (bb as int) >= 0);
            assert(mag as int * (bb as int) + d as int <= pos_limit as int);
        }
        mag = mag * bb + d;
        i = i + 1;
    }
    proof {
        assert(ds.take(n - 2) =~= ds);
    }
    Ok(mag)
}

/// Reads an integer with base detection, as a sign and a magnitude, for
/// ranges as wide as the widest integer types.
fn parse_int_wide(buf: &[u8], neg_limit: u128, pos_limit: u128) -> (r: Result<
    (bool, u128),
    ConvertError,
>)
    ensures
        ({
            let min: int = -(neg_limit as int);
            let max: int = pos_limit as int;
            match r {
                Ok(p) => {
                    let v: int = if p.0 {
                        -(p.1 as int)
                    } else {
                        p.1 as int
                    };
                    &&& parse_int(buf@, min, max) == Ok::<int, ConvertError>(v)
                    &&& min <= v <= max
                    &&& (p.0 ==> p.1 <= neg_limit)
                    &&& (!p.0 ==> p.1 <= pos_limit)
                },
                Err(e) => parse_int(buf@, min, max) == Err::<int, ConvertError>(e),
            }
        }),
{
    let t = trim_bytes(buf);
    if t.len() == 0 {
        return Err(ConvertError::Empty);
    }
    if t[0] == 45u8 {
        return parse_dec_mag(buf, neg_limit, pos_limit);
    }
    match NumberSystem::from_bytes(t.as_slice()) {
        NumberSystem::Decimal => parse_dec_mag(buf, neg_limit, pos_limit),
        NumberSystem::Hexadecimal => {
            match parse_radix_mag(t.as_slice(), 16, pos_limit) {
                Ok(v) => Ok((false, v)),
                Err(e) => Err(e),
            }
        },
        NumberSystem::Octal => {
            match parse_radix_mag(t.as_slice(), 8, pos_limit) {
                Ok(v) => Ok((false, v)),
                Err(e) => Err(e),
            }
        },
        NumberSystem::Binary => {
            match parse_radix_mag(t.as_slice(), 2, pos_limit) {
                Ok(v) => Ok((false, v)),
                Err(e) => Err(e),
            }
        },
    }
}

/// A typed value read out of a raw byte buffer.
pub trait ConvertBuffer: Sized {
    /// What a successful conversion returns for this buffer.
    spec fn from_buf_ok(buf: Seq<u8>, r: Self) -> bool;

    /// The error this buffer converts to, or `None` when it converts.
    spec fn from_buf_err(buf: Seq<u8>) -> Option<ConvertError>;

    fn from_buf(buf: Vec<u8>) -> (r: ConResult<Self>)
        ensures
            match r {
                Ok(v) => Self::from_buf_err(buf@) is None && Self::from_buf_ok(buf@, v),
                Err(e) => Self::from_buf_err(buf@) == Some(e),
            },
    ;
}

/// Relies on `String::from_utf8`: it succeeds exactly on valid UTF-8 and
/// returns its decoding.
#[verifier::external_body]
pub(crate) fn string_from_utf8(buf: Vec<u8>) -> (r: Option<String>)
    ensures
        match r {
            Some(s) => valid_utf8(buf@) && s@ == decode_utf8(buf@),
            None => !valid_utf8(buf@),
        },
{
    match String::from_utf8(buf) {
        Ok(s) => Some(s),
        Err(_) => None,
    }
}

impl ConvertBuffer for String {
    open spec fn from_buf_ok(buf: Seq<u8>, r: String) -> bool {
        valid_utf8(buf) && r@ == decode_utf8(buf)
    }

    open spec fn from_buf_err(buf: Seq<u8>) -> Option<ConvertError> {
        if valid_utf8(buf) {
            None
        } else {
            Some(ConvertError::Invalid)
        }
    }

    fn from_buf(buf: Vec<u8>) -> (r: ConResult<String>) {
        match string_from_utf8(buf) {
            Some(s) => Ok(s),
            None => Err(ConvertError::Invalid),
        }
    }
}

impl ConvertBuffer for Vec<u8> {
    open spec fn from_buf_ok(buf: Seq<u8>, r: Vec<u8>) -> bool {
        r@ == buf
    }

    open spec fn from_buf_err(buf: Seq<u8>) -> Option<ConvertError> {
        None
    }

    fn from_buf(buf: Vec<u8>) -> (r: ConResult<Vec<u8>>) {
        Ok(buf)
    }
}


impl ConvertBuffer for i8 {
    open spec fn from_buf_ok(buf: Seq<u8>, r: i8) -> bool {
        parse_int(buf, i8::MIN as int, i8::MAX as int) == Ok::<int, ConvertError>(r as int)
    }

    open spec fn from_buf_err(buf: Seq<u8>) -> Option<ConvertError> {
        match parse_int(buf, i8::MIN as int, i8::MAX as int) {
            Ok(v) => None,
            Err(e) => Some(e),
        }
    }

    fn from_buf(buf: Vec<u8>) -> (r: ConResult<i8>) {
        match parse_int_exec(buf.as_slice(), -0x80, 0x7F) {
            Ok(v) => Ok(v as i8),
            Err(e) => Err(e),
        }
    }
}

impl ConvertBuffer for i16 {
    open spec fn from_buf_ok(buf: Seq<u8>, r: i16) -> bool {
        parse_int(buf, i16::MIN as int, i16::MAX as int) == Ok::<int, ConvertError>(r as int)
    }

    open spec fn from_buf_err(buf: Seq<u8>) -> Option<ConvertError> {
        match parse_int(buf, i16::MIN as int, i16::MAX as int) {
            Ok(v) => None,
            Err(e) => Some(e),
        }
    }

    fn from_buf(buf: Vec<u8>) -> (r: ConResult<i16>) {
        match parse_int_exec(buf.as_slice(), -0x8000, 0x7FFF) {
            Ok(v) => Ok(v as i16),
            Err(e) => Err(e),
        }
    }
}

impl ConvertBuffer for i32 {
    open spec fn from_buf_ok(buf: Seq<u8>, r: i32) -> bool {
        parse_int(buf, i32::MIN as int, i32::MAX as int) == Ok::<int, ConvertError>(r as int)
    }

    open spec fn from_buf_err(buf: Seq<u8>) -> Option<ConvertError> {
        match parse_int(buf, i32::MIN as int, i32::MAX as int) {
            Ok(v) => None,
            Err(e) => Some(e),
        }
    }

    fn from_buf(buf: Vec<u8>) -> (r: ConResult<i32>) {
        match parse_int_exec(buf.as_slice(), -0x8000_0000, 0x7FFF_FFFF) {
            Ok(v) => Ok(v as i32),
            Err(e) => Err(e),
        }
    }
}

impl ConvertBuffer for i64 {
    open spec fn from_buf_ok(buf: Seq<u8>, r: i64) -> bool {
        parse_int(buf, i64::MIN as int, i64::MAX as int) == Ok::<int, ConvertError>(r as int)
    }

    open spec fn from_buf_err(buf: Seq<u8>) -> Option<ConvertError> {
        match parse_int(buf, i64::MIN as int, i64::MAX as int) {
            Ok(v) => None,
            Err(e) => Some(e),
        }
    }

    fn from_buf(buf: Vec<u8>) -> (r: ConResult<i64>) {
        match parse_int_exec(buf.as_slice(), -0x8000_0000_0000_0000, 0x7FFF_FFFF_FFFF_FFFF) {
            Ok(v) => Ok(v as i64),
            Err(e) => Err(e),
        }
    }
}

impl ConvertBuffer for isize {
    open spec fn from_buf_ok(buf: Seq<u8>, r: isize) -> bool {
        parse_int(buf, isize::MIN as int, isize::MAX as int) == Ok::<int, ConvertError>(r as int)
    }

    open spec fn from_buf_err(buf: Seq<u8>) -> Option<ConvertError> {
        match parse_int(buf, isize::MIN as int, isize::MAX as int) {
            Ok(v) => None,
            Err(e) => Some(e),
        }
    }

    fn from_buf(buf: Vec<u8>) -> (r: ConResult<isize>) {
        match parse_int_exec(buf.as_slice(), isize::MIN as i128, isize::MAX as i128) {
            Ok(v) => Ok(v as isize),
            Err(e) => Err(e),
        }
    }
}

impl ConvertBuffer for u8 {
    open spec fn from_buf_ok(buf: Seq<u8>, r: u8) -> bool {
        parse_int(buf, u8::MIN as int, u8::MAX as int) == Ok::<int, ConvertError>(r as int)
    }

    open spec fn from_buf_err(buf: Seq<u8>) -> Option<ConvertError> {
        match parse_int(buf, u8::MIN as int, u8::MAX as int) {
            Ok(v) => None,
            Err(e) => Some(e),
        }
    }

    fn from_buf(buf: Vec<u8>) -> (r: ConResult<u8>) {
        match parse_int_exec(buf.as_slice(), 0, 0xFF) {
            Ok(v) => Ok(v as u8),
            Err(e) => Err(e),
        }
    }
}

impl ConvertBuffer for u16 {
    open spec fn from_buf_ok(buf: Seq<u8>, r: u16) -> bool {
        parse_int(buf, u16::MIN as int, u16::MAX as int) == Ok::<int, ConvertError>(r as int)
    }

    open spec fn from_buf_err(buf: Seq<u8>) -> Option<ConvertError> {
        match parse_int(buf, u16::MIN as int, u16::MAX as int) {
            Ok(v) => None,
            Err(e) => Some(e),
        }
    }

    fn from_buf(buf: Vec<u8>) -> (r: ConResult<u16>) {
        match parse_int_exec(buf.as_slice(), 0, 0xFFFF) {
            Ok(v) => Ok(v as u16),
            Err(e) => Err(e),
        }
    }
}

impl ConvertBuffer for u32 {
    open spec fn from_buf_ok(buf: Seq<u8>, r: u32) -> bool {
        parse_int(buf, u32::MIN as int, u32::MAX as int) == Ok::<int, ConvertError>(r as int)
    }

    open spec fn from_buf_err(buf: Seq<u8>) -> Option<ConvertError> {
        match parse_int(buf, u32::MIN as int, u32::MAX as int) {
            Ok(v) => None,
            Err(e) => Some(e),
        }
    }

    fn from_buf(buf: Vec<u8>) -> (r: ConResult<u32>) {
        match parse_int_exec(buf.as_slice(), 0, 0xFFFF_FFFF) {
            Ok(v) => Ok(v as u32),
            Err(e) => Err(e),
        }
    }
}

impl ConvertBuffer for u64 {
    open spec fn from_buf_ok(buf: Seq<u8>, r: u64) -> bool {
        parse_int(buf, u64::MIN as int, u64::MAX as int) == Ok::<int, ConvertError>(r as int)
    }

    open spec fn from_buf_err(buf: Seq<u8>) -> Option<ConvertError> {
        match parse_int(buf, u64::MIN as int, u64::MAX as int) {
            Ok(v) => None,
            Err(e) => Some(e),
        }
    }

    fn from_buf(buf: Vec<u8>) -> (r: ConResult<u64>) {
        match parse_int_exec(buf.as_slice(), 0, 0xFFFF_FFFF_FFFF_FFFF) {
            Ok(v) => Ok(v as u64),
            Err(e) => Err(e),
        }
    }
}

impl ConvertBuffer for usize {
    open spec fn from_buf_ok(buf: Seq<u8>, r: usize) -> bool {
        parse_int(buf, usize::MIN as int, usize::MAX as int) == Ok::<int, ConvertError>(r as int)
    }

    open spec fn from_buf_err(buf: Seq<u8>) -> Option<ConvertError> {
        match parse_int(buf, usize::MIN as int, usize::MAX as int) {
            Ok(v) => None,
            Err(e) => Some(e),
        }
    }

    fn from_buf(buf: Vec<u8>) -> (r: ConResult<usize>) {
        match parse_int_exec(buf.as_slice(), 0, usize::MAX as i128) {
            Ok(v) => Ok(v as usize),
            Err(e) => Err(e),
        }
    }
}


impl ConvertBuffer for u128 {
    open spec fn from_buf_ok(buf: Seq<u8>, r: u128) -> bool {
        parse_int(buf, u128::MIN as int, u128::MAX as int) == Ok::<int, ConvertError>(r as int)
    }

    open spec fn from_buf_err(buf: Seq<u8>) -> Option<ConvertError> {
        match parse_int(buf, u128::MIN as int, u128::MAX as int) {
            Ok(v) => None,
            Err(e) => Some(e),
        }
    }

    fn from_buf(buf: Vec<u8>) -> (r: ConResult<u128>) {
        match parse_int_wide(buf.as_slice(), 0, u128::MAX) {
            Ok(p) => {
                proof {
                    // a non-positive value within an unsigned range is zero
                    if p.0 {
                        assert(p.1 == 0);
                    }
                }
                Ok(p.1)
            },
            Err(e) => Err(e),
        }
    }
}

impl ConvertBuffer for i128 {
    open spec fn from_buf_ok(buf: Seq<u8>, r: i128) -> bool {
        parse_int(buf, i128::MIN as int, i128::MAX as int) == Ok::<int, ConvertError>(r as int)
    }

    open spec fn from_buf_err(buf: Seq<u8>) -> Option<ConvertError> {
        match parse_int(buf, i128::MIN as int, i128::MAX as int) {
            Ok(v) => None,
            Err(e) => Some(e),
        }
    }

    fn from_buf(buf: Vec<u8>) -> (r: ConResult<i128>) {
        let neg_limit: u128 = 170141183460469231731687303715884105728u128;
        let pos_limit: u128 = 170141183460469231731687303715884105727u128;
        proof {
            assert(-(neg_limit as int) == i128::MIN as int);
            assert(pos_limit as int == i128::MAX as int);
        }
        match parse_int_wide(buf.as_slice(), neg_limit, pos_limit) {
            Ok(p) => {
                if p.0 {
                    if p.1 == neg_limit {
                        Ok(i128::MIN)
                    } else {
                        Ok(-(p.1 as i128))
                    }
                } else {
                    Ok(p.1 as i128)
                }
            },
            Err(e) => Err(e),
        }
    }
}

} // verus!
