use vstd::prelude::*;
use vstd::string::StrSliceExecFns;

use crate::text::clone_bytes;

verus! {

/// A value that can be handed to a write call as a block of bytes.
pub trait BufferStream {
    /// The bytes this value writes.
    spec fn byte_view(&self) -> Seq<u8>;

    /// Those bytes, materialized.
    fn write_buf(&self) -> (r: Vec<u8>)
        ensures
            r@ == self.byte_view(),
    ;
}

impl BufferStream for Vec<u8> {
    open spec fn byte_view(&self) -> Seq<u8> {
        self@
    }

    fn write_buf(&self) -> (r: Vec<u8>) {
        clone_bytes(self)
    }
}

impl BufferStream for String {
    open spec fn byte_view(&self) -> Seq<u8> {
        vstd::utf8::encode_utf8(self@)
    }

    fn write_buf(&self) -> (r: Vec<u8>) {
        self.as_str().as_bytes_vec()
    }
}

impl BufferStream for &str {
    open spec fn byte_view(&self) -> Seq<u8> {
        vstd::utf8::encode_utf8(self@)
    }

    fn write_buf(&self) -> (r: Vec<u8>) {
        self.as_bytes_vec()
    }
}

/// The decimal spelling of a number as bytes, most significant digit
/// first.
pub open spec fn dec_bytes(n: int) -> Seq<u8>
    decreases n,
{
    if n < 10 {
        seq![(48 + (if n >= 0 {
            n
        } else {
            0
        })) as u8]
    } else {
        dec_bytes(n / 10) + seq![(48 + n % 10) as u8]
    }
}

/// The decimal spelling of a number with its sign.
pub open spec fn int_bytes(n: int) -> Seq<u8> {
    if n < 0 {
        seq![45u8] + dec_bytes(-n)
    } else {
        dec_bytes(n)
    }
}

/// The decimal bytes of an unsigned number.
fn dec_bytes_u128(n: u128) -> (r: Vec<u8>)
    ensures
        r@ == dec_bytes(n as int),
    decreases n,
{
    if n < 10 {
        let mut v: Vec<u8> = Vec::new();
        v.push(48 + (n as u8));
        proof {
            assert(v@ =~= dec_bytes(n as int));
        }
        v
    } else {
        let mut v = dec_bytes_u128(n / 10);
        v.push(48 + ((n % 10) as u8));
        proof {
            assert(v@ =~= dec_bytes(n as int));
        }
        v
    }
}

/// The decimal bytes of a signed number, minus sign included.
fn int_bytes_i128(n: i128) -> (r: Vec<u8>)
    requires
        n > i128::MIN,
    ensures
        r@ == int_bytes(n as int),
{
    if n < 0 {
        let mut v: Vec<u8> = Vec::new();
        v.push(45u8);
        let mut m = dec_bytes_u128((-n) as u128);
        v.append(&mut m);
        proof {
            assert(v@ =~= int_bytes(n as int));
        }
        v
    } else {
        dec_bytes_u128(n as u128)
    }
}

impl BufferStream for u8 {
    open spec fn byte_view(&self) -> Seq<u8> {
        dec_bytes(*self as int)
    }

    fn write_buf(&self) -> (r: Vec<u8>) {
        dec_bytes_u128(*self as u128)
    }
}

impl BufferStream for u16 {
    open spec fn byte_view(&self) -> Seq<u8> {
        dec_bytes(*self as int)
    }

    fn write_buf(&self) -> (r: Vec<u8>) {
        dec_bytes_u128(*self as u128)
    }
}

impl BufferStream for u32 {
    open spec fn byte_view(&self) -> Seq<u8> {
        dec_bytes(*self as int)
    }

    fn write_buf(&self) -> (r: Vec<u8>) {
        dec_bytes_u128(*self as u128)
    }
}

impl BufferStream for u64 {
    open spec fn byte_view(&self) -> Seq<u8> {
        dec_bytes(*self as int)
    }

    fn write_buf(&self) -> (r: Vec<u8>) {
        dec_bytes_u128(*self as u128)
    }
}

impl BufferStream for u128 {
    open spec fn byte_view(&self) -> Seq<u8> {
        dec_bytes(*self as int)
    }

    fn write_buf(&self) -> (r: Vec<u8>) {
        dec_bytes_u128(*self)
    }
}

impl BufferStream for usize {
    open spec fn byte_view(&self) -> Seq<u8> {
        dec_bytes(*self as int)
    }

    fn write_buf(&self) -> (r: Vec<u8>) {
        dec_bytes_u128(*self as u128)
    }
}

impl BufferStream for i8 {
    open spec fn byte_view(&self) -> Seq<u8> {
        int_bytes(*self as int)
    }

    fn write_buf(&self) -> (r: Vec<u8>) {
        int_bytes_i128(*self as i128)
    }
}

impl BufferStream for i16 {
    open spec fn byte_view(&self) -> Seq<u8> {
        int_bytes(*self as int)
    }

    fn write_buf(&self) -> (r: Vec<u8>) {
        int_bytes_i128(*self as i128)
    }
}

impl BufferStream for i32 {
    open spec fn byte_view(&self) -> Seq<u8> {
        int_bytes(*self as int)
    }

    fn write_buf(&self) -> (r: Vec<u8>) {
        int_bytes_i128(*self as i128)
    }
}

impl BufferStream for i64 {
    open spec fn byte_view(&self) -> Seq<u8> {
        int_bytes(*self as int)
    }

    fn write_buf(&self) -> (r: Vec<u8>) {
        int_bytes_i128(*self as i128)
    }
}

impl BufferStream for isize {
    open spec fn byte_view(&self) -> Seq<u8> {
        int_bytes(*self as int)
    }

    fn write_buf(&self) -> (r: Vec<u8>) {
        int_bytes_i128(*self as i128)
    }
}

impl BufferStream for char {
    open spec fn byte_view(&self) -> Seq<u8> {
        vstd::utf8::encode_utf8(seq![*self])
    }

    fn write_buf(&self) -> (r: Vec<u8>) {
        let mut s = String::new();
        s.push(*self);
        proof {
            assert(s@ =~= seq![*self]);
        }
        s.as_str().as_bytes_vec()
    }
}

} // verus!
