use vstd::prelude::*;
use vstd::string::StrSliceExecFns;
use vstd::string::StringSliceAdditionalSpecFns;
use vstd::string::StringExecFns;

verus! {

/// A byte that the form byte serializer passes through unchanged: an
/// ASCII letter or digit, or one of `*`, `-`, `.`, `_`.
pub open spec fn ser_unchanged(b: u8) -> bool {
    ||| b == 42
    ||| b == 45
    ||| b == 46
    ||| b == 95
    ||| 48 <= b <= 57
    ||| 65 <= b <= 90
    ||| 97 <= b <= 122
}

/// An uppercase hexadecimal digit character for a value below sixteen.
pub open spec fn hex_upper(d: int) -> char {
    if d < 10 {
        (48 + d) as char
    } else {
        (55 + d) as char
    }
}

/// How the form byte serializer spells one byte: unchanged, a plus for
/// a space, or a percent escape in uppercase hexadecimal.
pub open spec fn ser_byte(b: u8) -> Seq<char> {
    if ser_unchanged(b) {
        seq![b as char]
    } else if b == 32 {
        seq!['+']
    } else {
        seq!['%', hex_upper(b as int / 16), hex_upper(b as int % 16)]
    }
}

/// The form byte serialization of a whole byte string.
pub open spec fn byte_serialized(s: Seq<u8>) -> Seq<char>
    decreases s.len(),
{
    if s.len() == 0 {
        Seq::empty()
    } else {
        byte_serialized(s.drop_last()) + ser_byte(s.last())
    }
}

/// Relies on `url::form_urlencoded::byte_serialize`: each byte is kept
/// when it is an ASCII letter, digit, `*`, `-`, `.` or `_`, a space
/// becomes `+`, and every other byte becomes an uppercase percent
/// escape.
#[verifier::external_body]
fn url_byte_serialize(b: &Vec<u8>) -> (r: String)
    ensures
        r@ == byte_serialized(b@),
{
    url::form_urlencoded::byte_serialize(b.as_slice()).collect()
}

/// The attachment header value that serves a file under its name: the
/// name's bytes, form-serialized, after the fixed marker.
pub fn content_disposition(name: &str) -> (r: String)
    ensures
        r@ == "attachment; filename="@ + byte_serialized(name.spec_bytes()),
{
    let bytes = name.as_bytes_vec();
    let encoded = url_byte_serialize(&bytes);
    let mut out = String::new();
    out.append("attachment; filename=");
    out.append(encoded.as_str());
    out
}

} // verus!
