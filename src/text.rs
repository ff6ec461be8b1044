//! Turning token bytes into text.
use vstd::prelude::*;

verus! {

/// The text that UTF-8 decoding of `b` gives, with each invalid sequence replaced.
pub uninterp spec fn utf8_text(b: Seq<u8>) -> Seq<char>;

/// Every byte is ASCII.
pub open spec fn all_ascii(b: Seq<u8>) -> bool {
    forall|i: int| 0 <= i < b.len() ==> #[trigger] b[i] < 128
}

/// Each byte read as the character of the same value.
pub open spec fn ascii_chars(b: Seq<u8>) -> Seq<char> {
    b.map_values(|x: u8| x as char)
}

/// Relies on `String::from_utf8_lossy`: decodes UTF-8, replacing what is invalid; ASCII
/// is valid UTF-8 in which each byte stands for the character of its value.
#[verifier::external_body]
pub(crate) fn decode_text(b: &Vec<u8>) -> (r: String)
    ensures
        r@ == utf8_text(b@),
        all_ascii(b@) ==> r@ == ascii_chars(b@),
{
    String::from_utf8_lossy(b.as_slice()).into_owned()
}

/// Relies on `String::push_str`: appends `t` to `buf`.
#[verifier::external_body]
pub(crate) fn push_text(buf: &mut String, t: &String)
    ensures
        final(buf)@ == old(buf)@ + t@,
{
    buf.push_str(t.as_str())
}

} // verus!
