//! Conversions between byte buffers and strings.
use vstd::prelude::*;
use vstd::utf8::{decode_utf8, encode_utf8, valid_utf8};

verus! {

broadcast use vstd::string::group_string_axioms;

/// `std::str::from_utf8`, with its error dropped. Claimed: it succeeds
/// exactly on the byte strings that are valid UTF-8 (vstd's `valid_utf8`),
/// and the string it then returns holds the decoded characters.
#[verifier::external_body]
fn str_from_utf8(v: &[u8]) -> (r: Option<&str>)
    ensures
        r is Some <==> valid_utf8(v@),
        r matches Some(t) ==> t@ == decode_utf8(v@),
{
    std::str::from_utf8(v).ok()
}

/// Decodes `v` as UTF-8; `None` when it is not valid UTF-8.
pub fn decode(v: &[u8]) -> (r: Option<&str>)
    ensures
        r is Some <==> valid_utf8(v@),
        r matches Some(t) ==> t@ == decode_utf8(v@) && encode_utf8(t@) == v@,
{
    let r = str_from_utf8(v);
    proof {
        if valid_utf8(v@) {
            vstd::utf8::decode_utf8_encode_utf8(v@);
        }
    }
    r
}

/// An owned copy of a string slice.
pub fn s(text: &str) -> (r: String)
    ensures
        r@ == text@,
{
    text.to_string()
}

/// What `us` returns for the bytes `b`: their characters when `b` is
/// valid UTF-8, the empty string otherwise.
pub open spec fn utf8_or_empty(b: Seq<u8>) -> Seq<char> {
    if valid_utf8(b) {
        decode_utf8(b)
    } else {
        Seq::empty()
    }
}

/// The bytes as a string slice, or `""` when they are not valid UTF-8.
pub fn us(bytes: &[u8]) -> (r: &str)
    ensures
        r@ == utf8_or_empty(bytes@),
{
    proof {
        reveal_strlit("");
    }
    match decode(bytes) {
        Some(t) => t,
        None => "",
    }
}

/// Text written out as UTF-8 reads back unchanged through `us`.
pub proof fn law_us_reads_back(chars: Seq<char>)
    ensures
        utf8_or_empty(encode_utf8(chars)) == chars,
{
    vstd::utf8::encode_utf8_valid_utf8(chars);
    vstd::utf8::encode_utf8_decode_utf8(chars);
}

/// The characters with the Unicode property White_Space.
pub open spec fn is_white_space(c: char) -> bool {
    ||| '\u{9}' <= c <= '\u{d}'
    ||| c == ' '
    ||| c == '\u{85}'
    ||| c == '\u{a0}'
    ||| c == '\u{1680}'
    ||| '\u{2000}' <= c <= '\u{200a}'
    ||| c == '\u{2028}'
    ||| c == '\u{2029}'
    ||| c == '\u{202f}'
    ||| c == '\u{205f}'
    ||| c == '\u{3000}'
}

pub open spec fn trim_start(cs: Seq<char>) -> Seq<char>
    decreases cs.len(),
{
    if cs.len() > 0 && is_white_space(cs[0]) {
        trim_start(cs.drop_first())
    } else {
        cs
    }
}

pub open spec fn trim_end(cs: Seq<char>) -> Seq<char>
    decreases cs.len(),
{
    if cs.len() > 0 && is_white_space(cs.last()) {
        trim_end(cs.drop_last())
    } else {
        cs
    }
}

/// The characters without leading and trailing white space.
pub open spec fn trim_ws(cs: Seq<char>) -> Seq<char> {
    trim_end(trim_start(cs))
}

/// `str::trim`. Claimed, as its documentation says: the slice without its
/// leading and trailing characters of the Unicode property White_Space.
#[verifier::external_body]
pub(crate) fn trim(s: &str) -> (r: &str)
    ensures
        r@ == trim_ws(s@),
{
    s.trim()
}

} // verus!
