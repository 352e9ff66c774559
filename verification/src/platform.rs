//! Text from ssh's output, and the handle on an ssh process tree.

use vstd::prelude::*;

verus! {

/// An ssh process together with everything it starts (ProxyJump and
/// ProxyCommand helpers): on Windows the job object it was put in, on Unix
/// its process group. Zero and `None` mean there is nothing to end but ssh.
pub struct ProcTree {
    pub job: usize,
    pub pgid: Option<i32>,
}

/// What `String::from_utf8_lossy` makes of `bytes`: invalid sequences
/// replaced by U+FFFD.
pub uninterp spec fn utf8_lossy(bytes: Seq<u8>) -> Seq<char>;

/// `std::str::from_utf8`: the text `bytes` encode, when they are valid
/// UTF-8.
#[verifier::external_body]
fn from_utf8(bytes: &[u8]) -> (r: Option<String>)
    ensures
        r is Some <==> vstd::utf8::valid_utf8(bytes@),
        r matches Some(s) ==> s@ == vstd::utf8::decode_utf8(bytes@),
{
    match std::str::from_utf8(bytes) {
        Ok(s) => Some(s.to_string()),
        Err(_) => None,
    }
}

/// `String::from_utf8_lossy`: the text of `bytes` with each invalid
/// sequence replaced by U+FFFD, named by `utf8_lossy`.
#[verifier::external_body]
fn from_utf8_lossy(bytes: &[u8]) -> (r: String)
    ensures
        r@ == utf8_lossy(bytes@),
{
    String::from_utf8_lossy(bytes).into_owned()
}

/// Whether `codepage::to_encoding` knows the Windows code page `cp`.
pub uninterp spec fn code_page_known(cp: u16) -> bool;

/// What the encoding of code page `cp` decodes `bytes` to.
pub uninterp spec fn code_page_text(cp: u16, bytes: Seq<u8>) -> Seq<char>;

/// `codepage::to_encoding(cp)`, and when it knows the code page,
/// `Encoding::decode` of `bytes` with it (malformed sequences replaced).
/// Both depend on `cp` and `bytes` alone; they are named by
/// `code_page_known` and `code_page_text`.
#[verifier::external_body]
fn decode_code_page(cp: u16, bytes: &[u8]) -> (r: Option<String>)
    ensures
        r is Some <==> code_page_known(cp),
        r matches Some(s) ==> s@ == code_page_text(cp, bytes@),
{
    match codepage::to_encoding(cp) {
        Some(enc) => Some(enc.decode(bytes).0.into_owned()),
        None => None,
    }
}

/// Text for bytes that are not UTF-8: in the system's ANSI code page
/// `acp` when there is one (Windows) and it is known, else with the invalid
/// sequences replaced.
pub open spec fn fallback_spec(bytes: Seq<u8>, acp: Option<u16>) -> Seq<char> {
    match acp {
        Some(cp) => if code_page_known(cp) {
            code_page_text(cp, bytes)
        } else {
            utf8_lossy(bytes)
        },
        None => utf8_lossy(bytes),
    }
}

/// A line of ssh output as text, given the system's ANSI code page: UTF-8
/// when it is valid UTF-8, else `fallback_spec`.
pub open spec fn decode_in_spec(bytes: Seq<u8>, acp: Option<u16>) -> Seq<char> {
    if vstd::utf8::valid_utf8(bytes) {
        vstd::utf8::decode_utf8(bytes)
    } else {
        fallback_spec(bytes, acp)
    }
}

/// A line of ssh output as text where there is no ANSI code page: UTF-8
/// when it is valid UTF-8, else with the invalid sequences replaced.
pub open spec fn decode_spec(bytes: Seq<u8>) -> Seq<char> {
    decode_in_spec(bytes, None)
}

/// Decode a line of ssh output; `acp` is the ANSI code page on Windows
/// (`GetACP`), `None` elsewhere.
pub fn decode_in(bytes: &[u8], acp: Option<u16>) -> (r: String)
    ensures
        r@ == decode_in_spec(bytes@, acp),
{
    match from_utf8(bytes) {
        Some(s) => s,
        None => decode_fallback(bytes, acp),
    }
}

/// Decode a line of ssh output on a system without an ANSI code page.
pub fn decode(bytes: &[u8]) -> (r: String)
    ensures
        r@ == decode_spec(bytes@),
{
    decode_in(bytes, None)
}

/// Text for bytes that are not UTF-8 (see `fallback_spec`).
pub fn decode_fallback(bytes: &[u8], acp: Option<u16>) -> (r: String)
    ensures
        r@ == fallback_spec(bytes@, acp),
{
    match acp {
        Some(cp) => match decode_code_page(cp, bytes) {
            Some(s) => s,
            None => from_utf8_lossy(bytes),
        },
        None => from_utf8_lossy(bytes),
    }
}

} // verus!
