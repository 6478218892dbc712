use vstd::prelude::*;

verus! {

/// Whether the bytes `b` are a valid UTF-8 encoding of some text.
pub uninterp spec fn is_utf8(b: Seq<u8>) -> bool;

/// The text that the UTF-8 bytes `b` decode to.
pub uninterp spec fn utf8_of(b: Seq<u8>) -> Seq<char>;

/// The UTF-8 encoding of the text `s`.
pub uninterp spec fn bytes_of(s: Seq<char>) -> Seq<u8>;

/// Relies on `String::from_utf8`: it succeeds exactly on valid UTF-8 and
/// decodes it; encoding the decoded text yields the input bytes again,
/// and the byte 0 appears exactly where the character NUL does.
#[verifier::external_body]
pub fn decode_utf8(b: &[u8]) -> (r: Option<String>)
    ensures
        match r {
            Some(s) => is_utf8(b@) && s@ == utf8_of(b@) && bytes_of(s@) == b@
                && (s@.contains('\0') <==> b@.contains(0))
                && (s@.len() == 0 <==> b@.len() == 0),
            None => !is_utf8(b@),
        },
{
    String::from_utf8(b.to_vec()).ok()
}

/// Relies on `str::as_bytes`: it returns the UTF-8 encoding of the text;
/// decoding those bytes yields the text again, and the byte 0 appears
/// exactly where the character NUL does.
#[verifier::external_body]
pub fn encode_utf8(s: &str) -> (r: Vec<u8>)
    ensures
        r@ == bytes_of(s@),
        is_utf8(r@),
        utf8_of(r@) == s@,
        (s@.contains('\0') <==> r@.contains(0)),
        (s@.len() == 0 <==> r@.len() == 0),
{
    s.as_bytes().to_vec()
}

/// Relies on `str::chars`: it yields the characters of the text in order.
#[verifier::external_body]
pub fn str_chars(s: &str) -> (r: Vec<char>)
    ensures
        r@ == s@,
{
    s.chars().collect()
}

/// Relies on `FromIterator for String`: collecting characters builds the
/// string of exactly those characters.
#[verifier::external_body]
pub fn chars_to_string(v: &[char]) -> (r: String)
    ensures
        r@ == v@,
{
    v.iter().collect()
}

} // verus!
