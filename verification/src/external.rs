//! Contracts for the functions of std and of outside crates that the library
//! calls, where vstd says nothing of them. Each of these is believed, not
//! proved; each doc comment says what is claimed.
use vstd::prelude::*;
use vstd::utf8::*;

verus! {

/// `char::from_u32`: `Some` exactly for the Unicode scalar values (not above
/// 0x10FFFF and not a surrogate), holding the char with that code point.
pub assume_specification[ char::from_u32 ](i: u32) -> (r: Option<char>)
    ensures
        r is Some <==> is_scalar(i),
        r matches Some(c) ==> c as u32 == i,
;

/// `String::push`: appends one char.
pub assume_specification[ String::push ](string: &mut String, ch: char)
    ensures
        final(string)@ == old(string)@.push(ch),
;

/// What `String::from_utf8_lossy` gives for a byte string: valid UTF-8 is
/// decoded as it is; invalid sequences become U+FFFD.
pub uninterp spec fn utf8_lossy_decoded(bytes: Seq<u8>) -> Seq<char>;

/// Calls `String::from_utf8_lossy`. Claimed: the result is a function of the
/// bytes alone, and equals the plain decoding where the bytes are valid
/// UTF-8. How invalid sequences are replaced is not stated.
#[verifier::external_body]
pub(crate) fn utf8_lossy(bytes: &[u8]) -> (s: String)
    ensures
        s@ == utf8_lossy_decoded(bytes@),
        valid_utf8(bytes@) ==> s@ == decode_utf8(bytes@),
{
    String::from_utf8_lossy(bytes).into_owned()
}

/// The lowercase mapping of a char, as `char::to_lowercase` yields it.
pub uninterp spec fn lowercase_of(c: char) -> Seq<char>;

/// Calls `char::to_lowercase` and collects what it yields. Claimed: the
/// result is a function of the char alone and is never empty, and ASCII
/// letters map to their lowercase letter while other ASCII chars map to
/// themselves. The Unicode tables beyond ASCII are not stated.
#[verifier::external_body]
pub(crate) fn char_to_lowercase(c: char) -> (r: Vec<char>)
    ensures
        r@ == lowercase_of(c),
        r@.len() >= 1,
        ('A' <= c <= 'Z') ==> r@ == seq![((c as u32) + 32) as char],
        ((c as u32) < 128 && !('A' <= c <= 'Z')) ==> r@ == seq![c],
{
    c.to_lowercase().collect()
}

/// The text that `yore`'s CP1252 code page decodes a byte string to.
pub uninterp spec fn cp1252_decoded(bytes: Seq<u8>) -> Seq<char>;

/// Calls `yore::code_pages::CP1252::decode`. Claimed, from its source: one
/// char per byte (the code page is complete), and bytes below 0x80 decode
/// to the char with the same value. The table for the upper half is not
/// stated.
#[verifier::external_body]
pub(crate) fn cp1252_decode(bytes: &[u8]) -> (s: String)
    ensures
        s@ == cp1252_decoded(bytes@),
        s@.len() == bytes@.len(),
        forall|i: int| 0 <= i < bytes@.len() && bytes@[i] < 0x80 ==> s@[i] == (bytes@[i] as char),
{
    yore::code_pages::CP1252.decode(bytes).into_owned()
}

/// What `encoding_rs::SHIFT_JIS.decode` gives for a byte string: the text,
/// the name of the encoding actually used (a byte-order mark can override
/// Shift_JIS), and whether malformed sequences were replaced.
pub uninterp spec fn shift_jis_decoded(bytes: Seq<u8>) -> (Seq<char>, Seq<u8>, bool);

/// Calls `encoding_rs::SHIFT_JIS.decode` and takes the name of the encoding
/// it used. Claimed: the three results are those named by
/// `shift_jis_decoded`, a function of the bytes alone. Nothing more is
/// stated of the decoding table or of the byte-order-mark sniffing.
#[verifier::external_body]
pub(crate) fn shift_jis_decode(bytes: &[u8]) -> (r: (String, Vec<u8>, bool))
    ensures
        (r.0@, r.1@, r.2) == shift_jis_decoded(bytes@),
{
    let (text, used, had_errors) = encoding_rs::SHIFT_JIS.decode(bytes);
    (text.into_owned(), used.name().as_bytes().to_vec(), had_errors)
}

/// Calls `std::str::from_utf8`. Claimed, as its documentation says: the
/// text is returned exactly when the bytes are valid UTF-8, and it is their
/// decoding.
#[verifier::external_body]
pub(crate) fn utf8_strict(bytes: &[u8]) -> (r: Option<String>)
    ensures
        r is Some <==> valid_utf8(bytes@),
        r matches Some(s) ==> s@ == decode_utf8(bytes@),
{
    std::str::from_utf8(bytes).ok().map(|s| s.to_owned())
}

} // verus!
