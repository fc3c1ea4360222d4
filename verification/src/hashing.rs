//! Digests and their text forms.
use sha1::Digest;
use vstd::prelude::*;

verus! {

/// The SHA-1 digest of a byte sequence.
pub uninterp spec fn sha1_digest(data: Seq<u8>) -> Seq<u8>;

/// The text that a byte sequence stands for as UTF-8, if it is well formed.
pub uninterp spec fn utf8_text(bytes: Seq<u8>) -> Option<Seq<char>>;

/// `Sha1::digest` of the sha1 crate: the 20-byte SHA-1 digest of `data`.
#[verifier::external_body]
pub(crate) fn sha1_of(data: &[u8]) -> (digest: [u8; 20])
    ensures
        digest@ == sha1_digest(data@),
{
    sha1::Sha1::digest(data).into()
}

/// `hex::encode`: two lowercase hexadecimal digits for each byte, the high
/// half first.
#[verifier::external_body]
pub(crate) fn hex_of(data: &[u8]) -> (text: String)
    ensures
        text@ == hex_chars(data@),
{
    hex::encode(data)
}

/// `String::from_utf8`: the text that the bytes encode, or nothing where they
/// are not well-formed UTF-8.
#[verifier::external_body]
pub(crate) fn text_of_utf8(bytes: &[u8]) -> (r: Option<String>)
    ensures
        match r {
            Some(text) => utf8_text(bytes@) == Some(text@),
            None => utf8_text(bytes@) is None,
        },
{
    String::from_utf8(bytes.to_vec()).ok()
}

/// The lowercase hexadecimal digit for a number below 16.
pub open spec fn hex_digit(n: int) -> char {
    if n == 0 {
        '0'
    } else if n == 1 {
        '1'
    } else if n == 2 {
        '2'
    } else if n == 3 {
        '3'
    } else if n == 4 {
        '4'
    } else if n == 5 {
        '5'
    } else if n == 6 {
        '6'
    } else if n == 7 {
        '7'
    } else if n == 8 {
        '8'
    } else if n == 9 {
        '9'
    } else if n == 10 {
        'a'
    } else if n == 11 {
        'b'
    } else if n == 12 {
        'c'
    } else if n == 13 {
        'd'
    } else if n == 14 {
        'e'
    } else {
        'f'
    }
}

/// The hexadecimal text of a byte sequence: two digits for each byte.
pub open spec fn hex_chars(data: Seq<u8>) -> Seq<char> {
    Seq::new(
        2 * data.len(),
        |i: int|
            if i % 2 == 0 {
                hex_digit(data[i / 2] as int / 16)
            } else {
                hex_digit(data[i / 2] as int % 16)
            },
    )
}

/// The text shown for a byte string: the bytes read as UTF-8 where they are
/// well formed, otherwise the hexadecimal SHA-1 digest of the bytes.
pub open spec fn display_text(bytes: Seq<u8>) -> Seq<char> {
    match utf8_text(bytes) {
        Some(text) => text,
        None => hex_chars(sha1_digest(bytes)),
    }
}

/// The text to show for a byte string.
pub fn read_vecu8_to_string(vec: &[u8]) -> (r: Option<String>)
    ensures
        r is Some,
        r->Some_0@ == display_text(vec@),
{
    match text_of_utf8(vec) {
        Some(text) => Some(text),
        None => {
            let digest = sha1_of(vec);
            Some(hex_of(digest.as_slice()))
        },
    }
}

} // verus!
