//! Decoding a statement file in whatever encoding it has, and encoding
//! text back to it.
use crate::parser::decode::utf8_str;
use crate::text::{chars_eq, chars_of};
use vstd::prelude::*;
use vstd::utf8::{decode_utf8, encode_utf8, valid_utf8};

verus! {

/// The single-byte Cyrillic encodings that statement files come in.
#[derive(Clone, Copy, Debug, PartialEq, Eq, Structural)]
pub enum LegacyEncoding {
    Windows1251,
    Koi8R,
}

/// What `encoding_rs::Encoding::decode` gives for the encoding and the
/// bytes: the decoded text and whether malformed input was replaced.
pub uninterp spec fn legacy_decoded(enc: LegacyEncoding, bytes: Seq<u8>) -> (Seq<char>, bool);

/// What `encoding_rs::Encoding::encode` gives for the encoding and the text:
/// its bytes.
pub uninterp spec fn legacy_encoded(enc: LegacyEncoding, text: Seq<char>) -> Seq<u8>;

/// What `String::from_utf8_lossy` gives for the bytes.
pub uninterp spec fn utf8_lossy(bytes: Seq<u8>) -> Seq<char>;

/// Calls `encoding_rs::Encoding::decode` on `WINDOWS_1251` or `KOI8_R`.
/// Claimed: the text and the error flag are `legacy_decoded` of the encoding
/// and the bytes.
#[verifier::external_body]
pub(crate) fn legacy_decode(enc: LegacyEncoding, v: &[u8]) -> (r: (String, bool))
    ensures
        (r.0@, r.1) == legacy_decoded(enc, v@),
{
    let codec = match enc {
        LegacyEncoding::Windows1251 => encoding_rs::WINDOWS_1251,
        LegacyEncoding::Koi8R => encoding_rs::KOI8_R,
    };
    let (text, _, had_errors) = codec.decode(v);
    (text.into_owned(), had_errors)
}

/// Calls `encoding_rs::Encoding::encode` on `WINDOWS_1251` or `KOI8_R`.
/// Claimed: the bytes are `legacy_encoded` of the encoding and the text.
#[verifier::external_body]
pub(crate) fn legacy_encode(enc: LegacyEncoding, s: &str) -> (r: Vec<u8>)
    ensures
        r@ == legacy_encoded(enc, s@),
{
    let codec = match enc {
        LegacyEncoding::Windows1251 => encoding_rs::WINDOWS_1251,
        LegacyEncoding::Koi8R => encoding_rs::KOI8_R,
    };
    codec.encode(s).0.into_owned()
}

/// Calls `String::from_utf8_lossy`. Claimed: the text is `utf8_lossy` of the
/// bytes.
#[verifier::external_body]
pub(crate) fn lossy_utf8(v: &[u8]) -> (r: String)
    ensures
        r@ == utf8_lossy(v@),
{
    String::from_utf8_lossy(v).into_owned()
}

/// A decoding worth keeping: not empty, and not only replacement characters.
pub open spec fn usable(s: Seq<char>) -> bool {
    s.len() > 0 && exists|i: int| 0 <= i < s.len() && s[i] != '\u{fffd}'
}

/// The text of a file and the name of its encoding: UTF-8, else
/// Windows-1251, else KOI8-R, where that decoding is usable, else a lossy
/// UTF-8 reading under the name `unknown`.
pub open spec fn any_decoding(v: Seq<u8>) -> (Seq<char>, Seq<char>) {
    if valid_utf8(v) {
        (decode_utf8(v), "utf-8"@)
    } else if usable(legacy_decoded(LegacyEncoding::Windows1251, v).0) {
        (legacy_decoded(LegacyEncoding::Windows1251, v).0, "cp1251"@)
    } else if usable(legacy_decoded(LegacyEncoding::Koi8R, v).0) {
        (legacy_decoded(LegacyEncoding::Koi8R, v).0, "koi8-r"@)
    } else {
        (utf8_lossy(v), "unknown"@)
    }
}

fn is_usable(s: &String) -> (r: bool)
    ensures
        r == usable(s@),
{
    let c = chars_of(s.as_str());
    if c.len() == 0 {
        return false;
    }
    let mut i: usize = 0;
    while i < c.len()
        invariant
            i <= c.len(),
            c@ == s@,
            forall|j: int| 0 <= j < i ==> c@[j] == '\u{fffd}',
        decreases c.len() - i,
    {
        if c[i] != '\u{fffd}' {
            return true;
        }
        i = i + 1;
    }
    false
}

/// Decodes a file: UTF-8, else Windows-1251, else KOI8-R, else lossy UTF-8;
/// gives the text and the name of the encoding.
pub fn decode_any_encoding(input: &[u8]) -> (r: (String, &'static str))
    ensures
        (r.0@, r.1@) == any_decoding(input@),
{
    if let Some(s) = utf8_str(input) {
        return (s.to_owned(), "utf-8");
    }
    let (w, _) = legacy_decode(LegacyEncoding::Windows1251, input);
    if is_usable(&w) {
        return (w, "cp1251");
    }
    let (k, _) = legacy_decode(LegacyEncoding::Koi8R, input);
    if is_usable(&k) {
        return (k, "koi8-r");
    }
    (lossy_utf8(input), "unknown")
}

/// The bytes of a text in the encoding named as `decode_any_encoding` names
/// it: Windows-1251 for `cp1251`, KOI8-R for `koi8-r`, UTF-8 otherwise.
pub open spec fn encoded_as(text: Seq<char>, name: Seq<char>) -> Seq<u8> {
    if name == "cp1251"@ {
        legacy_encoded(LegacyEncoding::Windows1251, text)
    } else if name == "koi8-r"@ {
        legacy_encoded(LegacyEncoding::Koi8R, text)
    } else {
        encode_utf8(text)
    }
}

/// Encodes a text in the encoding of the given name.
pub fn encode_as(text: &str, name: &str) -> (r: Vec<u8>)
    ensures
        r@ == encoded_as(text@, name@),
{
    let n = chars_of(name);
    if chars_eq(&n, &chars_of("cp1251")) {
        legacy_encode(LegacyEncoding::Windows1251, text)
    } else if chars_eq(&n, &chars_of("koi8-r")) {
        legacy_encode(LegacyEncoding::Koi8R, text)
    } else {
        let b = text.as_bytes();
        let mut r: Vec<u8> = Vec::new();
        let mut i: usize = 0;
        while i < b.len()
            invariant
                i <= b.len(),
                r@ == b@.take(i as int),
            decreases b.len() - i,
        {
            r.push(b[i]);
            assert(b@.take(i + 1) == b@.take(i as int).push(b@[i as int]));
            i = i + 1;
        }
        assert(b@.take(b.len() as int) == b@);
        r
    }
}

} // verus!
