//! Telling the text encoding of a statement: UTF-8, else Windows-1251
//! when the decoded text looks like text.
use crate::parser::Encoding;
use crate::transcode::{legacy_decode, legacy_decoded, LegacyEncoding};
use vstd::prelude::*;
use vstd::utf8::{decode_utf8, valid_utf8};

verus! {

/// Calls `std::str::from_utf8`. Claimed: as its documentation says, the
/// bytes decode exactly when they are valid UTF-8, to the characters they
/// encode.
#[verifier::external_body]
pub(crate) fn utf8_str(v: &[u8]) -> (r: Option<&str>)
    ensures
        r is Some <==> valid_utf8(v@),
        r matches Some(s) ==> s@ == decode_utf8(v@),
{
    std::str::from_utf8(v).ok()
}

/// How many characters at the start of a decoded text are looked at.
pub const SAMPLE_CHARS: usize = 20480;

/// A character that ordinary text in Russian is made of: ASCII letters,
/// digits, whitespace and punctuation, and everything from U+0400 on.
pub open spec fn text_like(c: char) -> bool {
    let u = c as u32;
    ||| 0x30 <= u <= 0x39
    ||| 0x41 <= u <= 0x5A
    ||| 0x61 <= u <= 0x7A
    ||| u == 0x20 || u == 0x09 || u == 0x0A || u == 0x0C || u == 0x0D
    ||| 0x21 <= u <= 0x2F
    ||| 0x3A <= u <= 0x40
    ||| 0x5B <= u <= 0x60
    ||| 0x7B <= u <= 0x7E
    ||| u >= 0x400
}

pub open spec fn count_text_like(s: Seq<char>) -> nat
    decreases s.len(),
{
    if s.len() == 0 {
        0
    } else {
        count_text_like(s.drop_last()) + if text_like(s.last()) {
            1nat
        } else {
            0nat
        }
    }
}

/// More than 95% of the first characters are text-like.
pub open spec fn looks_like_text(s: Seq<char>) -> bool {
    let sample = if s.len() <= SAMPLE_CHARS {
        s
    } else {
        s.take(SAMPLE_CHARS as int)
    };
    sample.len() > 0 && count_text_like(sample) * 100 / sample.len() > 95
}

/// The Windows-1251 reading of the bytes, where it decodes without errors
/// and looks like text.
pub open spec fn cp1251_text(v: Seq<u8>) -> Option<Seq<char>> {
    let (s, had_errors) = legacy_decoded(LegacyEncoding::Windows1251, v);
    if !had_errors && looks_like_text(s) {
        Some(s)
    } else {
        None
    }
}

/// The text of a statement and its encoding: UTF-8 where the bytes are
/// valid UTF-8, else Windows-1251 where that reading looks like text.
pub open spec fn text_of(v: Seq<u8>) -> Option<(Seq<char>, Encoding)> {
    if valid_utf8(v) {
        Some((decode_utf8(v), Encoding::Utf8))
    } else {
        match cp1251_text(v) {
            Some(s) => Some((s, Encoding::Cp1251)),
            None => None,
        }
    }
}

fn is_text_like(c: char) -> (b: bool)
    ensures
        b == text_like(c),
{
    let u = c as u32;
    (0x30 <= u && u <= 0x39) || (0x41 <= u && u <= 0x5A) || (0x61 <= u && u <= 0x7A) || u == 0x20
        || u == 0x09 || u == 0x0A || u == 0x0C || u == 0x0D || (0x21 <= u && u <= 0x2F) || (0x3A
        <= u && u <= 0x40) || (0x5B <= u && u <= 0x60) || (0x7B <= u && u <= 0x7E) || u >= 0x400
}

/// Reads the bytes as Windows-1251 text, where they decode without errors
/// and more than 95% of the first 20480 characters are text-like.
pub fn parse_as_cp1251(v: &[u8]) -> (r: Option<String>)
    ensures
        match cp1251_text(v@) {
            Some(s) => r matches Some(t) && t@ == s,
            None => r is None,
        },
{
    let (text, had_errors) = legacy_decode(LegacyEncoding::Windows1251, v);
    if had_errors {
        return None;
    }
    let chars = crate::text::chars_of(text.as_str());
    let total: usize = if chars.len() <= SAMPLE_CHARS {
        chars.len()
    } else {
        SAMPLE_CHARS
    };
    let ghost sample = chars@.take(total as int);
    let mut good: usize = 0;
    let mut i: usize = 0;
    while i < total
        invariant
            i <= total <= chars.len(),
            total <= SAMPLE_CHARS,
            good <= i,
            good == count_text_like(chars@.take(i as int)),
        decreases total - i,
    {
        assert(chars@.take(i + 1).drop_last() == chars@.take(i as int));
        if is_text_like(chars[i]) {
            good = good + 1;
        }
        i = i + 1;
    }
    assert(chars.len() <= SAMPLE_CHARS ==> chars@.take(total as int) == chars@);
    if total > 0 && good * 100 / total > 95 {
        Some(text)
    } else {
        None
    }
}

/// Reads the bytes as UTF-8 text.
pub fn parse_as_utf8(v: &[u8]) -> (r: Option<&str>)
    ensures
        r is Some <==> valid_utf8(v@),
        r matches Some(s) ==> s@ == decode_utf8(v@),
{
    utf8_str(v)
}

/// The text of a statement and its encoding: UTF-8 first, then
/// Windows-1251.
pub fn parse_text(content: &[u8]) -> (r: Option<(String, Encoding)>)
    ensures
        match text_of(content@) {
            Some((s, e)) => r matches Some(p) && p.0@ == s && p.1 == e,
            None => r is None,
        },
{
    if let Some(s) = parse_as_utf8(content) {
        return Some((s.to_owned(), Encoding::Utf8));
    }
    if let Some(t) = parse_as_cp1251(content) {
        return Some((t, Encoding::Cp1251));
    }
    None
}

/// An ASCII whitespace character, as `u8::is_ascii_whitespace` lists them:
/// space, tab, line feed, form feed and carriage return.
pub open spec fn is_ascii_whitespace(c: char) -> bool {
    c == ' ' || c == '\t' || c == '\n' || c == '\x0C' || c == '\r'
}

/// Whitespace, ASCII letters and digits, and Cyrillic letters are all
/// text-like, so line endings of either kind (`\n` or `\r\n`) count as text.
pub proof fn lemma_text_like_kinds(c: char)
    ensures
        is_ascii_whitespace(c) ==> text_like(c),
        ('0' <= c <= '9' || 'A' <= c <= 'Z' || 'a' <= c <= 'z') ==> text_like(c),
        ('\u{0400}' <= c <= '\u{04FF}') ==> text_like(c),
{
}

proof fn lemma_count_all(s: Seq<char>)
    requires
        forall|i: int| 0 <= i < s.len() ==> text_like(#[trigger] s[i]),
    ensures
        count_text_like(s) == s.len(),
    decreases s.len(),
{
    if s.len() > 0 {
        assert forall|i: int| 0 <= i < s.drop_last().len() implies text_like(#[trigger] s.drop_last()[i]) by {
            assert(s.drop_last()[i] == s[i]);
        }
        lemma_count_all(s.drop_last());
        assert(text_like(s[s.len() - 1]));
    }
}

/// A non-empty text all of whose characters are text-like looks like text;
/// in particular one made of letters, digits and whitespace, with either
/// kind of line ending.
pub proof fn lemma_text_like_looks_like_text(s: Seq<char>)
    requires
        s.len() > 0,
        forall|i: int| 0 <= i < s.len() ==> text_like(#[trigger] s[i]),
    ensures
        looks_like_text(s),
{
    let sample = if s.len() <= SAMPLE_CHARS { s } else { s.take(SAMPLE_CHARS as int) };
    assert forall|i: int| 0 <= i < sample.len() implies text_like(#[trigger] sample[i]) by {
        assert(sample[i] == s[i]);
    }
    lemma_count_all(sample);
    let n = sample.len();
    assert(n * 100 / n == 100) by (nonlinear_arith)
        requires
            n > 0,
    ;
}

} // verus!
