//! Text and its bytes: every `String` here holds UTF-8, and the codecs read and write bytes.

use vstd::prelude::*;
use vstd::utf8::*;

use crate::bytes::bytes_eq;

verus! {

/// The bytes that spell `chars` in UTF-8.
pub open spec fn utf8(chars: Seq<char>) -> Seq<u8> {
    encode_utf8(chars)
}

/// The text that `bytes` spell, where they are UTF-8.
pub open spec fn text_of(bytes: Seq<u8>) -> Option<Seq<char>> {
    if valid_utf8(bytes) {
        Some(decode_utf8(bytes))
    } else {
        None
    }
}

/// The texts of a list of strings.
pub open spec fn texts(strings: Seq<String>) -> Seq<Seq<char>> {
    Seq::new(strings.len(), |i: int| strings[i]@)
}

/// Text comes back from its own bytes.
pub proof fn lemma_text_of_utf8(chars: Seq<char>)
    ensures
        text_of(utf8(chars)) == Some(chars),
{
    encode_utf8_valid_utf8(chars);
    encode_utf8_decode_utf8(chars);
}

/// The text that valid bytes spell is spelled by those bytes.
pub proof fn lemma_utf8_text_of(bytes: Seq<u8>)
    requires
        valid_utf8(bytes),
    ensures
        utf8(decode_utf8(bytes)) == bytes,
{
    decode_utf8_encode_utf8(bytes);
}

/// Two texts with the same bytes are the same text.
pub proof fn lemma_utf8_injective(a: Seq<char>, b: Seq<char>)
    requires
        utf8(a) == utf8(b),
    ensures
        a == b,
{
    encode_utf8_decode_utf8(a);
    encode_utf8_decode_utf8(b);
}

/// `String::from_utf8` of std: the string that the bytes spell, or `None` where they are
/// not UTF-8. Trusted: what std documents of it, with vstd's definition of UTF-8.
#[verifier::external_body]
pub(crate) fn string_from_utf8(bytes: Vec<u8>) -> (r: Option<String>)
    ensures
        match r {
            Some(s) => text_of(bytes@) == Some(s@),
            None => text_of(bytes@) is None,
        },
{
    String::from_utf8(bytes).ok()
}

/// The bytes of text in ASCII are its characters, one byte each.
pub proof fn lemma_ascii_utf8(chars: Seq<char>)
    requires
        is_ascii_chars(chars),
    ensures
        utf8(chars).len() == chars.len(),
        forall|i: int| 0 <= i < chars.len() ==> #[trigger] utf8(chars)[i] == chars[i] as u8,
{
    is_ascii_chars_encode_utf8(chars);
}

/// The bytes of one character that is not the ASCII character `b` do not hold the byte `b`.
proof fn lemma_scalar_bytes(c: char, b: u8)
    requires
        b < 128,
        c as u32 != b as u32,
    ensures
        encode_scalar(c as u32).len() > 0,
        forall|i: int|
            0 <= i < encode_scalar(c as u32).len() ==> (#[trigger] encode_scalar(c as u32)[i]) != b,
{
    let v = c as u32;
    char_is_scalar(c);
    if has_width_1_encoding(v) {
        assert((v & 0x7F) as u8 != b) by (bit_vector)
            requires
                v <= 0x7F,
                b < 128,
                v != b as u32,
        ;
    } else if has_width_2_encoding(v) {
        assert(0xC0u8 | ((v >> 6) & 0x1F) as u8 >= 0x80) by (bit_vector);
        assert(0x80u8 | (v & 0x3F) as u8 >= 0x80) by (bit_vector);
    } else if has_width_3_encoding(v) {
        assert(0xE0u8 | ((v >> 12) & 0x0F) as u8 >= 0x80) by (bit_vector);
        assert(0x80u8 | ((v >> 6) & 0x3F) as u8 >= 0x80) by (bit_vector);
        assert(0x80u8 | (v & 0x3F) as u8 >= 0x80) by (bit_vector);
    } else {
        assert(0xF0u8 | ((v >> 18) & 0x7) as u8 >= 0x80) by (bit_vector);
        assert(0x80u8 | ((v >> 12) & 0x3F) as u8 >= 0x80) by (bit_vector);
        assert(0x80u8 | ((v >> 6) & 0x3F) as u8 >= 0x80) by (bit_vector);
        assert(0x80u8 | (v & 0x3F) as u8 >= 0x80) by (bit_vector);
    }
}

/// The bytes of text that does not hold the ASCII character `b` do not hold the byte `b`,
/// and text that is not empty has bytes.
pub proof fn lemma_utf8_without(chars: Seq<char>, b: u8)
    requires
        b < 128,
        forall|j: int| 0 <= j < chars.len() ==> (#[trigger] chars[j]) as u32 != b as u32,
    ensures
        forall|i: int| 0 <= i < utf8(chars).len() ==> (#[trigger] utf8(chars)[i]) != b,
        chars.len() > 0 ==> utf8(chars).len() > 0,
    decreases chars.len(),
{
    if chars.len() > 0 {
        let rest = chars.drop_first();
        assert forall|j: int| 0 <= j < rest.len() implies (#[trigger] rest[j]) as u32
            != b as u32 by {
            assert(rest[j] == chars[j + 1]);
        }
        lemma_utf8_without(rest, b);
        lemma_scalar_bytes(chars[0], b);
        let head = encode_scalar(chars[0] as u32);
        assert forall|i: int| 0 <= i < utf8(chars).len() implies (#[trigger] utf8(chars)[i])
            != b by {
            if i < head.len() {
                assert(utf8(chars)[i] == head[i]);
            } else {
                assert(utf8(chars)[i] == utf8(rest)[i - head.len()]);
            }
        }
    }
}

/// Text without the ASCII character `c` has no character with the number of `c`, and its
/// bytes do not hold the byte of `c`.
pub proof fn lemma_utf8_without_char(chars: Seq<char>, c: char, b: u8)
    requires
        b < 128,
        c as u32 == b as u32,
        forall|j: int| 0 <= j < chars.len() ==> (#[trigger] chars[j]) != c,
    ensures
        forall|i: int| 0 <= i < utf8(chars).len() ==> (#[trigger] utf8(chars)[i]) != b,
        chars.len() > 0 ==> utf8(chars).len() > 0,
{
    assert forall|j: int| 0 <= j < chars.len() implies (#[trigger] chars[j]) as u32
        != b as u32 by {
        if chars[j] as u32 == b as u32 {
            char_u32_cast(chars[j], b as u32);
            char_u32_cast(c, b as u32);
        }
    }
    lemma_utf8_without(chars, b);
}

/// Whether two strings hold the same text.
pub fn str_eq(a: &str, b: &str) -> (r: bool)
    ensures
        r == (a@ == b@),
{
    let r = bytes_eq(a.as_bytes(), b.as_bytes());
    proof {
        if r {
            lemma_utf8_injective(a@, b@);
        }
    }
    r
}

} // verus!
