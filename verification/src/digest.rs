//! Digests: the 160-bit hash of a byte string and its 40 hexadecimal digits.

use vstd::prelude::*;

verus! {

/// The hexadecimal digit, in lower case, for a number below 16.
pub open spec fn hex_digit(n: int) -> char {
    if n < 10 {
        ((48 + n) as u8) as char
    } else {
        ((87 + n) as u8) as char
    }
}

/// Two hexadecimal digits in lower case for each byte, the high half first.
pub open spec fn to_hex(bytes: Seq<u8>) -> Seq<char> {
    Seq::new(
        2 * bytes.len(),
        |i: int|
            if i % 2 == 0 {
                hex_digit(bytes[i / 2] as int / 16)
            } else {
                hex_digit(bytes[i / 2] as int % 16)
            },
    )
}

/// The number that a hexadecimal digit of either case stands for.
pub open spec fn hex_value(c: char) -> Option<int> {
    let n = c as int;
    if 48 <= n <= 57 {
        Some(n - 48)
    } else if 97 <= n <= 102 {
        Some(n - 87)
    } else if 65 <= n <= 70 {
        Some(n - 55)
    } else {
        None
    }
}

/// Whether `s` is an even number of hexadecimal digits.
pub open spec fn is_hex(s: Seq<char>) -> bool {
    s.len() % 2 == 0 && forall|i: int| 0 <= i < s.len() ==> (#[trigger] hex_value(s[i])) is Some
}

/// The bytes that the hexadecimal digits `s` spell.
pub open spec fn from_hex(s: Seq<char>) -> Seq<u8> {
    Seq::new(s.len() / 2, |i: int| (hex_value(s[2 * i])->0 * 16 + hex_value(s[2 * i + 1])->0) as u8)
}

/// Whether `s` is the 40 lower-case hexadecimal digits of a digest.
pub open spec fn is_digest(s: Seq<char>) -> bool {
    s.len() == 40 && is_hex(s) && to_hex(from_hex(s)) == s
}

/// The digits of bytes are hexadecimal, and spell those bytes.
pub proof fn lemma_hex_round_trip(bytes: Seq<u8>)
    ensures
        is_hex(to_hex(bytes)),
        from_hex(to_hex(bytes)) == bytes,
        to_hex(bytes).len() == 2 * bytes.len(),
{
    let s = to_hex(bytes);
    assert forall|i: int| 0 <= i < s.len() implies (#[trigger] hex_value(s[i])) is Some by {
        let b = bytes[i / 2] as int;
        assert(0 <= b / 16 < 16 && 0 <= b % 16 < 16);
    }
    assert forall|i: int| 0 <= i < bytes.len() implies from_hex(s)[i] == bytes[i] by {
        let b = bytes[i] as int;
        assert(0 <= b / 16 < 16 && 0 <= b % 16 < 16);
        assert((2 * i) / 2 == i && (2 * i) % 2 == 0);
        assert((2 * i + 1) / 2 == i && (2 * i + 1) % 2 == 1);
        assert(s[2 * i] == hex_digit(b / 16));
        assert(s[2 * i + 1] == hex_digit(b % 16));
        assert(hex_value(hex_digit(b / 16)) == Some(b / 16));
        assert(hex_value(hex_digit(b % 16)) == Some(b % 16));
        assert(b / 16 * 16 + b % 16 == b);
    }
    assert(from_hex(s) =~= bytes);
}

/// The digits of 20 bytes are a digest.
pub proof fn lemma_to_hex_is_digest(bytes: Seq<u8>)
    requires
        bytes.len() == 20,
    ensures
        is_digest(to_hex(bytes)),
{
    lemma_hex_round_trip(bytes);
}

/// Hexadecimal digits are ASCII: their bytes are as many as the digits.
pub proof fn lemma_hex_is_ascii(s: Seq<char>)
    requires
        forall|i: int| 0 <= i < s.len() ==> (#[trigger] hex_value(s[i])) is Some,
    ensures
        vstd::utf8::is_ascii_chars(s),
        crate::text::utf8(s).len() == s.len(),
        forall|i: int| 0 <= i < s.len() ==> #[trigger] crate::text::utf8(s)[i] == s[i] as u8,
{
    assert forall|i: int| 0 <= i < s.len() implies '\0' <= #[trigger] s[i] <= '\u{7f}' by {
        assert(hex_value(s[i]) is Some);
    }
    crate::text::lemma_ascii_utf8(s);
}

/// A digest has 40 bytes.
pub proof fn lemma_digest_bytes(s: Seq<char>)
    requires
        is_digest(s),
    ensures
        crate::text::utf8(s).len() == 40,
{
    lemma_hex_is_ascii(s);
}

/// The SHA-1 hash of a byte string: 20 bytes that depend on the bytes alone.
pub uninterp spec fn sha1_digest(data: Seq<u8>) -> Seq<u8>;

/// `Sha1::digest` of the crate sha1. Trusted: the result is the hash of the input, a
/// function of the input alone, and 20 bytes long.
#[verifier::external_body]
pub(crate) fn sha1_of(data: &[u8]) -> (r: Vec<u8>)
    ensures
        r@ == sha1_digest(data@),
        r@.len() == 20,
{
    <sha1::Sha1 as sha1::Digest>::digest(data).to_vec()
}

/// `hex::encode`: two lower-case hexadecimal digits for each byte. Trusted: the result is
/// `to_hex` of the input.
#[verifier::external_body]
pub(crate) fn hex_encode(data: &[u8]) -> (r: String)
    ensures
        r@ == to_hex(data@),
{
    hex::encode(data)
}

/// `hex::decode`: the bytes that hexadecimal digits of either case spell. Trusted: it
/// succeeds exactly on an even number of hexadecimal digits, with `from_hex` of them.
#[verifier::external_body]
pub(crate) fn hex_decode(digits: &str) -> (r: Option<Vec<u8>>)
    ensures
        match r {
            Some(bytes) => is_hex(digits@) && bytes@ == from_hex(digits@),
            None => !is_hex(digits@),
        },
{
    hex::decode(digits).ok()
}

/// The digest of a byte string as 40 hexadecimal digits.
pub open spec fn digest_hex(data: Seq<u8>) -> Seq<char> {
    to_hex(sha1_digest(data))
}

/// Hashes `data` and writes the digest in hexadecimal.
pub fn hash_hex(data: &[u8]) -> (r: String)
    ensures
        r@ == digest_hex(data@),
        is_digest(r@),
{
    let raw = sha1_of(data);
    proof {
        lemma_to_hex_is_digest(raw@);
    }
    hex_encode(raw.as_slice())
}

} // verus!
