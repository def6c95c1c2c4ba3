//! Byte codecs: hex (through the `hex` crate), SHA-256 (through `sha2`),
//! and percent-encoding for URLs.

use vstd::prelude::*;
use crate::text::{string_of};

verus! {

// ----- hex -----

pub open spec fn is_hex_byte(b: u8) -> bool {
    (48 <= b <= 57) || (97 <= b <= 102) || (65 <= b <= 70)
}

/// Value of a hex digit byte.
pub open spec fn hex_val(b: u8) -> u8 {
    if 48 <= b <= 57 {
        (b - 48) as u8
    } else if 97 <= b <= 102 {
        (b - 87) as u8
    } else {
        (b - 55) as u8
    }
}

/// Hex text to bytes: defined exactly when the text has an even number of
/// bytes that are all hex digits (either case); each pair gives one byte.
pub open spec fn spec_hex_decode(s: Seq<u8>) -> Option<Seq<u8>>
    decreases s.len(),
{
    if s.len() % 2 != 0 {
        None
    } else if s.len() == 0 {
        Some(Seq::empty())
    } else {
        let n = s.len() as int;
        match spec_hex_decode(s.subrange(0, n - 2)) {
            Some(p) => if is_hex_byte(s[n - 2]) && is_hex_byte(s[n - 1]) {
                Some(p.push((hex_val(s[n - 2]) * 16 + hex_val(s[n - 1])) as u8))
            } else {
                None
            },
            None => None,
        }
    }
}

/// Lower-case hex digit for a value below 16.
pub open spec fn nibble_char(n: u8) -> char {
    if n < 10 {
        (48 + n) as char
    } else {
        (87 + n) as char
    }
}

/// Upper-case hex digit for a value below 16.
pub open spec fn nibble_upper(n: u8) -> char {
    if n < 10 {
        (48 + n) as char
    } else {
        (55 + n) as char
    }
}

/// Lower-case hex text of `b`, two digits per byte, high nibble first.
pub open spec fn spec_hex_lower(b: Seq<u8>) -> Seq<char>
    decreases b.len(),
{
    if b.len() == 0 {
        Seq::empty()
    } else {
        spec_hex_lower(b.drop_last()).push(nibble_char(b.last() / 16)).push(
            nibble_char(b.last() % 16),
        )
    }
}

/// `hex::decode`: the bytes that hex text `s` spells, or `None` on odd length or a
/// non-hex byte. The hex crate's `FromHex for Vec<u8>` rejects odd lengths and
/// decodes each byte pair with `val` (0-9, a-f, A-F).
#[verifier::external_body]
pub(crate) fn hex_decode(s: &str) -> (r: Option<Vec<u8>>)
    ensures
        r is Some <==> spec_hex_decode(str_bytes(s@)) is Some,
        r matches Some(v) ==> v@ == spec_hex_decode(str_bytes(s@))->0,
{
    hex::decode(s).ok()
}

/// `hex::encode`: lower-case hex text of `data` (the crate's `HEX_CHARS_LOWER`
/// table, high nibble first).
#[verifier::external_body]
pub(crate) fn hex_encode(data: &[u8]) -> (r: String)
    ensures
        r@ == spec_hex_lower(data@),
{
    hex::encode(data)
}

pub fn hex_digit_char(n: u8) -> (c: char)
    requires
        n < 16,
    ensures
        c == nibble_char(n),
{
    if n < 10 {
        let b: u8 = 48 + n;
        b as char
    } else {
        let b: u8 = 87 + n;
        b as char
    }
}

pub fn hex_upper_char(n: u8) -> (c: char)
    requires
        n < 16,
    ensures
        c == nibble_upper(n),
{
    if n < 10 {
        let b: u8 = 48 + n;
        b as char
    } else {
        let b: u8 = 55 + n;
        b as char
    }
}

/// Lower-case hex of `bytes`, written out digit by digit.
pub fn hex_lower(bytes: &[u8]) -> (r: String)
    ensures
        r@ == spec_hex_lower(bytes@),
{
    let mut out: Vec<char> = Vec::new();
    let mut i: usize = 0;
    while i < bytes.len()
        invariant
            i <= bytes@.len(),
            out@ == spec_hex_lower(bytes@.take(i as int)),
        decreases bytes@.len() - i,
    {
        let b = bytes[i];
        out.push(hex_digit_char(b / 16));
        out.push(hex_digit_char(b % 16));
        assert(bytes@.take(i + 1).drop_last() =~= bytes@.take(i as int));
        i = i + 1;
    }
    assert(bytes@.take(bytes@.len() as int) =~= bytes@);
    string_of(out.as_slice())
}

/// `hex::decode` followed by a length check.
pub open spec fn spec_hex_fixed(s: Seq<char>, n: nat) -> Option<Seq<u8>> {
    match spec_hex_decode(crate::codec::str_bytes(s)) {
        Some(v) => if v.len() == n {
            Some(v)
        } else {
            None
        },
        None => None,
    }
}

/// The UTF-8 bytes of a char sequence.
pub open spec fn str_bytes(s: Seq<char>) -> Seq<u8> {
    vstd::utf8::encode_utf8(s)
}

pub fn hex_fixed(hex: &str, n: usize) -> (r: Option<Vec<u8>>)
    ensures
        r matches Some(v) ==> spec_hex_fixed(hex@, n as nat) == Some(v@),
        r is None ==> spec_hex_fixed(hex@, n as nat) is None,
{
    match hex_decode(hex) {
        Some(v) => if v.len() == n {
            Some(v)
        } else {
            None
        },
        None => None,
    }
}

/// Hex text decodes back to the bytes it was written from.
pub proof fn lemma_hex_roundtrip(b: Seq<u8>)
    ensures
        spec_hex_decode(str_bytes(spec_hex_lower(b))) == Some(b),
        str_bytes(spec_hex_lower(b)).len() == 2 * b.len(),
    decreases b.len(),
{
    if b.len() == 0 {
        assert(spec_hex_lower(b) =~= Seq::<char>::empty());
        assert(str_bytes(Seq::<char>::empty()) =~= Seq::<u8>::empty());
    } else {
        let p = b.drop_last();
        let x = b.last();
        lemma_hex_roundtrip(p);
        let hi = nibble_char(x / 16);
        let lo = nibble_char(x % 16);
        lemma_nibble_char(x / 16);
        lemma_nibble_char(x % 16);
        let h0 = spec_hex_lower(p);
        crate::text::lemma_utf8_push_ascii(h0, hi);
        crate::text::lemma_utf8_push_ascii(h0.push(hi), lo);
        let s = str_bytes(spec_hex_lower(b));
        assert(s == str_bytes(h0).push((hi as u32) as u8).push((lo as u32) as u8));
        let n = s.len() as int;
        assert(s.subrange(0, n - 2) =~= str_bytes(h0));
        assert(s[n - 2] == (hi as u32) as u8);
        assert(s[n - 1] == (lo as u32) as u8);
        assert((hex_val(s[n - 2]) * 16 + hex_val(s[n - 1])) as u8 == x);
        assert(p.push(x) =~= b);
    }
}

/// The digit for `n` is ASCII, a hex digit, and reads back as `n`.
proof fn lemma_nibble_char(n: u8)
    requires
        n < 16,
    ensures
        (nibble_char(n) as u32) < 128,
        is_hex_byte((nibble_char(n) as u32) as u8),
        hex_val((nibble_char(n) as u32) as u8) == n,
{
}

// ----- SHA-256 -----

/// The SHA-256 digest of `data` (a name for what `sha2` computes).
pub uninterp spec fn sha256_digest(data: Seq<u8>) -> Seq<u8>;

/// `Sha256::digest` of the `sha2` crate; its 32-byte output is the named digest.
#[verifier::external_body]
pub(crate) fn sha256(data: &[u8]) -> (r: [u8; 32])
    ensures
        r@ == sha256_digest(data@),
{
    <sha2::Sha256 as sha2::Digest>::digest(data).into()
}

/// Double SHA-256, as Bitcoin hashes headers and transactions.
pub open spec fn spec_dsha256(data: Seq<u8>) -> Seq<u8> {
    sha256_digest(sha256_digest(data))
}

pub fn dsha256(data: &[u8]) -> (r: [u8; 32])
    ensures
        r@ == spec_dsha256(data@),
{
    let first = sha256(data);
    sha256(first.as_slice())
}

// ----- percent-encoding -----

/// Bytes that pass through URL encoding unchanged.
pub open spec fn is_unreserved(b: u8) -> bool {
    (65 <= b <= 90) || (97 <= b <= 122) || (48 <= b <= 57) || b == 45 || b == 95 || b == 46 || b
        == 126
}

/// Percent-encoding of `b`: unreserved bytes stay, a space becomes `+` when
/// `plus_space`, every other byte becomes `%XX` (upper-case hex).
pub open spec fn spec_url_encode(b: Seq<u8>, plus_space: bool) -> Seq<char>
    decreases b.len(),
{
    if b.len() == 0 {
        Seq::empty()
    } else {
        let p = spec_url_encode(b.drop_last(), plus_space);
        let x = b.last();
        if is_unreserved(x) {
            p.push(x as char)
        } else if plus_space && x == 32 {
            p.push('+')
        } else {
            p.push('%').push(nibble_upper(x / 16)).push(nibble_upper(x % 16))
        }
    }
}

pub fn url_encode_bytes(b: &[u8], plus_space: bool) -> (r: String)
    ensures
        r@ == spec_url_encode(b@, plus_space),
{
    let mut out: Vec<char> = Vec::new();
    let mut i: usize = 0;
    while i < b.len()
        invariant
            i <= b@.len(),
            out@ == spec_url_encode(b@.take(i as int), plus_space),
        decreases b@.len() - i,
    {
        let x = b[i];
        assert(b@.take(i + 1).drop_last() =~= b@.take(i as int));
        if (65 <= x && x <= 90) || (97 <= x && x <= 122) || (48 <= x && x <= 57) || x == 45 || x
            == 95 || x == 46 || x == 126 {
            out.push(x as char);
        } else if plus_space && x == 32 {
            out.push('+');
        } else {
            out.push('%');
            out.push(hex_upper_char(x / 16));
            out.push(hex_upper_char(x % 16));
        }
        i = i + 1;
    }
    assert(b@.take(b@.len() as int) =~= b@);
    string_of(out.as_slice())
}

} // verus!
