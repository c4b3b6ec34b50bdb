//! SHA-256 digests and their lower-case hexadecimal rendering.

use sha2::{Digest, Sha256};
use vstd::prelude::*;
use vstd::slice::slice_subrange;
use vstd::string::StringExecFns;
use vstd::utf8::encode_utf8;

verus! {

/// Number of hexadecimal characters kept from a digest.
pub const FINGERPRINT_LEN: usize = 16;

/// The SHA-256 digest of `data`, as computed by the `sha2` crate.
pub uninterp spec fn sha256_digest(data: Seq<u8>) -> Seq<u8>;

/// Calls `sha2::Sha256::digest`.  The contract only names the outcome: the
/// 32 bytes returned are the SHA-256 digest of `data`, a function of the
/// input bytes alone.
#[verifier::external_body]
pub(crate) fn sha256(data: &[u8]) -> (digest: [u8; 32])
    ensures
        digest@ == sha256_digest(data@),
{
    Sha256::digest(data).into()
}

/// The sixteen lower-case hexadecimal digits, by value.
pub open spec fn hex_digits() -> Seq<char> {
    seq!['0', '1', '2', '3', '4', '5', '6', '7', '8', '9', 'a', 'b', 'c', 'd', 'e', 'f']
}

/// The character `i` of the hexadecimal rendering of `bytes`: the high half
/// of a byte comes first.
pub open spec fn hex_char_at(bytes: Seq<u8>, i: int) -> char {
    if i % 2 == 0 {
        hex_digits()[bytes[i / 2] as int / 16]
    } else {
        hex_digits()[bytes[i / 2] as int % 16]
    }
}

/// Lower-case hexadecimal rendering of `bytes`, two characters per byte.
pub open spec fn to_hex(bytes: Seq<u8>) -> Seq<char> {
    Seq::new(2 * bytes.len(), |i: int| hex_char_at(bytes, i))
}

/// One hexadecimal digit as a string slice.
fn hex_digit_str(n: u8) -> (s: &'static str)
    requires
        n < 16,
    ensures
        s@ == seq![hex_digits()[n as int]],
{
    proof {
        reveal_strlit("0");
        reveal_strlit("1");
        reveal_strlit("2");
        reveal_strlit("3");
        reveal_strlit("4");
        reveal_strlit("5");
        reveal_strlit("6");
        reveal_strlit("7");
        reveal_strlit("8");
        reveal_strlit("9");
        reveal_strlit("a");
        reveal_strlit("b");
        reveal_strlit("c");
        reveal_strlit("d");
        reveal_strlit("e");
        reveal_strlit("f");
    }
    let s = match n {
        0 => "0",
        1 => "1",
        2 => "2",
        3 => "3",
        4 => "4",
        5 => "5",
        6 => "6",
        7 => "7",
        8 => "8",
        9 => "9",
        10 => "a",
        11 => "b",
        12 => "c",
        13 => "d",
        14 => "e",
        _ => "f",
    };
    assert(s@ =~= seq![hex_digits()[n as int]]);
    s
}

/// Renders `bytes` in lower-case hexadecimal.
pub fn hex_encode(bytes: &[u8]) -> (text: String)
    ensures
        text@ == to_hex(bytes@),
{
    let mut text = String::new();
    let mut i: usize = 0;
    while i < bytes.len()
        invariant
            i <= bytes.len(),
            text@.len() == 2 * i,
            forall|k: int| 0 <= k < 2 * i ==> text@[k] == hex_char_at(bytes@, k),
        decreases bytes.len() - i,
    {
        let b: u8 = bytes[i];
        text.append(hex_digit_str(b / 16));
        text.append(hex_digit_str(b % 16));
        i += 1;
    }
    assert(text@ =~= to_hex(bytes@));
    text
}

/// The fingerprint made of a digest: the first `FINGERPRINT_LEN`
/// characters of its hexadecimal rendering.
pub open spec fn fingerprint_tag(digest: Seq<u8>) -> Seq<char> {
    Seq::new(FINGERPRINT_LEN as nat, |i: int| hex_char_at(digest, i))
}

/// The fingerprint of a secret: that of the SHA-256 digest of its UTF-8
/// encoding.
pub open spec fn fingerprint_of(secret: Seq<char>) -> Seq<char> {
    fingerprint_tag(sha256_digest(encode_utf8(secret)))
}

/// A lower-case hexadecimal digit.
pub open spec fn is_hex_digit(c: char) -> bool {
    exists|n: int| 0 <= n < 16 && hex_digits()[n] == c
}

/// Equal secrets have equal fingerprints: the fingerprint depends on the
/// characters of the secret and on nothing else.
pub proof fn lemma_fingerprint_deterministic(a: Seq<char>, b: Seq<char>)
    requires
        a == b,
    ensures
        fingerprint_of(a) == fingerprint_of(b),
{
}

/// A fingerprint is a prefix of the digest's hexadecimal rendering, as long
/// as the digest has the bytes for it.
pub proof fn lemma_fingerprint_tag_is_prefix(digest: Seq<u8>)
    requires
        2 * digest.len() >= FINGERPRINT_LEN,
    ensures
        fingerprint_tag(digest) == to_hex(digest).take(FINGERPRINT_LEN as int),
{
    assert(fingerprint_tag(digest) =~= to_hex(digest).take(FINGERPRINT_LEN as int));
}

/// Every fingerprint has `FINGERPRINT_LEN` characters, each a lower-case
/// hexadecimal digit.
pub proof fn lemma_fingerprint_shape(secret: Seq<char>)
    ensures
        fingerprint_of(secret).len() == FINGERPRINT_LEN,
        forall|i: int| 0 <= i < FINGERPRINT_LEN ==> is_hex_digit(#[trigger] fingerprint_of(secret)[i]),
{
    let digest = sha256_digest(encode_utf8(secret));
    assert forall|i: int| 0 <= i < FINGERPRINT_LEN implies is_hex_digit(
        #[trigger] fingerprint_of(secret)[i],
    ) by {
        let b = digest[i / 2] as int;
        let n = if i % 2 == 0 { b / 16 } else { b % 16 };
        assert(0 <= n < 16 && hex_digits()[n] == fingerprint_of(secret)[i]);
    }
}

/// The fingerprint made of a SHA-256 digest.
pub fn fingerprint_from_digest(digest: &[u8; 32]) -> (tag: String)
    ensures
        tag@ == fingerprint_tag(digest@),
{
    let head = slice_subrange(digest.as_slice(), 0, FINGERPRINT_LEN / 2);
    let tag = hex_encode(head);
    assert(tag@ =~= fingerprint_tag(digest@));
    tag
}

} // verus!
