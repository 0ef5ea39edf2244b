//! Fingerprints of byte strings: SHA-256, written in hexadecimal.
use sha2::{Digest, Sha256};
use vstd::prelude::*;

verus! {

/// The SHA-256 digest of `data`, as the `sha2` crate computes it.
pub uninterp spec fn sha256_digest(data: Seq<u8>) -> Seq<u8>;

/// The hexadecimal digit with value `n`, in lower case.
pub open spec fn hex_digit(n: int) -> char {
    seq!['0', '1', '2', '3', '4', '5', '6', '7', '8', '9', 'a', 'b', 'c', 'd', 'e', 'f'][n]
}

/// Bytes in hexadecimal: two lower-case digits each, the high half first.
pub open spec fn hex_text(data: Seq<u8>) -> Seq<char> {
    Seq::new(
        2 * data.len(),
        |i: int|
            if i % 2 == 0 {
                hex_digit(data[i / 2] as int / 16)
            } else {
                hex_digit(data[i / 2] as int % 16)
            },
    )
}

/// Calls `sha2::Sha256` (`new`, `update`, `finalize`). Trusted: the digest is a
/// function of the bytes alone and is 32 bytes long.
#[verifier::external_body]
pub(crate) fn sha256(data: &[u8]) -> (hash: Vec<u8>)
    ensures
        hash@ == sha256_digest(data@),
        hash@.len() == 32,
{
    let mut hasher = Sha256::new();
    hasher.update(data);
    hasher.finalize().to_vec()
}

/// Calls `hex::encode`. Trusted: the text holds two lower-case hexadecimal
/// digits for each byte, in order.
#[verifier::external_body]
pub(crate) fn hex_encode(data: &[u8]) -> (text: String)
    ensures
        text@ == hex_text(data@),
{
    hex::encode(data)
}

/// The fingerprint of a byte string: its SHA-256 digest in hexadecimal.
pub open spec fn fingerprint_text(data: Seq<u8>) -> Seq<char> {
    hex_text(sha256_digest(data))
}

/// Computes the fingerprint of a byte string.
pub fn fingerprint(data: &[u8]) -> (text: String)
    ensures
        text@ == fingerprint_text(data@),
        text@.len() == 64,
{
    let hash = sha256(data);
    hex_encode(hash.as_slice())
}

// ---------------------------------------------------------------- laws

/// The value of a hexadecimal digit in lower case.
pub open spec fn hex_value(c: char) -> int {
    if '0' <= c <= '9' {
        c as int - '0' as int
    } else {
        c as int - 'a' as int + 10
    }
}

/// Hexadecimal text has two digits for each byte, from which the byte can be read
/// back, and so different bytes have different texts.
pub proof fn law_hexadecimal_reads_back(data: Seq<u8>, i: int)
    requires
        0 <= i < data.len(),
    ensures
        hex_text(data).len() == 2 * data.len(),
        16 * hex_value(hex_text(data)[2 * i]) + hex_value(hex_text(data)[2 * i + 1]) == data[i],
        '0' <= hex_text(data)[2 * i] <= '9' || 'a' <= hex_text(data)[2 * i] <= 'f',
        '0' <= hex_text(data)[2 * i + 1] <= '9' || 'a' <= hex_text(data)[2 * i + 1] <= 'f',
{
    let high = data[i] as int / 16;
    let low = data[i] as int % 16;
    lemma_hex_digit(high);
    lemma_hex_digit(low);
    assert((2 * i) / 2 == i && (2 * i) % 2 == 0);
    assert((2 * i + 1) / 2 == i && (2 * i + 1) % 2 == 1);
    assert(hex_text(data)[2 * i] == hex_digit(high));
    assert(hex_text(data)[2 * i + 1] == hex_digit(low));
}

proof fn lemma_hex_digit(n: int)
    requires
        0 <= n < 16,
    ensures
        hex_value(hex_digit(n)) == n,
        '0' <= hex_digit(n) <= '9' || 'a' <= hex_digit(n) <= 'f',
{
    let digits = seq![
        '0', '1', '2', '3', '4', '5', '6', '7', '8', '9', 'a', 'b', 'c', 'd', 'e', 'f',
    ];
    assert(hex_digit(n) == digits[n]);
    assert(n == 0 || n == 1 || n == 2 || n == 3 || n == 4 || n == 5 || n == 6 || n == 7 || n == 8
        || n == 9 || n == 10 || n == 11 || n == 12 || n == 13 || n == 14 || n == 15);
}

/// A fingerprint is the digest in hexadecimal.
pub proof fn law_fingerprint_is_the_digest(data: Seq<u8>, i: int)
    requires
        0 <= i < sha256_digest(data).len(),
    ensures
        fingerprint_text(data).len() == 2 * sha256_digest(data).len(),
        16 * hex_value(fingerprint_text(data)[2 * i]) + hex_value(
            fingerprint_text(data)[2 * i + 1],
        ) == sha256_digest(data)[i],
{
    law_hexadecimal_reads_back(sha256_digest(data), i);
}

} // verus!
