//! The calls into outside crates that the verified code relies on, each with
//! the contract it is trusted to meet.

use vstd::prelude::*;
use vstd::arithmetic::power2::pow2;
use crate::bytes::{be_value, Sha256Hash};
use crypto::digest::Digest;
use num_traits::One;

verus! {

/// The SHA-256 digest of a byte string.
pub uninterp spec fn sha256_of(msg: Seq<u8>) -> Seq<u8>;

/// Relies on rust-crypto's `Sha256` (`new`, `input`, `result`): the digest of
/// `msg`, which depends on the bytes alone.
#[verifier::external_body]
pub(crate) fn sha256(msg: &[u8]) -> (r: Sha256Hash)
    ensures
        r@ == sha256_of(msg@),
{
    let mut hasher = crypto::sha2::Sha256::new();
    let mut out: Sha256Hash = [0u8; 32];
    hasher.input(msg);
    hasher.result(&mut out);
    out
}

/// Relies on num-bigint: `BigUint::from_bytes_be` reads the bytes as a
/// big-endian unsigned integer, `BigUint::one() << shift` is 2 to the power
/// `shift`, and `<` compares the two values.
#[verifier::external_body]
pub(crate) fn be_below_pow2(bytes: &Sha256Hash, shift: usize) -> (r: bool)
    requires
        shift <= 256,
    ensures
        r == (be_value(bytes@) < pow2(shift as nat)),
{
    num_bigint::BigUint::from_bytes_be(bytes) < (num_bigint::BigUint::one() << shift)
}

/// Relies on chrono's `Utc::now().timestamp()`: the current time in seconds
/// since the epoch. Nothing is known of the value.
#[verifier::external_body]
pub(crate) fn now_timestamp() -> (r: i64) {
    chrono::Utc::now().timestamp()
}


/// The lowercase hexadecimal digit for `v`, which is below 16.
pub open spec fn hex_char(v: int) -> char {
    if v < 10 {
        (48 + v) as char
    } else {
        (87 + v) as char
    }
}

/// Two lowercase hexadecimal digits for each byte of `b`, high half first.
pub open spec fn hex_lower(b: Seq<u8>) -> Seq<char> {
    Seq::new(
        2 * b.len(),
        |i: int|
            if i % 2 == 0 {
                hex_char(b[i / 2] as int / 16)
            } else {
                hex_char(b[i / 2] as int % 16)
            },
    )
}

/// The value of a hexadecimal digit of either case.
pub open spec fn hex_value(c: char) -> Option<u8> {
    if 48 <= c as int <= 57 {
        Some((c as int - 48) as u8)
    } else if 97 <= c as int <= 102 {
        Some((c as int - 87) as u8)
    } else if 65 <= c as int <= 70 {
        Some((c as int - 55) as u8)
    } else {
        None
    }
}

/// `s` is an even number of hexadecimal digits.
pub open spec fn hex_decodable(s: Seq<char>) -> bool {
    &&& s.len() % 2 == 0
    &&& forall|i: int| 0 <= i < s.len() ==> (#[trigger] hex_value(s[i])) is Some
}

/// The bytes that the digit pairs of `s` stand for, high half first.
pub open spec fn hex_decoded(s: Seq<char>) -> Seq<u8> {
    Seq::new(
        s.len() / 2,
        |k: int| (16 * hex_value(s[2 * k]).unwrap() + hex_value(s[2 * k + 1]).unwrap()) as u8,
    )
}

/// Relies on `hex::encode`: two lowercase digits for each byte, high half
/// first.
#[verifier::external_body]
pub(crate) fn hex_encode(b: &[u8]) -> (r: String)
    ensures
        r@ == hex_lower(b@),
{
    hex::encode(b)
}

/// Relies on `hex::decode`: an even number of digits of either case gives
/// one byte for each pair, high half first; any other text is an error.
#[verifier::external_body]
pub(crate) fn hex_decode(s: &str) -> (r: Option<Vec<u8>>)
    ensures
        r is Some <==> hex_decodable(s@),
        r matches Some(v) ==> v@ == hex_decoded(s@),
{
    hex::decode(s).ok()
}

} // verus!
