//! Hashing, constant-time comparison, token encoding and randomness, each
//! done by the outside crate that the server has always used for it.
use vstd::prelude::*;

use base64::engine::general_purpose::URL_SAFE_NO_PAD;
use base64::Engine;
use rand::Rng;
use sha2::{Digest, Sha256};
use subtle::ConstantTimeEq;

verus! {

/// The SHA-256 digest of `data`.
pub uninterp spec fn sha256_digest(data: Seq<u8>) -> Seq<u8>;

/// The URL-safe base64 digit with value `v` (below 64).
pub open spec fn base64_url_digit(v: int) -> char {
    if v < 26 {
        ('A' as int + v) as char
    } else if v < 52 {
        ('a' as int + (v - 26)) as char
    } else if v < 62 {
        ('0' as int + (v - 52)) as char
    } else if v == 62 {
        '-'
    } else {
        '_'
    }
}

/// The unpadded URL-safe base64 encoding of `data`: each group of three
/// bytes, read as a 24-bit number, gives four digits of six bits, most
/// significant first; a final group of two bytes gives three digits and one
/// byte gives two, the missing low bits being zero.
pub open spec fn base64_url_encode(data: Seq<u8>) -> Seq<char>
    decreases data.len(),
{
    if data.len() == 0 {
        seq![]
    } else if data.len() == 1 {
        let n = data[0] as int;
        seq![base64_url_digit(n / 4), base64_url_digit((n % 4) * 16)]
    } else if data.len() == 2 {
        let n = data[0] as int * 256 + data[1] as int;
        seq![base64_url_digit(n / 1024), base64_url_digit((n / 16) % 64), base64_url_digit((n % 16) * 4)]
    } else {
        let n = data[0] as int * 65536 + data[1] as int * 256 + data[2] as int;
        seq![
            base64_url_digit(n / 262144),
            base64_url_digit((n / 4096) % 64),
            base64_url_digit((n / 64) % 64),
            base64_url_digit(n % 64),
        ] + base64_url_encode(data.subrange(3, data.len() as int))
    }
}

/// The characters of the URL-safe base64 alphabet: `A-Z`, `a-z`, `0-9`,
/// `-` and `_`.
pub open spec fn is_base64_url_char(c: char) -> bool {
    ||| 'A' <= c <= 'Z'
    ||| 'a' <= c <= 'z'
    ||| '0' <= c <= '9'
    ||| c == '-'
    ||| c == '_'
}

/// Length of the unpadded base64 encoding of `n` bytes.
pub open spec fn base64_unpadded_len(n: nat) -> nat {
    4 * (n / 3) + if n % 3 == 0 {
        0
    } else {
        n % 3 + 1
    }
}

/// Calls `sha2::Sha256::digest`; the contract claims only that the 32 bytes
/// returned are the SHA-256 digest of the input.
#[verifier::external_body]
pub(crate) fn sha256(data: &[u8]) -> (h: [u8; 32])
    ensures
        h@ == sha256_digest(data@),
{
    Sha256::digest(data).into()
}

/// Calls `subtle::ConstantTimeEq::ct_eq` on two 32-byte arrays and converts
/// the `Choice` to `bool`; the contract claims that the answer is whether the
/// arrays are equal (subtle documents `1` for equal slices, `0` otherwise).
#[verifier::external_body]
pub(crate) fn constant_time_eq(a: &[u8; 32], b: &[u8; 32]) -> (r: bool)
    ensures
        r == (a@ == b@),
{
    bool::from(a.ct_eq(b))
}

/// Calls `base64::Engine::encode` with the `URL_SAFE_NO_PAD` engine, which
/// writes the unpadded URL-safe encoding. The contract states that encoding,
/// and two facts about it that the crate's source shows: the output has
/// `encoded_len(n, false)` characters, all from the URL-safe alphabet.
#[verifier::external_body]
pub(crate) fn encode_base64_url(data: &[u8]) -> (s: String)
    ensures
        s@ == base64_url_encode(data@),
        s@.len() == base64_unpadded_len(data@.len()),
        forall|i: int| 0 <= i < s@.len() ==> #[trigger] is_base64_url_char(s@[i]),
{
    URL_SAFE_NO_PAD.encode(data)
}

/// Calls `rand::Rng::gen` on the thread-local generator for 32 random bytes;
/// nothing is claimed of their value.
#[verifier::external_body]
pub(crate) fn random_bytes_32() -> (r: [u8; 32]) {
    rand::thread_rng().gen()
}

/// Calls `rand::Rng::gen_range(0..bound)` on the thread-local generator; the
/// contract claims only that the value lies in the range, which rand
/// documents (it panics on an empty range, which `requires` rules out).
#[verifier::external_body]
pub(crate) fn random_below(bound: usize) -> (r: usize)
    requires
        bound > 0,
    ensures
        r < bound,
{
    rand::thread_rng().gen_range(0..bound)
}

} // verus!
