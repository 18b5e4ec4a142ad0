//! The pseudorandom function behind every pad of the scheme: SHA-256.

use sha2::{Digest, Sha256};
use vstd::prelude::*;

verus! {

/// Number of bytes of a wire key.
pub const KEY_LEN: usize = 16;

/// Number of bytes of a SHA-256 digest.
pub const DIGEST_LEN: usize = 32;

/// The SHA-256 digest of `data`.
///
/// The digest is not defined here: it is whatever the `sha2` crate computes.
pub uninterp spec fn sha256(data: Seq<u8>) -> Seq<u8>;

/// Hashes `data` with `sha2::Sha256::digest`.
///
/// Trusted: the result is the SHA-256 digest of `data`, which is 32 bytes
/// long. Nothing else is assumed of it.
#[verifier::external_body]
fn sha256_digest(data: &[u8]) -> (out: Vec<u8>)
    ensures
        out@ == sha256(data@),
        out@.len() == DIGEST_LEN,
{
    Sha256::digest(data).to_vec()
}

/// The digest of `data` read as exactly 32 bytes.
///
/// A SHA-256 digest has 32 bytes, so this is the digest itself; stating the
/// length in the model keeps the laws about pads free of side conditions.
pub open spec fn digest(data: Seq<u8>) -> Seq<u8> {
    Seq::new(
        DIGEST_LEN as nat,
        |i: int|
            if i < sha256(data).len() {
                sha256(data)[i]
            } else {
                0u8
            },
    )
}

/// Computes [`digest`].
pub fn hash(data: &[u8]) -> (out: Vec<u8>)
    ensures
        out@ == digest(data@),
{
    let out = sha256_digest(data);
    assert(out@ =~= digest(data@));
    out
}

/// Byte-wise exclusive or of two byte strings, as long as the shorter one.
pub open spec fn xor_bytes(a: Seq<u8>, b: Seq<u8>) -> Seq<u8> {
    Seq::new(
        if a.len() <= b.len() {
            a.len()
        } else {
            b.len()
        },
        |i: int| a[i] ^ b[i],
    )
}

/// The pad that masks the key for selection bit `bit` under `seed`: the first
/// 16 bytes of the SHA-256 digest of `seed` followed by `bit`.
pub open spec fn prf_pad(seed: Seq<u8>, bit: u8) -> Seq<u8> {
    digest(seed.push(bit)).subrange(0, KEY_LEN as int)
}

proof fn lemma_xor_twice(a: u8, b: u8)
    by (bit_vector)
    ensures
        (a ^ b) ^ b == a,
{
}

/// Masking twice with the same pad gives back what was masked, up to the
/// length of the pad.
pub proof fn lemma_xor_bytes_cancels(k: Seq<u8>, pad: Seq<u8>)
    ensures
        k.len() <= pad.len() ==> xor_bytes(xor_bytes(k, pad), pad) == k,
        k.len() > pad.len() ==> xor_bytes(xor_bytes(k, pad), pad) == k.subrange(
            0,
            pad.len() as int,
        ),
{
    let once = xor_bytes(k, pad);
    let twice = xor_bytes(once, pad);
    assert forall|i: int| 0 <= i < twice.len() implies twice[i] == k[i] by {
        lemma_xor_twice(k[i], pad[i]);
    }
    if k.len() <= pad.len() {
        assert(twice =~= k);
    } else {
        assert(twice =~= k.subrange(0, pad.len() as int));
    }
}

/// Computes [`prf_pad`].
pub fn prf(seed: &[u8], bit: u8) -> (pad: Vec<u8>)
    ensures
        pad@ == prf_pad(seed@, bit),
        pad@.len() == KEY_LEN,
{
    let mut input: Vec<u8> = Vec::new();
    input.extend_from_slice(seed);
    input.push(bit);
    assert(input@ == seed@.push(bit));
    let mut pad = hash(input.as_slice());
    pad.truncate(KEY_LEN);
    pad
}

/// Masks `k` with `prf_output`, byte by byte.
///
/// The result is as long as the shorter of the two.
pub fn xor_mask(k: &[u8], prf_output: &[u8]) -> (out: Vec<u8>)
    ensures
        out@ == xor_bytes(k@, prf_output@),
{
    let n = if k.len() <= prf_output.len() {
        k.len()
    } else {
        prf_output.len()
    };
    let mut out: Vec<u8> = Vec::new();
    let mut i: usize = 0;
    while i < n
        invariant
            i <= n,
            n <= k@.len(),
            n <= prf_output@.len(),
            n == xor_bytes(k@, prf_output@).len(),
            out@.len() == i,
            forall|j: int| 0 <= j < i ==> out@[j] == k@[j] ^ prf_output@[j],
        decreases n - i,
    {
        out.push(k[i] ^ prf_output[i]);
        i += 1;
    }
    assert(out@ =~= xor_bytes(k@, prf_output@));
    out
}

} // verus!
