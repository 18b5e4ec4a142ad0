//! 1-of-2 oblivious transfer by masking with pads derived from a shared seed.
//!
//! Sender and receiver hold the same single-use seed. The sender masks each
//! of its two keys with the pad of the bit it stands for; the receiver
//! derives the pad of its own bit alone and unmasks the value of that bit.
//! That the receiver cannot derive the other pad is a property of how the
//! seed was agreed on, which lies outside this module.

pub use crate::prf::xor_mask;
use crate::prf::{lemma_xor_bytes_cancels, prf, prf_pad, xor_bytes, KEY_LEN};
use vstd::prelude::*;

verus! {

/// The two masked values that the sender transmits.
pub open spec fn masked_pair(seed: Seq<u8>, k0: Seq<u8>, k1: Seq<u8>) -> (Seq<u8>, Seq<u8>) {
    (xor_bytes(k0, prf_pad(seed, 0)), xor_bytes(k1, prf_pad(seed, 1)))
}

/// What the receiver with selection `b` computes from the two masked values:
/// the first one for `b == 0`, the second one otherwise, unmasked with the
/// pad of `b`.
pub open spec fn unmasked(seed: Seq<u8>, b: u8, c0: Seq<u8>, c1: Seq<u8>) -> Seq<u8> {
    xor_bytes(
        if b == 0 {
            c0
        } else {
            c1
        },
        prf_pad(seed, b),
    )
}

/// Sender's step: masks `k0` with the pad of bit 0 and `k1` with the pad of
/// bit 1.
pub fn dummy_ot_send(seed: &[u8], k0: &[u8], k1: &[u8]) -> (masked: (Vec<u8>, Vec<u8>))
    ensures
        (masked.0@, masked.1@) == masked_pair(seed@, k0@, k1@),
{
    let pad0 = prf(seed, 0);
    let pad1 = prf(seed, 1);
    let c0 = xor_mask(k0, pad0.as_slice());
    let c1 = xor_mask(k1, pad1.as_slice());
    (c0, c1)
}

/// Receiver's step: unmasks the value selected by `b` with the pad of `b`.
pub fn dummy_ot_receive(seed: &[u8], b: u8, c0: &[u8], c1: &[u8]) -> (key: Vec<u8>)
    ensures
        key@ == unmasked(seed@, b, c0@, c1@),
{
    let pad = prf(seed, b);
    let ciphertext = if b == 0 {
        c0
    } else {
        c1
    };
    xor_mask(ciphertext, pad.as_slice())
}

/// A receiver that selects bit `b` recovers exactly the key of that bit, for
/// keys of at most 16 bytes.
pub proof fn lemma_transfer_delivers_selected(seed: Seq<u8>, b: u8, k0: Seq<u8>, k1: Seq<u8>)
    requires
        b <= 1,
        k0.len() <= KEY_LEN,
        k1.len() <= KEY_LEN,
    ensures
        unmasked(seed, b, masked_pair(seed, k0, k1).0, masked_pair(seed, k0, k1).1) == if b == 0 {
            k0
        } else {
            k1
        },
{
    if b == 0 {
        lemma_xor_bytes_cancels(k0, prf_pad(seed, 0));
    } else {
        lemma_xor_bytes_cancels(k1, prf_pad(seed, 1));
    }
}

/// The receiver's result depends on the masked value of its own bit alone:
/// whatever stands in the other position, it computes the same.
pub proof fn lemma_transfer_ignores_unselected(
    seed: Seq<u8>,
    b: u8,
    c0: Seq<u8>,
    c1: Seq<u8>,
    other: Seq<u8>,
)
    ensures
        b == 0 ==> unmasked(seed, b, c0, other) == unmasked(seed, b, c0, c1),
        b != 0 ==> unmasked(seed, b, other, c1) == unmasked(seed, b, c0, c1),
{
}

} // verus!
