use partitioned_gc::prf::{hash, prf, xor_mask};
use partitioned_gc::xor_masked_ot::{dummy_ot_receive, dummy_ot_send};
use sha2::{Digest, Sha256};

fn hex(bytes: &[u8]) -> String {
    let mut s = String::new();
    for b in bytes {
        s.push_str(&format!("{:02x}", b));
    }
    s
}

#[test]
fn digest_of_abc() {
    assert_eq!(
        hex(&hash(b"abc")),
        "ba7816bf8f01cfea414140de5dae2223b00361a396177a9cb410ff61f20015ad"
    );
}

#[test]
fn digest_of_nothing() {
    assert_eq!(
        hex(&hash(b"")),
        "e3b0c44298fc1c149afbf4c8996fb92427ae41e4649b934ca495991b7852b855"
    );
}

#[test]
fn pad_is_first_half_of_digest_of_seed_and_bit() {
    let seed = [7u8; 16];
    for bit in [0u8, 1, 2, 255] {
        let mut input = seed.to_vec();
        input.push(bit);
        let want = Sha256::digest(&input);
        assert_eq!(prf(&seed, bit), want[..16].to_vec());
    }
    assert_ne!(prf(&seed, 0), prf(&seed, 1));
}

#[test]
fn pad_of_abc_and_letter_d() {
    // the digest of "abcd"
    assert_eq!(hex(&prf(b"abc", b'd')), "88d4266fd4e6338d13b845fcf289579d");
}

#[test]
fn mask_is_bytewise_xor() {
    assert_eq!(xor_mask(&[0x0f, 0xf0, 0xaa], &[0xff, 0xff, 0x55]), vec![0xf0, 0x0f, 0xff]);
    assert_eq!(xor_mask(&[1, 2, 3, 4], &[1, 2]), vec![0, 0]);
    assert_eq!(xor_mask(&[1, 2], &[3, 3, 3, 3]), vec![2, 1]);
    assert_eq!(xor_mask(&[], &[1, 2]), Vec::<u8>::new());
}

#[test]
fn receiver_with_bit_one_recovers_second_key() {
    let seed: Vec<u8> = (0..16).collect();
    let k0: Vec<u8> = (100..116).collect();
    let k1: Vec<u8> = (200..216).collect();
    let (c0, c1) = dummy_ot_send(&seed, &k0, &k1);
    assert_eq!(dummy_ot_receive(&seed, 1, &c0, &c1), k1);
}

#[test]
fn receiver_with_bit_zero_recovers_first_key() {
    let seed: Vec<u8> = (0..16).collect();
    let k0: Vec<u8> = (100..116).collect();
    let k1: Vec<u8> = (200..216).collect();
    let (c0, c1) = dummy_ot_send(&seed, &k0, &k1);
    assert_eq!(dummy_ot_receive(&seed, 0, &c0, &c1), k0);
}

#[test]
fn masked_values_are_keys_under_their_pads() {
    let seed = b"one-time seed";
    let k0 = [0u8; 16];
    let k1 = [0xffu8; 16];
    let (c0, c1) = dummy_ot_send(seed, &k0, &k1);
    assert_eq!(c0, prf(seed, 0));
    let inverted: Vec<u8> = prf(seed, 1).iter().map(|b| !b).collect();
    assert_eq!(c1, inverted);
    assert_ne!(c0, k0.to_vec());
}

#[test]
fn receiver_never_looks_at_the_other_masked_value() {
    let seed: Vec<u8> = (0..16).collect();
    let k0: Vec<u8> = (100..116).collect();
    let k1: Vec<u8> = (200..216).collect();
    let (c0, c1) = dummy_ot_send(&seed, &k0, &k1);
    let noise = vec![0x5au8; 16];
    assert_eq!(dummy_ot_receive(&seed, 1, &noise, &c1), k1);
    assert_eq!(dummy_ot_receive(&seed, 1, &[], &c1), k1);
    assert_eq!(dummy_ot_receive(&seed, 0, &c0, &noise), k0);
}

#[test]
fn wrong_seed_recovers_neither_key() {
    let seed: Vec<u8> = (0..16).collect();
    let other: Vec<u8> = (1..17).collect();
    let k0: Vec<u8> = (100..116).collect();
    let k1: Vec<u8> = (200..216).collect();
    let (c0, c1) = dummy_ot_send(&seed, &k0, &k1);
    let got = dummy_ot_receive(&other, 1, &c0, &c1);
    assert_ne!(got, k0);
    assert_ne!(got, k1);
}

#[test]
fn keys_longer_than_a_pad_are_cut_to_its_length() {
    let seed = [1u8; 4];
    let k0 = [9u8; 20];
    let k1 = [8u8; 20];
    let (c0, c1) = dummy_ot_send(&seed, &k0, &k1);
    assert_eq!(c0.len(), 16);
    assert_eq!(dummy_ot_receive(&seed, 1, &c0, &c1), vec![8u8; 16]);
}
