//! Wire keys: one pair of 128-bit keys per wire, drawn fresh for each
//! garbling session.
//!
//! The lowest bit of a key is its permute bit. The two keys of a wire carry
//! opposite permute bits, so that the permute bits of the keys an evaluator
//! holds select a row of a garbled table without telling which logical value
//! a key stands for.

use crate::bytes::{byte_views, bytes_equal, copy_range};
use crate::errors::GcError;
use crate::prf::KEY_LEN;
use rand::rand_core::OsError;
use rand::rngs::OsRng;
use rand::TryRngCore;
use std::collections::HashMap;
use vstd::prelude::*;

verus! {

/// Number of random bytes that one pair of keys is made from.
pub const BLOCK_LEN: usize = 32;

/// The two keys of a wire: `key0` stands for the value 0, `key1` for 1.
#[derive(Clone, Debug)]
pub struct WireKeys {
    pub key0: Vec<u8>,
    pub key1: Vec<u8>,
}

/// The two keys of a wire as byte strings.
pub struct WireKeysView {
    pub key0: Seq<u8>,
    pub key1: Seq<u8>,
}

impl View for WireKeys {
    type V = WireKeysView;

    open spec fn view(&self) -> WireKeysView {
        WireKeysView { key0: self.key0@, key1: self.key1@ }
    }
}

/// The permute bit of a key: the lowest bit of its last byte.
pub open spec fn permute_bit(key: Seq<u8>) -> bool {
    key.len() > 0 && key.last() & 1 == 1
}

impl WireKeysView {
    /// The key that stands for `bit`.
    pub open spec fn select(self, bit: bool) -> Seq<u8> {
        if bit {
            self.key1
        } else {
            self.key0
        }
    }

    /// Both keys have 16 bytes and their permute bits differ.
    pub open spec fn wf(self) -> bool {
        &&& self.key0.len() == KEY_LEN
        &&& self.key1.len() == KEY_LEN
        &&& permute_bit(self.key0) != permute_bit(self.key1)
    }
}

/// A key table as a map from wires to pairs of byte strings.
pub open spec fn table_view(table: Map<usize, WireKeys>) -> Map<usize, WireKeysView> {
    Map::new(|w: usize| table.contains_key(w), |w: usize| table[w]@)
}

/// Whether wire `w` has a well-formed pair of keys in `table`.
pub open spec fn assigned(table: Map<usize, WireKeysView>, w: usize) -> bool {
    table.contains_key(w) && table[w].wf()
}

/// No key of the table occurs twice in it, neither on two wires nor as both
/// keys of one wire.
pub open spec fn keys_distinct(table: Map<usize, WireKeysView>) -> bool {
    forall|w1: usize, b1: bool, w2: usize, b2: bool|
        table.contains_key(w1) && table.contains_key(w2) && (w1 != w2 || b1 != b2)
            ==> #[trigger] table[w1].select(b1) != #[trigger] table[w2].select(b2)
}

/// Exactly the wires `0..n` have keys, and each pair is well formed.
pub open spec fn covers_wires(table: Map<usize, WireKeysView>, n: nat) -> bool {
    forall|w: usize| (#[trigger] table.contains_key(w) <==> w < n) && (w < n ==> table[w].wf())
}

/// The last byte of the second key: `b` with its lowest bit replaced by the
/// opposite of the lowest bit of `k`, the last byte of the first key.
pub open spec fn opposed(b: u8, k: u8) -> u8 {
    (b & 0xfe) | ((k & 1) ^ 1)
}

/// The pair of keys made from a block of 32 random bytes: the first 16 bytes
/// are the key for 0, the last 16 the key for 1, with the permute bit of the
/// second set opposite to that of the first.
pub open spec fn keys_of_block(block: Seq<u8>) -> WireKeysView {
    WireKeysView {
        key0: block.subrange(0, KEY_LEN as int),
        key1: block.subrange(KEY_LEN as int, BLOCK_LEN - 1).push(
            opposed(block[BLOCK_LEN - 1], block[KEY_LEN - 1]),
        ),
    }
}

/// The key table made from one block of random bytes per wire.
pub open spec fn entropy_table(blocks: Seq<Seq<u8>>) -> Map<usize, WireKeysView> {
    Map::new(|w: usize| w < blocks.len(), |w: usize| keys_of_block(blocks[w as int]))
}

/// Whether a key table can be made from `blocks`: each block has 32 bytes,
/// and no key comes out twice.
pub open spec fn entropy_usable(blocks: Seq<Seq<u8>>) -> bool {
    &&& forall|i: int| 0 <= i < blocks.len() ==> (#[trigger] blocks[i]).len() == BLOCK_LEN
    &&& keys_distinct(entropy_table(blocks))
}

proof fn lemma_opposed_bit(b: u8, k: u8)
    by (bit_vector)
    ensures
        (opposed(b, k) & 1 == 1) != (k & 1 == 1),
{
}

/// A block of 32 bytes gives a well-formed pair of keys.
pub proof fn lemma_block_keys_wf(block: Seq<u8>)
    requires
        block.len() == BLOCK_LEN,
    ensures
        keys_of_block(block).wf(),
{
    let k = keys_of_block(block);
    lemma_opposed_bit(block[BLOCK_LEN - 1], block[KEY_LEN - 1]);
    assert(k.key0.last() == block[KEY_LEN - 1]);
    assert(k.key1.last() == opposed(block[BLOCK_LEN - 1], block[KEY_LEN - 1]));
}

/// Well-formed pairs hold two different keys.
pub proof fn lemma_wf_keys_differ(k: WireKeysView)
    requires
        k.wf(),
    ensures
        k.key0 != k.key1,
{
}

/// The error of the operating system's random source. Nothing is read from
/// it: any such error means that no keys can be made.
#[verifier::external_type_specification]
#[verifier::external_body]
pub struct ExOsError(rand::rand_core::OsError);

/// Overwrites `buffer` with random bytes by
/// `rand::rngs::OsRng::try_fill_bytes`.
///
/// Trusted: the buffer keeps its length. Nothing is assumed of the bytes
/// that it then holds, nor of when the operating system's source fails.
#[verifier::external_body]
fn os_fill(buffer: &mut Vec<u8>) -> (r: Result<(), OsError>)
    ensures
        final(buffer)@.len() == old(buffer)@.len(),
{
    OsRng.try_fill_bytes(buffer.as_mut_slice())
}

/// Draws one block of random bytes from the operating system's source.
fn draw_block() -> (r: Result<Vec<u8>, OsError>)
    ensures
        r matches Ok(block) ==> block@.len() == BLOCK_LEN,
{
    let mut block: Vec<u8> = Vec::new();
    let mut i: usize = 0;
    while i < BLOCK_LEN
        invariant
            i <= BLOCK_LEN,
            block@.len() == i,
        decreases BLOCK_LEN - i,
    {
        block.push(0);
        i += 1;
    }
    match os_fill(&mut block) {
        Ok(()) => Ok(block),
        Err(e) => Err(e),
    }
}

impl WireKeys {
    /// Whether both keys have 16 bytes and opposite permute bits.
    pub fn is_well_formed(&self) -> (ok: bool)
        ensures
            ok == self@.wf(),
    {
        self.key0.len() == KEY_LEN && self.key1.len() == KEY_LEN && (self.key0[KEY_LEN - 1] & 1
            == 1) != (self.key1[KEY_LEN - 1] & 1 == 1)
    }

    /// The key that stands for `bit`.
    pub fn key_for(&self, bit: bool) -> (key: &Vec<u8>)
        ensures
            key@ == self@.select(bit),
    {
        if bit {
            &self.key1
        } else {
            &self.key0
        }
    }

    /// A copy of the pair.
    pub fn duplicate(&self) -> (copy: WireKeys)
        ensures
            copy@ == self@,
    {
        let key0 = copy_range(self.key0.as_slice(), 0, self.key0.len());
        let key1 = copy_range(self.key1.as_slice(), 0, self.key1.len());
        assert(key0@ =~= self.key0@ && key1@ =~= self.key1@);
        WireKeys { key0, key1 }
    }

    /// Makes a pair of keys from a block of random bytes. `None` unless the
    /// block has 32 bytes.
    pub fn from_entropy(block: &[u8]) -> (keys: Option<WireKeys>)
        ensures
            match keys {
                Some(k) => block@.len() == BLOCK_LEN && k@ == keys_of_block(block@),
                None => block@.len() != BLOCK_LEN,
            },
    {
        if block.len() != BLOCK_LEN {
            return None;
        }
        let key0 = copy_range(block, 0, KEY_LEN);
        let mut key1 = copy_range(block, KEY_LEN, BLOCK_LEN - 1);
        key1.push((block[BLOCK_LEN - 1] & 0xfe) | ((block[KEY_LEN - 1] & 1) ^ 1));
        Some(WireKeys { key0, key1 })
    }
}

/// Whether neither key of `keys` occurs among the keys of the wires `0..n`
/// of `table`.
fn is_fresh(table: &HashMap<usize, WireKeys>, n: usize, keys: &WireKeys) -> (fresh: bool)
    requires
        forall|j: usize| j < n ==> table@.contains_key(j),
    ensures
        fresh == forall|j: usize, b1: bool, b2: bool|
            j < n ==> #[trigger] table@[j]@.select(b1) != #[trigger] keys@.select(b2),
{
    broadcast use vstd::std_specs::hash::group_hash_axioms;

    let mut j: usize = 0;
    while j < n
        invariant
            j <= n,
            forall|j: usize| j < n ==> table@.contains_key(j),
            forall|i: usize, b1: bool, b2: bool|
                i < j ==> #[trigger] table@[i]@.select(b1) != #[trigger] keys@.select(b2),
        decreases n - j,
    {
        let held = match table.get(&j) {
            Some(held) => held,
            None => {
                return false;
            },
        };
        let clash = bytes_equal(held.key0.as_slice(), keys.key0.as_slice()) || bytes_equal(
            held.key0.as_slice(),
            keys.key1.as_slice(),
        ) || bytes_equal(held.key1.as_slice(), keys.key0.as_slice()) || bytes_equal(
            held.key1.as_slice(),
            keys.key1.as_slice(),
        );
        if clash {
            proof {
                let b1 = held.key1@ == keys.key0@ || held.key1@ == keys.key1@;
                let b2 = held.key0@ == keys.key1@ || held.key1@ == keys.key1@;
                let b2 = if table@[j]@.select(b1) == keys@.select(b2) {
                    b2
                } else {
                    !b2
                };
                assert(table@[j]@.select(b1) == keys@.select(b2));
            }
            return false;
        }
        assert forall|b1: bool, b2: bool| #[trigger]
            table@[j]@.select(b1) != #[trigger] keys@.select(b2) by {}
        j += 1;
    }
    true
}

/// Makes the key table of the wires `0..blocks.len()` from one block of
/// random bytes per wire.
///
/// Fails with `InsufficientEntropy` when a block does not have 32 bytes or a
/// key comes out twice: repeated keys show that the bytes were not random.
pub fn keys_from_entropy(blocks: &Vec<Vec<u8>>) -> (r: Result<HashMap<usize, WireKeys>, GcError>)
    ensures
        match r {
            Ok(table) => entropy_usable(byte_views(blocks@)) && table_view(table@)
                == entropy_table(byte_views(blocks@)),
            Err(e) => e == GcError::InsufficientEntropy && !entropy_usable(byte_views(blocks@)),
        },
{
    broadcast use vstd::std_specs::hash::group_hash_axioms;

    let ghost bv = byte_views(blocks@);
    let mut table: HashMap<usize, WireKeys> = HashMap::new();
    let mut w: usize = 0;
    while w < blocks.len()
        invariant
            w <= blocks@.len(),
            bv == byte_views(blocks@),
            forall|i: int| 0 <= i < w ==> (#[trigger] bv[i]).len() == BLOCK_LEN,
            table_view(table@) =~= entropy_table(bv.take(w as int)),
            keys_distinct(table_view(table@)),
        decreases blocks@.len() - w,
    {
        let ghost before = table_view(table@);
        assert(bv[w as int] == blocks@[w as int]@);
        let keys = match WireKeys::from_entropy(blocks[w].as_slice()) {
            Some(keys) => keys,
            None => {
                assert(bv[w as int].len() != BLOCK_LEN);
                return Err(GcError::InsufficientEntropy);
            },
        };
        assert forall|j: usize| j < w implies table@.contains_key(j) by {
            assert(before.contains_key(j));
        }
        if !is_fresh(&table, w, &keys) {
            proof {
                let (j, b1, b2) = choose|j: usize, b1: bool, b2: bool|
                    j < w && #[trigger] table@[j]@.select(b1) == #[trigger] keys@.select(b2);
                let full = entropy_table(bv);
                assert(before.contains_key(j));
                assert(bv.take(w as int)[j as int] == bv[j as int]);
                assert(before[j] == keys_of_block(bv.take(w as int)[j as int]));
                assert(full.contains_key(j) && full.contains_key(w));
                assert(full[j] == table@[j]@);
                assert(full[w] == keys@);
                assert(full[j].select(b1) == full[w].select(b2));
            }
            return Err(GcError::InsufficientEntropy);
        }
        proof {
            lemma_block_keys_wf(bv[w as int]);
            lemma_wf_keys_differ(keys@);
        }
        let ghost fresh = keys@;
        table.insert(w, keys);
        proof {
            let after = table_view(table@);
            let target = entropy_table(bv.take(w + 1));
            assert forall|x: usize| #[trigger] after.contains_key(x) == target.contains_key(x) by {
                assert(before.contains_key(x) == (x < w));
            }
            assert forall|x: usize| #[trigger] after.contains_key(x) implies after[x]
                == target[x] by {
                if x < w {
                    assert(before.contains_key(x));
                    assert(bv.take(w as int)[x as int] == bv.take(w + 1)[x as int]);
                    assert(before[x] == keys_of_block(bv.take(w as int)[x as int]));
                } else {
                    assert(after[x] == fresh);
                    assert(bv.take(w + 1)[x as int] == bv[w as int]);
                }
            }
            assert(after =~= target);
            assert forall|w1: usize, b1: bool, w2: usize, b2: bool|
                after.contains_key(w1) && after.contains_key(w2) && (w1 != w2 || b1 != b2) implies
                #[trigger] after[w1].select(b1) != #[trigger] after[w2].select(b2) by {
                if w1 < w {
                    assert(before.contains_key(w1));
                }
                if w2 < w {
                    assert(before.contains_key(w2));
                }
                if w1 < w && w2 < w {
                    assert(before[w1].select(b1) != before[w2].select(b2));
                }
            }
        }
        w += 1;
    }
    proof {
        assert(bv.take(w as int) =~= bv);
    }
    Ok(table)
}

/// Draws a fresh pair of keys for each of the wires `0..wire_count` from the
/// operating system's random source.
///
/// Fails with `InsufficientEntropy` when the source cannot be sampled, or
/// hands out bytes from which a key comes out twice.
pub fn generate(wire_count: usize) -> (r: Result<HashMap<usize, WireKeys>, GcError>)
    ensures
        match r {
            Ok(table) => covers_wires(table_view(table@), wire_count as nat) && keys_distinct(
                table_view(table@),
            ),
            Err(e) => e == GcError::InsufficientEntropy,
        },
{
    let mut blocks: Vec<Vec<u8>> = Vec::new();
    let mut w: usize = 0;
    while w < wire_count
        invariant
            w <= wire_count,
            blocks@.len() == w,
        decreases wire_count - w,
    {
        match draw_block() {
            Ok(block) => {
                blocks.push(block);
            },
            Err(_) => {
                return Err(GcError::InsufficientEntropy);
            },
        }
        w += 1;
    }
    let r = keys_from_entropy(&blocks);
    proof {
        if r is Ok {
            let table = r->Ok_0;
            let bv = byte_views(blocks@);
            let view = table_view(table@);
            assert forall|x: usize|
                (#[trigger] view.contains_key(x) <==> x < wire_count) && (x < wire_count
                    ==> view[x].wf()) by {
                if x < wire_count {
                    lemma_block_keys_wf(bv[x as int]);
                }
            }
            assert(covers_wires(view, wire_count as nat));
            assert(keys_distinct(view));
        }
    }
    r
}

} // verus!
