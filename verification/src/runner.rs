//! Evaluating one partition: the evaluator obtains one key per input wire by
//! oblivious transfer, opens one row of each garbled table in turn, and
//! compares the keys of the output wires with the commitments published for
//! them.

use crate::bytes::{byte_views, bytes_equal, copy_range};
use crate::garble::{open, open_row, row_pad, row_pad_of, GarbledCircuit, GarbledCircuitView, GarbledGate, GarbledGateView};
use crate::keys::WireKeysView;
use crate::prf::{digest, hash};
use crate::xor_masked_ot::{dummy_ot_receive, dummy_ot_send, masked_pair, unmasked};
use std::collections::HashMap;
use vstd::prelude::*;

verus! {

/// The outcome of evaluating one partition: whether it verified, and the
/// keys found on its output wires where the evaluation got that far.
#[derive(Clone, Debug)]
pub struct VerificationResult {
    pub verified: bool,
    pub output_keys: Option<Vec<Vec<u8>>>,
}

/// The outcome of an evaluation with its keys as byte strings.
pub struct VerificationResultView {
    pub verified: bool,
    pub output_keys: Option<Seq<Seq<u8>>>,
}

impl View for VerificationResult {
    type V = VerificationResultView;

    open spec fn view(&self) -> VerificationResultView {
        VerificationResultView {
            verified: self.verified,
            output_keys: match self.output_keys {
                Some(keys) => Some(byte_views(keys@)),
                None => None,
            },
        }
    }
}

/// The outcome of an evaluation that broke off.
pub open spec fn failed() -> VerificationResultView {
    VerificationResultView { verified: false, output_keys: None }
}

/// The keys that the evaluator holds, as byte strings by wire.
pub open spec fn held_view(held: Map<usize, Vec<u8>>) -> Map<usize, Seq<u8>> {
    Map::new(|w: usize| held.contains_key(w), |w: usize| held[w]@)
}

/// The key that the evaluator receives for a wire with the keys `keys` when
/// the sender masks both keys under `seed` and the evaluator selects `bit`.
pub open spec fn transferred_key(keys: WireKeysView, seed: Seq<u8>, bit: u8) -> Seq<u8> {
    let masked = masked_pair(seed, keys.key0, keys.key1);
    unmasked(seed, bit, masked.0, masked.1)
}

/// The keys held after the transfers for the first `n` input wires. Nothing
/// where one of these wires has no keys in the partition, or a selection is
/// not a bit.
pub open spec fn received_inputs(
    part: GarbledCircuitView,
    seeds: Seq<Seq<u8>>,
    bits: Seq<u8>,
    n: int,
) -> Option<Map<usize, Seq<u8>>>
    decreases n,
{
    if n <= 0 {
        Some(Map::empty())
    } else {
        match received_inputs(part, seeds, bits, n - 1) {
            None => None,
            Some(held) => {
                let w = part.input_wires[n - 1];
                if part.wire_keys.contains_key(w) && bits[n - 1] <= 1 {
                    Some(
                        held.insert(
                            w,
                            transferred_key(part.wire_keys[w], seeds[n - 1], bits[n - 1]),
                        ),
                    )
                } else {
                    None
                }
            },
        }
    }
}

/// The keys that come out of the rows that `pad` opens, in the order of the
/// rows.
pub open spec fn opened(pad: Seq<u8>, rows: Seq<Seq<u8>>) -> Seq<Seq<u8>>
    decreases rows.len(),
{
    if rows.len() == 0 {
        Seq::empty()
    } else {
        let before = opened(pad, rows.drop_last());
        match open(pad, rows.last()) {
            Some(key) => before.push(key),
            None => before,
        }
    }
}

/// The keys held after evaluating gate `g`: the pad of the keys held for its
/// inputs must open exactly one row of its table, and the key in that row is
/// then held for its output wire. Nothing where a key of an input is not
/// held, the table has neither two nor four rows, or the pad opens no row or
/// more than one.
pub open spec fn after_gate(held: Map<usize, Seq<u8>>, g: GarbledGateView) -> Option<
    Map<usize, Seq<u8>>,
> {
    if g.ciphertexts.len() != 2 && g.ciphertexts.len() != 4 {
        None
    } else if !held.contains_key(g.left_wire) || (!g.is_unary() && !held.contains_key(
        g.right_wire,
    )) {
        None
    } else {
        let right = if g.is_unary() {
            Seq::empty()
        } else {
            held[g.right_wire]
        };
        let keys = opened(row_pad(held[g.left_wire], right, g.output_wire), g.ciphertexts);
        if keys.len() == 1 {
            Some(held.insert(g.output_wire, keys[0]))
        } else {
            None
        }
    }
}

/// The keys held after evaluating `gates` in their order.
pub open spec fn after_gates(held: Map<usize, Seq<u8>>, gates: Seq<GarbledGateView>) -> Option<
    Map<usize, Seq<u8>>,
>
    decreases gates.len(),
{
    if gates.len() == 0 {
        Some(held)
    } else {
        match after_gates(held, gates.drop_last()) {
            None => None,
            Some(before) => after_gate(before, gates.last()),
        }
    }
}

/// The keys held for the wires `outputs`, in their order. Nothing where the
/// key of one of them is not held.
pub open spec fn keys_of_outputs(held: Map<usize, Seq<u8>>, outputs: Seq<usize>) -> Option<
    Seq<Seq<u8>>,
> {
    if forall|i: int| 0 <= i < outputs.len() ==> held.contains_key(#[trigger] outputs[i]) {
        Some(Seq::new(outputs.len(), |i: int| held[outputs[i]]))
    } else {
        None
    }
}

/// The commitment to a key: its digest.
pub open spec fn commitment(key: Seq<u8>) -> Seq<u8> {
    digest(key)
}

/// Whether there is one commitment per key, and each is the commitment to
/// its key.
pub open spec fn commitments_met(keys: Seq<Seq<u8>>, commitments: Seq<Seq<u8>>) -> bool {
    &&& keys.len() == commitments.len()
    &&& forall|i: int| 0 <= i < keys.len() ==> commitment(#[trigger] keys[i]) == commitments[i]
}

/// The outcome of evaluating the partition `part`.
///
/// `seeds` and `bits` hold, for each input wire of the partition in turn,
/// the seed of its transfer and the evaluator's bit; `commitments` holds the
/// commitment published for each output wire in turn. The partition
/// verifies when the transfers and every gate go through and the keys of
/// the output wires meet the commitments. The keys of the output wires are
/// reported whenever the gates went through.
pub open spec fn evaluation(
    part: GarbledCircuitView,
    seeds: Seq<Seq<u8>>,
    bits: Seq<u8>,
    commitments: Seq<Seq<u8>>,
) -> VerificationResultView {
    if seeds.len() != part.input_wires.len() || bits.len() != part.input_wires.len() {
        failed()
    } else {
        match received_inputs(part, seeds, bits, part.input_wires.len() as int) {
            None => failed(),
            Some(inputs) => match after_gates(inputs, part.gates) {
                None => failed(),
                Some(held) => match keys_of_outputs(held, part.output_wires) {
                    None => failed(),
                    Some(keys) => VerificationResultView {
                        verified: commitments_met(keys, commitments),
                        output_keys: Some(keys),
                    },
                },
            },
        }
    }
}

/// Computes [`commitment`].
pub fn commit(key: &[u8]) -> (c: Vec<u8>)
    ensures
        c@ == commitment(key@),
{
    hash(key)
}

/// Runs the transfers for the input wires of `part`.
fn receive_inputs(part: &GarbledCircuit, seeds: &Vec<Vec<u8>>, bits: &Vec<u8>) -> (held: Option<
    HashMap<usize, Vec<u8>>,
>)
    requires
        seeds@.len() == part.input_wires@.len(),
        bits@.len() == part.input_wires@.len(),
    ensures
        match held {
            Some(h) => received_inputs(
                part@,
                byte_views(seeds@),
                bits@,
                part.input_wires@.len() as int,
            ) == Some(held_view(h@)),
            None => received_inputs(part@, byte_views(seeds@), bits@, part.input_wires@.len() as int)
                is None,
        },
{
    broadcast use vstd::std_specs::hash::group_hash_axioms;

    let mut held: HashMap<usize, Vec<u8>> = HashMap::new();
    let mut n: usize = 0;
    assert(held_view(held@) =~= Map::empty());
    while n < part.input_wires.len()
        invariant
            n <= part.input_wires@.len(),
            seeds@.len() == part.input_wires@.len(),
            bits@.len() == part.input_wires@.len(),
            received_inputs(part@, byte_views(seeds@), bits@, n as int) == Some(held_view(held@)),
        decreases part.input_wires@.len() - n,
    {
        let w = part.input_wires[n];
        let bit = bits[n];
        let keys = match part.wire_keys.get(&w) {
            Some(keys) => keys,
            None => {
                proof {
                    lemma_received_none_stays(
                        part@,
                        byte_views(seeds@),
                        bits@,
                        n + 1,
                        part.input_wires@.len() as int,
                    );
                }
                return None;
            },
        };
        if bit > 1 {
            proof {
                lemma_received_none_stays(
                    part@,
                    byte_views(seeds@),
                    bits@,
                    n + 1,
                    part.input_wires@.len() as int,
                );
            }
            return None;
        }
        let seed = seeds[n].as_slice();
        let masked = dummy_ot_send(seed, keys.key0.as_slice(), keys.key1.as_slice());
        let key = dummy_ot_receive(seed, bit, masked.0.as_slice(), masked.1.as_slice());
        let ghost before = held_view(held@);
        held.insert(w, key);
        assert(held_view(held@) =~= before.insert(w, key@));
        n += 1;
    }
    Some(held)
}

/// Once a transfer has failed, the transfers as a whole have failed.
proof fn lemma_received_none_stays(
    part: GarbledCircuitView,
    seeds: Seq<Seq<u8>>,
    bits: Seq<u8>,
    n: int,
    m: int,
)
    requires
        n <= m,
        received_inputs(part, seeds, bits, n) is None,
    ensures
        received_inputs(part, seeds, bits, m) is None,
    decreases m - n,
{
    if n < m {
        lemma_received_none_stays(part, seeds, bits, n, m - 1);
    }
}

/// Computes [`opened`].
fn open_rows(pad: &[u8], rows: &Vec<Vec<u8>>) -> (keys: Vec<Vec<u8>>)
    ensures
        byte_views(keys@) == opened(pad@, byte_views(rows@)),
{
    let ghost views = byte_views(rows@);
    let mut keys: Vec<Vec<u8>> = Vec::new();
    let mut i: usize = 0;
    assert(byte_views(keys@) =~= opened(pad@, views.take(0)));
    while i < rows.len()
        invariant
            i <= rows@.len(),
            views == byte_views(rows@),
            byte_views(keys@) == opened(pad@, views.take(i as int)),
        decreases rows@.len() - i,
    {
        proof {
            assert(views.take(i + 1).drop_last() =~= views.take(i as int));
            assert(views.take(i + 1).last() == rows@[i as int]@);
        }
        let ghost before = byte_views(keys@);
        match open_row(pad, rows[i].as_slice()) {
            Some(key) => {
                keys.push(key);
                assert(byte_views(keys@) =~= before.push(key@));
            },
            None => {},
        }
        i += 1;
    }
    assert(views.take(i as int) =~= views);
    keys
}

/// Evaluates one gate: computes [`after_gate`] on the keys held, and says
/// whether it went through.
fn evaluate_gate(held: &mut HashMap<usize, Vec<u8>>, g: &GarbledGate) -> (ok: bool)
    ensures
        match after_gate(held_view(old(held)@), g@) {
            Some(after) => ok && held_view(final(held)@) == after,
            None => !ok,
        },
{
    broadcast use vstd::std_specs::hash::group_hash_axioms;

    if g.ciphertexts.len() != 2 && g.ciphertexts.len() != 4 {
        return false;
    }
    let unary = g.unary();
    let left = match held.get(&g.left_wire) {
        Some(key) => key,
        None => {
            return false;
        },
    };
    let empty: Vec<u8> = Vec::new();
    assert(empty@ =~= Seq::<u8>::empty());
    let right = if unary {
        &empty
    } else {
        match held.get(&g.right_wire) {
            Some(key) => key,
            None => {
                return false;
            },
        }
    };
    let pad = row_pad_of(left.as_slice(), right.as_slice(), g.output_wire);
    let mut keys = open_rows(pad.as_slice(), &g.ciphertexts);
    if keys.len() != 1 {
        assert(byte_views(keys@).len() == keys@.len());
        return false;
    }
    let ghost found = byte_views(keys@);
    assert(found.len() == 1);
    let key = match keys.pop() {
        Some(key) => key,
        None => {
            return false;
        },
    };
    assert(key@ == found[0]);
    let ghost before = held_view(held@);
    held.insert(g.output_wire, key);
    assert(held_view(held@) =~= before.insert(g.output_wire, key@));
    true
}

/// Once a gate has failed, the gates as a whole have failed.
proof fn lemma_gates_none_stays(
    held: Map<usize, Seq<u8>>,
    gates: Seq<GarbledGateView>,
    n: int,
)
    requires
        0 <= n <= gates.len(),
        after_gates(held, gates.take(n)) is None,
    ensures
        after_gates(held, gates) is None,
    decreases gates.len() - n,
{
    if n < gates.len() {
        assert(gates.take(n + 1).drop_last() =~= gates.take(n));
        lemma_gates_none_stays(held, gates, n + 1);
    } else {
        assert(gates.take(n) =~= gates);
    }
}

/// Evaluates `gates` in their order: computes [`after_gates`] on the keys
/// held, and says whether every gate went through.
fn evaluate_gates(held: &mut HashMap<usize, Vec<u8>>, gates: &Vec<GarbledGate>) -> (ok: bool)
    ensures
        match after_gates(held_view(old(held)@), crate::garble::gate_views(gates@)) {
            Some(after) => ok && held_view(final(held)@) == after,
            None => !ok,
        },
{
    let ghost views = crate::garble::gate_views(gates@);
    let ghost start = held_view(held@);
    let mut i: usize = 0;
    assert(views.take(0) =~= Seq::empty());
    while i < gates.len()
        invariant
            i <= gates@.len(),
            views == crate::garble::gate_views(gates@),
            start == held_view(old(held)@),
            after_gates(start, views.take(i as int)) == Some(held_view(held@)),
        decreases gates@.len() - i,
    {
        proof {
            assert(views.take(i + 1).drop_last() =~= views.take(i as int));
            assert(views.take(i + 1).last() == gates@[i as int]@);
        }
        let ghost before = held_view(held@);
        if !evaluate_gate(held, &gates[i]) {
            proof {
                assert(after_gate(before, views.take(i + 1).last()) is None);
                assert(after_gates(start, views.take(i + 1)) is None);
                lemma_gates_none_stays(start, views, i + 1);
            }
            return false;
        }
        i += 1;
    }
    assert(views.take(i as int) =~= views);
    true
}

/// Computes [`keys_of_outputs`].
fn collect_outputs(held: &HashMap<usize, Vec<u8>>, outputs: &Vec<usize>) -> (keys: Option<
    Vec<Vec<u8>>,
>)
    ensures
        match keys {
            Some(k) => keys_of_outputs(held_view(held@), outputs@) == Some(byte_views(k@)),
            None => keys_of_outputs(held_view(held@), outputs@) is None,
        },
{
    broadcast use vstd::std_specs::hash::group_hash_axioms;

    let mut keys: Vec<Vec<u8>> = Vec::new();
    let mut i: usize = 0;
    while i < outputs.len()
        invariant
            i <= outputs@.len(),
            keys@.len() == i,
            forall|j: int| 0 <= j < i ==> held_view(held@).contains_key(#[trigger] outputs@[j]),
            forall|j: int| 0 <= j < i ==> (#[trigger] keys@[j])@ == held_view(held@)[outputs@[j]],
        decreases outputs@.len() - i,
    {
        match held.get(&outputs[i]) {
            Some(key) => {
                let copy = copy_range(key.as_slice(), 0, key.len());
                assert(copy@ =~= key@);
                keys.push(copy);
            },
            None => {
                assert(!held_view(held@).contains_key(outputs@[i as int]));
                return None;
            },
        }
        i += 1;
    }
    assert(byte_views(keys@) =~= keys_of_outputs(held_view(held@), outputs@).unwrap());
    Some(keys)
}

/// Computes [`commitments_met`].
pub fn meets_commitments(keys: &Vec<Vec<u8>>, commitments: &Vec<Vec<u8>>) -> (ok: bool)
    ensures
        ok == commitments_met(byte_views(keys@), byte_views(commitments@)),
{
    if keys.len() != commitments.len() {
        return false;
    }
    let mut ok = true;
    let mut i: usize = 0;
    while i < keys.len()
        invariant
            i <= keys@.len(),
            keys@.len() == commitments@.len(),
            ok == forall|j: int|
                0 <= j < i ==> commitment(#[trigger] byte_views(keys@)[j]) == byte_views(
                    commitments@,
                )[j],
        decreases keys@.len() - i,
    {
        let c = commit(keys[i].as_slice());
        if !bytes_equal(c.as_slice(), commitments[i].as_slice()) {
            assert(commitment(byte_views(keys@)[i as int]) != byte_views(commitments@)[i as int]);
            ok = false;
        }
        i += 1;
    }
    ok
}

/// Evaluates the partition `part`: computes [`evaluation`].
///
/// `seeds` and `bits` hold, for each input wire of the partition in turn,
/// the seed agreed on for its transfer and the evaluator's bit, 0 or 1;
/// `commitments` holds the commitment published for each output wire in
/// turn.
pub fn evaluate(
    part: &GarbledCircuit,
    seeds: &Vec<Vec<u8>>,
    bits: &Vec<u8>,
    commitments: &Vec<Vec<u8>>,
) -> (result: VerificationResult)
    ensures
        result@ == evaluation(part@, byte_views(seeds@), bits@, byte_views(commitments@)),
{
    if seeds.len() != part.input_wires.len() || bits.len() != part.input_wires.len() {
        return VerificationResult { verified: false, output_keys: None };
    }
    let mut held = match receive_inputs(part, seeds, bits) {
        Some(held) => held,
        None => {
            return VerificationResult { verified: false, output_keys: None };
        },
    };
    if !evaluate_gates(&mut held, &part.garbled_gates) {
        return VerificationResult { verified: false, output_keys: None };
    }
    let keys = match collect_outputs(&held, &part.output_wires) {
        Some(keys) => keys,
        None => {
            return VerificationResult { verified: false, output_keys: None };
        },
    };
    let verified = meets_commitments(&keys, commitments);
    VerificationResult { verified, output_keys: Some(keys) }
}

/// What the evaluation of one partition needs besides the partition: for
/// each input wire in turn the seed of its transfer and the evaluator's bit,
/// and for each output wire in turn the commitment published for it.
#[derive(Clone, Debug)]
pub struct PartitionInputs {
    pub seeds: Vec<Vec<u8>>,
    pub bits: Vec<u8>,
    pub commitments: Vec<Vec<u8>>,
}

/// The outcome for partition `i` of `parts`: its evaluation on the inputs
/// given for it, or failure where none are given.
pub open spec fn outcome(parts: Seq<GarbledCircuit>, inputs: Seq<PartitionInputs>, i: int)
    -> VerificationResultView {
    if i < inputs.len() {
        evaluation(
            parts[i]@,
            byte_views(inputs[i].seeds@),
            inputs[i].bits@,
            byte_views(inputs[i].commitments@),
        )
    } else {
        failed()
    }
}

/// Evaluates every partition, each on the inputs at its own position.
///
/// A partition that fails does not stop the others: there is one outcome
/// per partition, in the order of the partitions.
pub fn evaluate_all(parts: &Vec<GarbledCircuit>, inputs: &Vec<PartitionInputs>) -> (results: Vec<
    VerificationResult,
>)
    ensures
        results@.len() == parts@.len(),
        forall|i: int|
            0 <= i < parts@.len() ==> (#[trigger] results@[i])@ == outcome(parts@, inputs@, i),
{
    let mut results: Vec<VerificationResult> = Vec::new();
    let mut i: usize = 0;
    while i < parts.len()
        invariant
            i <= parts@.len(),
            results@.len() == i,
            forall|j: int| 0 <= j < i ==> (#[trigger] results@[j])@ == outcome(parts@, inputs@, j),
        decreases parts@.len() - i,
    {
        let result = if i < inputs.len() {
            evaluate(&parts[i], &inputs[i].seeds, &inputs[i].bits, &inputs[i].commitments)
        } else {
            VerificationResult { verified: false, output_keys: None }
        };
        results.push(result);
        i += 1;
    }
    results
}

/// A plain value as a selection bit.
pub open spec fn bit_of(value: bool) -> u8 {
    if value {
        1
    } else {
        0
    }
}

/// The evaluator's bits for the wires `wires` when the wires carry `values`.
pub open spec fn choice_bits(wires: Seq<usize>, values: Map<usize, bool>) -> Seq<u8> {
    Seq::new(wires.len(), |i: int| bit_of(values[wires[i]]))
}

/// The keys that stand for `values` on the wires `outputs`.
pub open spec fn expected_keys(
    outputs: Seq<usize>,
    table: Map<usize, WireKeysView>,
    values: Map<usize, bool>,
) -> Seq<Seq<u8>> {
    Seq::new(outputs.len(), |i: int| table[outputs[i]].select(values[outputs[i]]))
}

/// The commitments to the keys that stand for `values` on the wires
/// `outputs`.
pub open spec fn expected_commitments(
    outputs: Seq<usize>,
    table: Map<usize, WireKeysView>,
    values: Map<usize, bool>,
) -> Seq<Seq<u8>> {
    Seq::new(outputs.len(), |i: int| commitment(table[outputs[i]].select(values[outputs[i]])))
}

/// Whether `values` has a value for every input and output wire of `part`,
/// and `part` has keys for every output wire.
pub open spec fn preparable(part: GarbledCircuitView, values: Map<usize, bool>) -> bool {
    &&& forall|i: int|
        0 <= i < part.input_wires.len() ==> values.contains_key(#[trigger] part.input_wires[i])
    &&& forall|i: int|
        0 <= i < part.output_wires.len() ==> values.contains_key(#[trigger] part.output_wires[i])
            && part.wire_keys.contains_key(part.output_wires[i])
}

impl PartitionInputs {
    /// Prepares the evaluation of `part` for wires that carry `values`: the
    /// evaluator's bit for each input wire, and the commitment to the key
    /// that stands for the value of each output wire. The seeds are taken
    /// as they are given.
    ///
    /// Nothing unless `values` and `part` hold what this takes.
    pub fn prepare(part: &GarbledCircuit, values: &HashMap<usize, bool>, seeds: Vec<Vec<u8>>) -> (r:
        Option<PartitionInputs>)
        ensures
            match r {
                Some(p) => {
                    &&& preparable(part@, values@)
                    &&& p.seeds == seeds
                    &&& p.bits@ == choice_bits(part@.input_wires, values@)
                    &&& byte_views(p.commitments@) == expected_commitments(
                        part@.output_wires,
                        part@.wire_keys,
                        values@,
                    )
                },
                None => !preparable(part@, values@),
            },
    {
        broadcast use vstd::std_specs::hash::group_hash_axioms;

        let mut bits: Vec<u8> = Vec::new();
        let mut i: usize = 0;
        while i < part.input_wires.len()
            invariant
                i <= part.input_wires@.len(),
                bits@.len() == i,
                forall|j: int| 0 <= j < i ==> values@.contains_key(#[trigger] part.input_wires@[j]),
                forall|j: int|
                    0 <= j < i ==> #[trigger] bits@[j] == bit_of(values@[part.input_wires@[j]]),
            decreases part.input_wires@.len() - i,
        {
            match values.get(&part.input_wires[i]) {
                Some(value) => {
                    bits.push(
                        if *value {
                            1
                        } else {
                            0
                        },
                    );
                },
                None => {
                    assert(!values@.contains_key(part@.input_wires[i as int]));
                    return None;
                },
            }
            i += 1;
        }
        let mut commitments: Vec<Vec<u8>> = Vec::new();
        let mut i: usize = 0;
        while i < part.output_wires.len()
            invariant
                i <= part.output_wires@.len(),
                commitments@.len() == i,
                forall|j: int|
                    0 <= j < i ==> values@.contains_key(#[trigger] part.output_wires@[j])
                        && part@.wire_keys.contains_key(part.output_wires@[j]),
                forall|j: int|
                    0 <= j < i ==> (#[trigger] commitments@[j])@ == commitment(
                        part@.wire_keys[part.output_wires@[j]].select(
                            values@[part.output_wires@[j]],
                        ),
                    ),
            decreases part.output_wires@.len() - i,
        {
            let w = part.output_wires[i];
            let value = match values.get(&w) {
                Some(value) => *value,
                None => {
                    assert(!values@.contains_key(part@.output_wires[i as int]));
                    return None;
                },
            };
            let keys = match part.wire_keys.get(&w) {
                Some(keys) => keys,
                None => {
                    assert(!part@.wire_keys.contains_key(part@.output_wires[i as int]));
                    return None;
                },
            };
            commitments.push(commit(keys.key_for(value).as_slice()));
            i += 1;
        }
        assert(bits@ =~= choice_bits(part@.input_wires, values@));
        assert(byte_views(commitments@) =~= expected_commitments(
            part@.output_wires,
            part@.wire_keys,
            values@,
        ));
        Some(PartitionInputs { seeds, bits, commitments })
    }
}

} // verus!
