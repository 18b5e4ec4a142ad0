//! The scheme as a whole, step by step: preparing inputs, garbling,
//! partitioning, evaluating the partitions, and the final verdict.

use crate::aggregate::{aggregate, all_verified, result_views};
use crate::circuit::Circuit;
use crate::errors::GcError;
use crate::garble::{all_assigned, all_unambiguous, garble, garbled_gates, gate_assigned, GarbledCircuit};
use crate::bytes::byte_views;
use crate::keys::{covers_wires, entropy_table, entropy_usable, generate, keys_distinct, keys_from_entropy, table_view};
use crate::partition::{all_keyed, boundary_keys_identical, circuit_views, feeds_forward, joined_gates, partition, slice_count, slice_of};
use crate::runner::{evaluate_all, outcome, PartitionInputs, VerificationResult};
use vstd::prelude::*;

verus! {

/// The steps of the partitioned garbled circuit scheme.
pub struct PartitionedGCScheme {}

/// The pairs made of an even number of bits: the first with the second, the
/// third with the fourth, and so on. Of an odd number of bits the last one
/// is left out.
pub open spec fn pairs_of(bits: Seq<u8>) -> Seq<(u8, u8)> {
    Seq::new(bits.len() / 2, |i: int| (bits[2 * i], bits[2 * i + 1]))
}

/// The input bits in pairs. An odd number of bits is first made even by
/// appending the exclusive or of the auxiliary bits `a0` and `a1`.
pub open spec fn pairing(inputs: Seq<u8>, a0: u8, a1: u8) -> Seq<(u8, u8)> {
    if inputs.len() % 2 == 1 {
        pairs_of(inputs.push(a0 ^ a1))
    } else {
        pairs_of(inputs)
    }
}

/// Draws one byte with `rand::random`.
///
/// Trusted: nothing is assumed of the byte. `rand::random` gives up, whatever
/// it is asked for, where the generator of the thread cannot be seeded by
/// the operating system.
#[verifier::external_body]
fn random_byte() -> (byte: u8) {
    rand::random::<u8>()
}

/// Pairs the input bits, with `a0` and `a1` as the auxiliary bits: computes
/// [`pairing`].
pub fn pair_inputs(inputs: Vec<u8>, a0: u8, a1: u8) -> (pairs: Vec<(u8, u8)>)
    ensures
        pairs@ == pairing(inputs@, a0, a1),
{
    let mut bits = inputs;
    if bits.len() % 2 != 0 {
        bits.push(a0 ^ a1);
    }
    let mut pairs: Vec<(u8, u8)> = Vec::new();
    let mut i: usize = 0;
    while i + 1 < bits.len()
        invariant
            i % 2 == 0,
            i <= bits@.len(),
            bits@.len() % 2 == 0,
            pairs@.len() == i / 2,
            forall|j: int| 0 <= j < pairs@.len() ==> pairs@[j] == (bits@[2 * j], bits@[2 * j + 1]),
        decreases bits@.len() - i,
    {
        pairs.push((bits[i], bits[i + 1]));
        i += 2;
    }
    assert(pairs@ =~= pairs_of(bits@));
    pairs
}

/// There is a pair for every two bits, rounded up, and where the number of
/// bits is odd the last pair holds the last bit and the exclusive or of the
/// two auxiliary bits.
pub proof fn lemma_pairing_shape(inputs: Seq<u8>, a0: u8, a1: u8)
    ensures
        pairing(inputs, a0, a1).len() == (inputs.len() + 1) / 2,
        inputs.len() % 2 == 0 ==> pairing(inputs, a0, a1).len() == inputs.len() / 2,
        inputs.len() % 2 == 1 ==> pairing(inputs, a0, a1).last() == (inputs.last(), a0 ^ a1),
        forall|i: int|
            0 <= i < inputs.len() ==> #[trigger] inputs[i] == if i % 2 == 0 {
                pairing(inputs, a0, a1)[i / 2].0
            } else {
                pairing(inputs, a0, a1)[i / 2].1
            },
{
}

impl PartitionedGCScheme {
    /// Pairs the input bits. An odd number of bits is first made even by
    /// appending the exclusive or of two auxiliary random bits.
    pub fn prepare_inputs(inputs: Vec<u8>) -> (pairs: Vec<(u8, u8)>)
        ensures
            pairs@.len() == (inputs@.len() + 1) / 2,
            exists|a0: u8, a1: u8| a0 <= 1 && a1 <= 1 && pairs@ == #[trigger] pairing(inputs@, a0, a1),
    {
        let (a0, a1) = if inputs.len() % 2 != 0 {
            (random_byte() % 2, random_byte() % 2)
        } else {
            (0, 0)
        };
        pair_inputs(inputs, a0, a1)
    }

    /// Garbles `circuit` under keys made from `blocks`, one block of 32
    /// random bytes for each of the wires `0..blocks.len()`.
    ///
    /// Fails with `InsufficientEntropy` when no key table can be made from
    /// the blocks, otherwise with `UnassignedWire` when a gate names a wire
    /// for which there is no block, and otherwise with `InsufficientEntropy`
    /// when some table comes out ambiguous.
    pub fn garble_with_entropy(circuit: &Circuit, blocks: &Vec<Vec<u8>>) -> (r: Result<
        GarbledCircuit,
        GcError,
    >)
        ensures
            match r {
                Ok(gc) => {
                    &&& entropy_usable(byte_views(blocks@))
                    &&& gc@.wire_keys == entropy_table(byte_views(blocks@))
                    &&& gc@.gates == garbled_gates(circuit.gates@, gc@.wire_keys)
                    &&& all_unambiguous(gc@.gates)
                    &&& gc@.input_wires == circuit.input_wires@
                    &&& gc@.output_wires == circuit.output_wires@
                    &&& all_assigned(circuit.gates@, gc@.wire_keys)
                },
                Err(e) => if !entropy_usable(byte_views(blocks@)) {
                    e == GcError::InsufficientEntropy
                } else if !all_assigned(circuit.gates@, entropy_table(byte_views(blocks@))) {
                    e == GcError::UnassignedWire
                } else {
                    &&& e == GcError::InsufficientEntropy
                    &&& !all_unambiguous(
                        garbled_gates(circuit.gates@, entropy_table(byte_views(blocks@))),
                    )
                },
            },
    {
        match keys_from_entropy(blocks) {
            Ok(table) => garble(circuit, table),
            Err(e) => Err(e),
        }
    }

    /// Garbles `circuit` under fresh keys for all of its wires.
    ///
    /// The keys are drawn for the wires `0..n`, where `n` is the number of
    /// wires of the circuit. Fails with `InsufficientEntropy` when `n` does
    /// not fit in `usize`, the keys cannot be had, or some table comes out
    /// ambiguous under them; it does not fail otherwise.
    pub fn garble_circuit(circuit: &Circuit) -> (r: Result<GarbledCircuit, GcError>)
        ensures
            match r {
                Ok(gc) => {
                    &&& exists|n: nat| circuit.covers(n) && #[trigger] covers_wires(gc@.wire_keys, n)
                    &&& keys_distinct(gc@.wire_keys)
                    &&& gc@.gates == garbled_gates(circuit.gates@, gc@.wire_keys)
                    &&& all_unambiguous(gc@.gates)
                    &&& gc@.input_wires == circuit.input_wires@
                    &&& gc@.output_wires == circuit.output_wires@
                },
                Err(e) => e == GcError::InsufficientEntropy,
            },
            (forall|n: nat| circuit.covers(n) ==> n > usize::MAX) ==> r is Err,
    {
        let n = match circuit.wire_count() {
            Some(n) => n,
            None => {
                return Err(GcError::InsufficientEntropy);
            },
        };
        let table = match generate(n) {
            Ok(table) => table,
            Err(e) => {
                return Err(e);
            },
        };
        let ghost keys = table_view(table@);
        let r = garble(circuit, table);
        proof {
            assert forall|i: int| 0 <= i < circuit.gates@.len() implies gate_assigned(
                keys,
                #[trigger] circuit.gates@[i],
            ) by {
                let g = circuit.gates@[i];
                assert(g.mentions(g.left_wire) && g.mentions(g.output_wire));
                assert(circuit.mentions(g.left_wire) && circuit.mentions(g.output_wire));
                assert(keys.contains_key(g.left_wire) && keys.contains_key(g.output_wire));
                if !g.gate_type.is_unary() {
                    assert(g.mentions(g.right_wire));
                    assert(circuit.mentions(g.right_wire));
                    assert(keys.contains_key(g.right_wire));
                }
            }
            assert(all_assigned(circuit.gates@, keys));
            if r is Ok {
                assert(r->Ok_0@.wire_keys == keys);
                assert(circuit.covers(n as nat) && covers_wires(keys, n as nat));
            }
        }
        r
    }

    /// Cuts a garbled circuit into partitions of at most `partition_size`
    /// gates each, where `partition_size` is not zero. See [`partition`].
    pub fn partition_garbled_circuit(garbled_circuit: &GarbledCircuit, partition_size: usize) -> (r:
        Result<Vec<GarbledCircuit>, GcError>)
        requires
            partition_size > 0,
        ensures
            match r {
                Ok(parts) => {
                    &&& all_keyed(garbled_circuit@)
                    &&& feeds_forward(garbled_circuit@.gates)
                    &&& parts@.len() == slice_count(
                        garbled_circuit@.gates.len(),
                        partition_size as nat,
                    )
                    &&& forall|i: int|
                        0 <= i < parts@.len() ==> (#[trigger] parts@[i])@ == slice_of(
                            garbled_circuit@,
                            partition_size as nat,
                            i,
                        )
                    &&& joined_gates(circuit_views(parts@)) == garbled_circuit@.gates
                    &&& boundary_keys_identical(circuit_views(parts@))
                },
                Err(e) => if all_keyed(garbled_circuit@) {
                    e == GcError::PartitionContinuityViolation && !feeds_forward(
                        garbled_circuit@.gates,
                    )
                } else {
                    e == GcError::UnassignedWire
                },
            },
    {
        partition(garbled_circuit, partition_size)
    }

    /// Evaluates every partition on the inputs at its own position. See
    /// [`evaluate_all`].
    pub fn run_protocol_iterations(
        partitions: &Vec<GarbledCircuit>,
        inputs: &Vec<PartitionInputs>,
    ) -> (results: Vec<VerificationResult>)
        ensures
            results@.len() == partitions@.len(),
            forall|i: int|
                0 <= i < partitions@.len() ==> (#[trigger] results@[i])@ == outcome(
                    partitions@,
                    inputs@,
                    i,
                ),
    {
        evaluate_all(partitions, inputs)
    }

    /// The verdict over all partitions: success if and only if every one
    /// verified. See [`aggregate`].
    pub fn aggregate_verification(results: &Vec<VerificationResult>) -> (verdict: bool)
        ensures
            verdict == all_verified(result_views(results@)),
    {
        aggregate(results)
    }
}

} // verus!
