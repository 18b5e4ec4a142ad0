//! An honest run verifies: when a circuit is garbled and partitioned as this
//! library does it, and each partition is evaluated on the bits and against
//! the commitments that follow from the plain values of the wires, every
//! partition verifies.

use crate::circuit::{Circuit, Gate};
use crate::correctness::{lemma_honest_partition_verifies, lemma_slice_is_honest};
use crate::garble::{all_assigned, all_unambiguous, garbled_gates, gate_assigned, GarbledCircuitView, GarbledGateView};
use crate::keys::assigned;
use crate::partition::{feeds_forward, lemma_local_inputs_meaning, lemma_slice_bounds, lemma_slice_outputs_meaning, local_inputs, produces, reads_from_outside, slice_count, slice_end, slice_of};
use crate::plain::{after_plain_gate, after_plain_gates, assigned_inputs, lemma_assigned_inputs_domain, lemma_plain_none_stays, lemma_run_agrees_with_whole, lemma_unwritten_wire_keeps_value, values_before, wire_values, within};
use crate::runner::{bit_of, choice_bits, evaluation, expected_commitments, expected_keys, VerificationResultView};
use vstd::prelude::*;

verus! {

/// The bits chosen for wires that carry `values` give each of the wires the
/// value that it carries.
proof fn lemma_chosen_values(wires: Seq<usize>, values: Map<usize, bool>, n: int)
    requires
        0 <= n <= wires.len(),
    ensures
        forall|w: usize| #[trigger]
            assigned_inputs(wires, choice_bits(wires, values), n).contains_key(w)
                ==> assigned_inputs(wires, choice_bits(wires, values), n)[w] == values[w],
    decreases n,
{
    if n > 0 {
        lemma_chosen_values(wires, values, n - 1);
        let bits = choice_bits(wires, values);
        let before = assigned_inputs(wires, bits, n - 1);
        assert(assigned_inputs(wires, bits, n) == before.insert(wires[n - 1], bits[n - 1] == 1));
        assert(bits[n - 1] == bit_of(values[wires[n - 1]]));
        assert forall|w: usize| #[trigger]
            assigned_inputs(wires, bits, n).contains_key(w) implies assigned_inputs(
            wires,
            bits,
            n,
        )[w] == values[w] by {
            if w != wires[n - 1] {
                assert(before.contains_key(w));
            }
        }
    }
}

/// Where all gates can be evaluated, so can the gates before any gate `j`.
proof fn lemma_prefix_evaluates(start: Map<usize, bool>, gates: Seq<Gate>, j: int)
    requires
        0 <= j <= gates.len(),
        after_plain_gates(start, gates) is Some,
    ensures
        values_before(start, gates, j) is Some,
{
    if values_before(start, gates, j) is None {
        lemma_plain_none_stays(start, gates, j);
    }
}

/// A gate that was evaluated found the values of the wires that it reads.
proof fn lemma_read_wire_has_value(start: Map<usize, bool>, gates: Seq<Gate>, j: int, w: usize)
    requires
        0 <= j < gates.len(),
        after_plain_gates(start, gates) is Some,
        gates[j].reads(w),
    ensures
        values_before(start, gates, j) is Some,
        values_before(start, gates, j)->Some_0.contains_key(w),
{
    lemma_prefix_evaluates(start, gates, j);
    lemma_prefix_evaluates(start, gates, j + 1);
    assert(gates.take(j + 1).drop_last() =~= gates.take(j));
    assert(gates.take(j + 1).last() == gates[j]);
}

/// A wire that a run of gates takes from outside has, before the run, the
/// value that it has in the end: no gate from the start of the run on
/// produces it.
proof fn lemma_local_input_is_final(
    start: Map<usize, bool>,
    gates: Seq<Gate>,
    garbled: Seq<GarbledGateView>,
    lo: int,
    hi: int,
    w: usize,
)
    requires
        0 <= lo <= hi <= gates.len(),
        garbled.len() == gates.len(),
        forall|j: int|
            0 <= j < gates.len() ==> (#[trigger] garbled[j]).output_wire == gates[j].output_wire,
        forall|j: int, x: usize|
            0 <= j < gates.len() ==> #[trigger] garbled[j].reads(x) == gates[j].reads(x),
        feeds_forward(garbled),
        after_plain_gates(start, gates) is Some,
        reads_from_outside(garbled.subrange(lo, hi), w),
    ensures
        values_before(start, gates, lo) is Some,
        values_before(start, gates, lo)->Some_0.contains_key(w),
        values_before(start, gates, lo)->Some_0[w] == after_plain_gates(start, gates)->Some_0[w],
{
    let run = garbled.subrange(lo, hi);
    let j = choose|j: int|
        0 <= j < run.len() && (#[trigger] run[j]).reads(w) && !produces(run.take(j), w);
    let n = gates.len() as int;
    assert(run[j] == garbled[lo + j]);
    assert(garbled[lo + j].reads(w));
    assert(gates[lo + j].reads(w));
    assert forall|k: int| lo <= k < n implies (#[trigger] gates[k]).output_wire != w by {
        if k < lo + j {
            assert(run.take(j)[k - lo] == garbled[k]);
            assert(run.take(j)[k - lo].output_wire != w);
        } else {
            assert(!garbled[lo + j].reads(garbled[k].output_wire));
        }
    }
    lemma_read_wire_has_value(start, gates, lo + j, w);
    lemma_unwritten_wire_keeps_value(start, gates, lo, lo + j, w);
    assert(gates.take(n) =~= gates);
    lemma_unwritten_wire_keeps_value(start, gates, lo, n, w);
}

/// What makes a run honest: `gc` holds the garbled tables of the gates of
/// `circuit` under well-formed keys, all of them unambiguous; values only
/// flow forwards; no wire is the output of two gates; and the circuit can be
/// evaluated in plain on `bits`.
#[verifier::opaque]
pub open spec fn honest(circuit: Circuit, bits: Seq<u8>, gc: GarbledCircuitView) -> bool {
    &&& gc.gates == garbled_gates(circuit.gates@, gc.wire_keys)
    &&& all_assigned(circuit.gates@, gc.wire_keys)
    &&& all_unambiguous(gc.gates)
    &&& feeds_forward(gc.gates)
    &&& circuit.single_assignment()
    &&& wire_values(circuit.input_wires@, circuit.gates@, bits) is Some
}

/// The values from which the plain evaluation of `circuit` on `bits` starts.
pub open spec fn start_values(circuit: Circuit, bits: Seq<u8>) -> Map<usize, bool> {
    assigned_inputs(circuit.input_wires@, bits, circuit.input_wires@.len() as int)
}

/// The values from which the gates `lo..hi` start when they are evaluated on
/// their own, with the final values of the whole on their input wires.
pub open spec fn local_start(
    circuit: Circuit,
    bits: Seq<u8>,
    gc: GarbledCircuitView,
    lo: int,
    hi: int,
) -> Map<usize, bool> {
    let wires = local_inputs(gc.gates.subrange(lo, hi));
    let values = wire_values(circuit.input_wires@, circuit.gates@, bits)->Some_0;
    assigned_inputs(wires, choice_bits(wires, values), wires.len() as int)
}

/// The garbled gates of an honest run read and produce what the plain gates
/// do.
proof fn lemma_same_wiring(circuit: Circuit, bits: Seq<u8>, gc: GarbledCircuitView)
    requires
        honest(circuit, bits, gc),
    ensures
        gc.gates.len() == circuit.gates@.len(),
        forall|j: int|
            0 <= j < circuit.gates@.len() ==> (#[trigger] gc.gates[j]).output_wire
                == circuit.gates@[j].output_wire,
        forall|j: int, x: usize|
            0 <= j < circuit.gates@.len() ==> #[trigger] gc.gates[j].reads(x)
                == circuit.gates@[j].reads(x),
        wire_values(circuit.input_wires@, circuit.gates@, bits) is Some,
        after_plain_gates(start_values(circuit, bits), circuit.gates@) is Some,
        feeds_forward(gc.gates),
        circuit.single_assignment(),
{
    reveal(honest);
}

/// A partition of an honest run holds the garbled tables of its own gates
/// under its own keys.
proof fn lemma_partition_is_honest(
    circuit: Circuit,
    bits: Seq<u8>,
    gc: GarbledCircuitView,
    max: nat,
    i: int,
)
    requires
        max > 0,
        honest(circuit, bits, gc),
        0 <= i < slice_count(gc.gates.len(), max),
    ensures
        gc.gates.len() == circuit.gates@.len(),
        ({
            let part = slice_of(gc, max, i);
            let plain = circuit.gates@.subrange(
                i * max,
                slice_end(circuit.gates@.len(), max, i),
            );
            &&& part.gates == garbled_gates(plain, part.wire_keys)
            &&& all_assigned(plain, part.wire_keys)
            &&& all_unambiguous(part.gates)
        }),
{
    reveal(honest);
    lemma_slice_is_honest(circuit.gates@, gc, max, i);
}

/// The plain evaluation of a partition of an honest run, from the final
/// values of its input wires, gives each output wire of the partition its
/// final value.
proof fn lemma_partition_outputs_final(
    circuit: Circuit,
    bits: Seq<u8>,
    gc: GarbledCircuitView,
    max: nat,
    i: int,
)
    requires
        max > 0,
        honest(circuit, bits, gc),
        0 <= i < slice_count(gc.gates.len(), max),
    ensures
        ({
            let lo = i * max;
            let hi = slice_end(circuit.gates@.len(), max, i);
            let part = slice_of(gc, max, i);
            let values = wire_values(circuit.input_wires@, circuit.gates@, bits)->Some_0;
            let outcome = after_plain_gates(
                local_start(circuit, bits, gc, lo, hi),
                circuit.gates@.subrange(lo, hi),
            );
            &&& outcome is Some
            &&& forall|k: int|
                0 <= k < part.output_wires.len() ==> outcome->Some_0.contains_key(
                    #[trigger] part.output_wires[k],
                ) && outcome->Some_0[part.output_wires[k]] == values[part.output_wires[k]]
        }),
{
    let gates = circuit.gates@;
    let values = wire_values(circuit.input_wires@, gates, bits)->Some_0;
    lemma_same_wiring(circuit, bits, gc);
    lemma_slice_bounds(gates.len(), max, i);
    let lo = i * max;
    let hi = slice_end(gates.len(), max, i);
    let part = slice_of(gc, max, i);
    lemma_run_reaches_final_values(circuit, bits, gc, lo, hi);
    let outcome = after_plain_gates(
        local_start(circuit, bits, gc, lo, hi),
        gates.subrange(lo, hi),
    )->Some_0;
    assert forall|k: int| 0 <= k < part.output_wires.len() implies outcome.contains_key(
        #[trigger] part.output_wires[k],
    ) && outcome[part.output_wires[k]] == values[part.output_wires[k]] by {
        let w = part.output_wires[k];
        assert(part.output_wires.contains(w));
        lemma_slice_outputs_meaning(gc, lo, hi, w);
        let e = choose|e: int|
            0 <= e < part.gates.len() && (#[trigger] part.gates[e]).output_wire == w;
        assert(part.gates[e] == gc.gates[lo + e]);
        assert(gates[lo + e].output_wire == w);
    }
}

/// The values given to the input wires of a run of gates are those that the
/// wires have before the run.
proof fn lemma_local_start_is_part_of_whole(
    circuit: Circuit,
    bits: Seq<u8>,
    gc: GarbledCircuitView,
    lo: int,
    hi: int,
)
    requires
        honest(circuit, bits, gc),
        0 <= lo <= hi <= circuit.gates@.len(),
    ensures
        values_before(start_values(circuit, bits), circuit.gates@, lo) is Some,
        within(
            local_start(circuit, bits, gc, lo, hi),
            values_before(start_values(circuit, bits), circuit.gates@, lo)->Some_0,
        ),
{
    let gates = circuit.gates@;
    let start = start_values(circuit, bits);
    let values = after_plain_gates(start, gates)->Some_0;
    let wires = local_inputs(gc.gates.subrange(lo, hi));
    let chosen = choice_bits(wires, values);
    let local = local_start(circuit, bits, gc, lo, hi);
    lemma_same_wiring(circuit, bits, gc);
    lemma_local_inputs_meaning(gc.gates.subrange(lo, hi));
    lemma_assigned_inputs_domain(wires, chosen, wires.len() as int);
    lemma_chosen_values(wires, values, wires.len() as int);
    assert(wires.take(wires.len() as int) =~= wires);
    lemma_prefix_evaluates(start, gates, lo);
    let at_lo = values_before(start, gates, lo)->Some_0;
    assert forall|w: usize| #[trigger] local.contains_key(w) implies at_lo.contains_key(w)
        && local[w] == at_lo[w] by {
        assert(wires.contains(w));
        lemma_local_input_is_final(start, gates, gc.gates, lo, hi, w);
    }
}

/// Every gate of a run reads an input wire of the run or what an earlier
/// gate of the run produced.
proof fn lemma_run_reads_what_it_has(
    circuit: Circuit,
    bits: Seq<u8>,
    gc: GarbledCircuitView,
    lo: int,
    hi: int,
)
    requires
        honest(circuit, bits, gc),
        0 <= lo <= hi <= circuit.gates@.len(),
    ensures
        forall|m: int, w: usize|
            0 <= m < hi - lo && #[trigger] circuit.gates@[lo + m].reads(w) ==> local_start(
                circuit,
                bits,
                gc,
                lo,
                hi,
            ).contains_key(w) || exists|e: int|
                0 <= e < m && (#[trigger] circuit.gates@[lo + e]).output_wire == w,
{
    let gates = circuit.gates@;
    let run = gc.gates.subrange(lo, hi);
    let values = wire_values(circuit.input_wires@, gates, bits)->Some_0;
    let wires = local_inputs(run);
    let chosen = choice_bits(wires, values);
    let local = local_start(circuit, bits, gc, lo, hi);
    lemma_same_wiring(circuit, bits, gc);
    lemma_local_inputs_meaning(run);
    lemma_assigned_inputs_domain(wires, chosen, wires.len() as int);
    assert(wires.take(wires.len() as int) =~= wires);
    assert forall|m: int, w: usize| 0 <= m < hi - lo && #[trigger] gates[lo + m].reads(w) implies
        local.contains_key(w) || exists|e: int|
        0 <= e < m && (#[trigger] gates[lo + e]).output_wire == w by {
        if !(exists|e: int| 0 <= e < m && (#[trigger] gates[lo + e]).output_wire == w) {
            assert(run[m] == gc.gates[lo + m]);
            assert(run[m].reads(w));
            if produces(run.take(m), w) {
                let e = choose|e: int|
                    0 <= e < run.take(m).len() && (#[trigger] run.take(m)[e]).output_wire == w;
                assert(run.take(m)[e] == gc.gates[lo + e]);
                assert(gates[lo + e].output_wire == w);
            }
            assert(reads_from_outside(run, w));
            assert(wires.contains(w));
        }
    }
}

/// A run of gates of an honest run, evaluated on its own from the final
/// values of its input wires, goes through and gives the output of each of
/// its gates its final value.
proof fn lemma_run_reaches_final_values(
    circuit: Circuit,
    bits: Seq<u8>,
    gc: GarbledCircuitView,
    lo: int,
    hi: int,
)
    requires
        honest(circuit, bits, gc),
        0 <= lo <= hi <= circuit.gates@.len(),
    ensures
        after_plain_gates(
            local_start(circuit, bits, gc, lo, hi),
            circuit.gates@.subrange(lo, hi),
        ) is Some,
        forall|e: int|
            lo <= e < hi ==> {
                let w = (#[trigger] circuit.gates@[e]).output_wire;
                let outcome = after_plain_gates(
                    local_start(circuit, bits, gc, lo, hi),
                    circuit.gates@.subrange(lo, hi),
                )->Some_0;
                outcome.contains_key(w) && outcome[w] == wire_values(
                    circuit.input_wires@,
                    circuit.gates@,
                    bits,
                )->Some_0[w]
            },
{
    let gates = circuit.gates@;
    let n = gates.len() as int;
    let start = start_values(circuit, bits);
    let local = local_start(circuit, bits, gc, lo, hi);
    lemma_same_wiring(circuit, bits, gc);
    lemma_local_start_is_part_of_whole(circuit, bits, gc, lo, hi);
    lemma_run_reads_what_it_has(circuit, bits, gc, lo, hi);
    lemma_prefix_evaluates(start, gates, hi);
    lemma_run_agrees_with_whole(start, gates, lo, hi - lo, local);
    let outcome = after_plain_gates(local, gates.subrange(lo, hi))->Some_0;
    let at_hi = values_before(start, gates, hi)->Some_0;
    assert forall|e: int| lo <= e < hi implies outcome.contains_key(
        (#[trigger] gates[e]).output_wire,
    ) && outcome[gates[e].output_wire] == after_plain_gates(
        start,
        gates,
    )->Some_0[gates[e].output_wire] by {
        let w = gates[e].output_wire;
        assert(outcome.contains_key(gates[lo + (e - lo)].output_wire));
        assert(outcome.dom().contains(w));
        assert(at_hi.dom().contains(w) && outcome[w] == at_hi[w]);
        assert forall|j: int| hi <= j < n implies (#[trigger] gates[j]).output_wire != w by {
            assert(gates[e].output_wire != gates[j].output_wire);
        }
        assert(gates.take(n) =~= gates);
        lemma_unwritten_wire_keeps_value(start, gates, hi, n, w);
    }
}

/// Every input wire of a partition of an honest run has well-formed keys in
/// the partition.
proof fn lemma_partition_inputs_keyed(
    circuit: Circuit,
    bits: Seq<u8>,
    gc: GarbledCircuitView,
    max: nat,
    i: int,
)
    requires
        max > 0,
        honest(circuit, bits, gc),
        0 <= i < slice_count(gc.gates.len(), max),
    ensures
        forall|k: int|
            0 <= k < slice_of(gc, max, i).input_wires.len() ==> assigned(
                slice_of(gc, max, i).wire_keys,
                #[trigger] slice_of(gc, max, i).input_wires[k],
            ),
{
    let gates = circuit.gates@;
    lemma_same_wiring(circuit, bits, gc);
    lemma_slice_bounds(gates.len(), max, i);
    let lo = i * max;
    let hi = slice_end(gates.len(), max, i);
    let part = slice_of(gc, max, i);
    let plain = gates.subrange(lo, hi);
    let wires = part.input_wires;
    lemma_partition_is_honest(circuit, bits, gc, max, i);
    lemma_local_inputs_meaning(part.gates);
    assert forall|k: int| 0 <= k < wires.len() implies assigned(
        part.wire_keys,
        #[trigger] wires[k],
    ) by {
        let w = wires[k];
        assert(local_inputs(part.gates).contains(w));
        let j = choose|j: int|
            0 <= j < part.gates.len() && (#[trigger] part.gates[j]).reads(w) && !produces(
                part.gates.take(j),
                w,
            );
        assert(part.gates[j] == gc.gates[lo + j]);
        assert(plain[j] == gates[lo + j]);
        assert(plain[j].reads(w));
        assert(gate_assigned(part.wire_keys, plain[j]));
    }
}

/// Every partition of an honest run verifies.
///
/// Let `gc` hold the garbled tables of a circuit under well-formed keys, all
/// unambiguous; let values only flow forwards in the circuit, let no wire be
/// the output of two gates, and let the circuit be evaluated in plain on
/// `bits`. Take partition `i` of `gc` for partitions of `max` gates, with
/// the values of its input wires as the evaluator's bits and the commitments
/// to the keys of the values of its output wires. Then the evaluation of the
/// partition verifies, and finds exactly these keys.
#[verifier::rlimit(30)]
pub proof fn lemma_honest_run_verifies(
    circuit: Circuit,
    bits: Seq<u8>,
    gc: GarbledCircuitView,
    max: nat,
    i: int,
    seeds: Seq<Seq<u8>>,
)
    requires
        max > 0,
        honest(circuit, bits, gc),
        0 <= i < slice_count(gc.gates.len(), max),
        seeds.len() == slice_of(gc, max, i).input_wires.len(),
    ensures
        ({
            let part = slice_of(gc, max, i);
            let values = wire_values(circuit.input_wires@, circuit.gates@, bits)->Some_0;
            evaluation(
                part,
                seeds,
                choice_bits(part.input_wires, values),
                expected_commitments(part.output_wires, part.wire_keys, values),
            ) == VerificationResultView {
                verified: true,
                output_keys: Some(expected_keys(part.output_wires, part.wire_keys, values)),
            }
        }),
{
    let gates = circuit.gates@;
    let values = wire_values(circuit.input_wires@, gates, bits)->Some_0;
    let lo = i * max;
    let hi = slice_end(gates.len(), max, i);
    let part = slice_of(gc, max, i);
    let plain = gates.subrange(lo, hi);
    let wires = part.input_wires;
    let chosen = choice_bits(wires, values);
    let local = assigned_inputs(wires, chosen, wires.len() as int);
    let outcome = after_plain_gates(local, plain)->Some_0;
    assert(gc.gates.len() == gates.len()) by {
        lemma_partition_is_honest(circuit, bits, gc, max, i);
    }
    assert(local == local_start(circuit, bits, gc, lo, hi));
    assert(after_plain_gates(local, plain) is Some && forall|k: int|
        0 <= k < part.output_wires.len() ==> outcome.contains_key(#[trigger] part.output_wires[k])
            && outcome[part.output_wires[k]] == values[part.output_wires[k]]) by {
        lemma_partition_outputs_final(circuit, bits, gc, max, i);
    }
    assert(expected_commitments(part.output_wires, part.wire_keys, outcome)
        =~= expected_commitments(part.output_wires, part.wire_keys, values));
    assert(expected_keys(part.output_wires, part.wire_keys, outcome) =~= expected_keys(
        part.output_wires,
        part.wire_keys,
        values,
    ));
    assert(evaluation(
        part,
        seeds,
        chosen,
        expected_commitments(part.output_wires, part.wire_keys, outcome),
    ) == VerificationResultView {
        verified: true,
        output_keys: Some(expected_keys(part.output_wires, part.wire_keys, outcome)),
    }) by {
        lemma_partition_is_honest(circuit, bits, gc, max, i);
        lemma_partition_inputs_keyed(circuit, bits, gc, max, i);
        lemma_honest_partition_verifies(part, plain, values, seeds);
    }
}

} // verus!
