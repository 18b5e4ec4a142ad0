//! Why honest garbling verifies: a partition that was garbled as this
//! library garbles, evaluated on the keys of the plain values of its input
//! wires, yields the keys of the plain values of its output wires.

use crate::circuit::Gate;
use crate::garble::{all_assigned, all_unambiguous, garbled_gate, garbled_gates, gate_assigned, lemma_selected_row_opens, open, row_pad, row_tag, selected_row, unambiguous, GarbledCircuitView, GarbledGateView};
use crate::keys::{assigned, WireKeysView};
use crate::partition::{lemma_slice_bounds, slice_count, slice_end, slice_of, touches};
use crate::plain::{after_plain_gate, after_plain_gates, assigned_inputs};
use crate::runner::{after_gate, after_gates, bit_of, choice_bits, commitments_met, evaluation, expected_commitments, expected_keys, keys_of_outputs, opened, received_inputs, transferred_key, VerificationResultView};
use crate::xor_masked_ot::lemma_transfer_delivers_selected;
use vstd::prelude::*;

verus! {

/// Whether the evaluator holds a key for exactly the wires that have a
/// value, and for each of them the key that stands for its value.
pub open spec fn encodes(
    held: Map<usize, Seq<u8>>,
    values: Map<usize, bool>,
    table: Map<usize, WireKeysView>,
) -> bool {
    &&& forall|w: usize| #[trigger] held.contains_key(w) == values.contains_key(w)
    &&& forall|w: usize| #[trigger]
        values.contains_key(w) ==> table.contains_key(w) && held[w] == table[w].select(values[w])
}

/// A pad that opens no row yields no key.
pub proof fn lemma_opened_none(pad: Seq<u8>, rows: Seq<Seq<u8>>)
    requires
        forall|j: int| 0 <= j < rows.len() ==> open(pad, #[trigger] rows[j]) is None,
    ensures
        opened(pad, rows) == Seq::<Seq<u8>>::empty(),
    decreases rows.len(),
{
    if rows.len() > 0 {
        lemma_opened_none(pad, rows.drop_last());
    }
}

/// A pad that opens the row `r` alone yields the key of that row alone.
pub proof fn lemma_opened_single(pad: Seq<u8>, rows: Seq<Seq<u8>>, r: int, key: Seq<u8>)
    requires
        0 <= r < rows.len(),
        open(pad, rows[r]) == Some(key),
        forall|j: int| 0 <= j < rows.len() && j != r ==> open(pad, #[trigger] rows[j]) is None,
    ensures
        opened(pad, rows) == seq![key],
    decreases rows.len(),
{
    let before = rows.drop_last();
    if r == rows.len() - 1 {
        lemma_opened_none(pad, before);
        assert(Seq::<Seq<u8>>::empty().push(key) =~= seq![key]);
    } else {
        assert(before[r] == rows[r]);
        lemma_opened_single(pad, before, r, key);
    }
}

/// No pad opens two rows of an unambiguous table.
pub proof fn lemma_at_most_one_row_opens(pad: Seq<u8>, g: GarbledGateView)
    requires
        unambiguous(g),
    ensures
        opened(pad, g.ciphertexts).len() <= 1,
{
    let rows = g.ciphertexts;
    if exists|r: int| 0 <= r < rows.len() && open(pad, #[trigger] rows[r]) is Some {
        let r = choose|r: int| 0 <= r < rows.len() && open(pad, #[trigger] rows[r]) is Some;
        assert forall|j: int| 0 <= j < rows.len() && j != r implies open(pad, #[trigger] rows[j])
            is None by {
            assert(row_tag(rows[r]) != row_tag(rows[j]));
        }
        lemma_opened_single(pad, rows, r, open(pad, rows[r])->Some_0);
    } else {
        lemma_opened_none(pad, rows);
    }
}

/// The evaluator whose bit is the value of a wire receives the key that
/// stands for that value.
pub proof fn lemma_transfer_selects(keys: WireKeysView, seed: Seq<u8>, value: bool)
    requires
        keys.wf(),
    ensures
        transferred_key(keys, seed, bit_of(value)) == keys.select(value),
{
    lemma_transfer_delivers_selected(seed, bit_of(value), keys.key0, keys.key1);
}

/// After the transfers for the first `n` input wires the evaluator holds the
/// keys that stand for the values of these wires.
pub proof fn lemma_inputs_received(
    part: GarbledCircuitView,
    seeds: Seq<Seq<u8>>,
    values: Map<usize, bool>,
    n: int,
)
    requires
        0 <= n <= part.input_wires.len(),
        forall|i: int|
            0 <= i < part.input_wires.len() ==> assigned(
                part.wire_keys,
                #[trigger] part.input_wires[i],
            ),
    ensures
        received_inputs(part, seeds, choice_bits(part.input_wires, values), n) is Some,
        encodes(
            received_inputs(part, seeds, choice_bits(part.input_wires, values), n)->Some_0,
            assigned_inputs(part.input_wires, choice_bits(part.input_wires, values), n),
            part.wire_keys,
        ),
    decreases n,
{
    if n > 0 {
        lemma_inputs_received(part, seeds, values, n - 1);
        let w = part.input_wires[n - 1];
        let bits = choice_bits(part.input_wires, values);
        assert(assigned(part.wire_keys, w));
        assert(bits[n - 1] == bit_of(values[w]));
        lemma_transfer_selects(part.wire_keys[w], seeds[n - 1], values[w]);
    }
}

/// Under the keys of any one combination of input values exactly one row of
/// an unambiguous table opens, and it holds the key of the output of `g` on
/// these values.
pub proof fn lemma_exactly_one_row_opens(
    g: Gate,
    l: WireKeysView,
    r: WireKeysView,
    o: WireKeysView,
    a: bool,
    b: bool,
)
    requires
        l.wf(),
        g.gate_type.is_unary() || r.wf(),
        o.wf(),
        unambiguous(garbled_gate(g, l, r, o)),
    ensures
        opened(
            row_pad(
                l.select(a),
                if g.gate_type.is_unary() {
                    Seq::empty()
                } else {
                    r.select(b)
                },
                g.output_wire,
            ),
            garbled_gate(g, l, r, o).ciphertexts,
        ) == seq![o.select(g.gate_type.output(a, b))],
{
    let unary = g.gate_type.is_unary();
    let rows = garbled_gate(g, l, r, o).ciphertexts;
    let right = if unary {
        Seq::<u8>::empty()
    } else {
        r.select(b)
    };
    let pad = row_pad(l.select(a), right, g.output_wire);
    let row = selected_row(l.select(a), right, unary);
    lemma_selected_row_opens(g, l, r, o, a, b);
    assert forall|j: int| 0 <= j < rows.len() && j != row implies open(pad, #[trigger] rows[j])
        is None by {
        assert(row_tag(rows[row]) != row_tag(rows[j]));
    }
    lemma_opened_single(pad, rows, row, o.select(g.gate_type.output(a, b)));
}

/// A gate that finds the keys of the plain values of its inputs puts the
/// key of the plain value of its output on its output wire.
pub proof fn lemma_gate_goes_through(
    held: Map<usize, Seq<u8>>,
    values: Map<usize, bool>,
    table: Map<usize, WireKeysView>,
    g: Gate,
)
    requires
        gate_assigned(table, g),
        unambiguous(
            garbled_gate(g, table[g.left_wire], table[g.right_wire], table[g.output_wire]),
        ),
        encodes(held, values, table),
        after_plain_gate(values, g) is Some,
    ensures
        after_gate(
            held,
            garbled_gate(g, table[g.left_wire], table[g.right_wire], table[g.output_wire]),
        ) is Some,
        encodes(
            after_gate(
                held,
                garbled_gate(g, table[g.left_wire], table[g.right_wire], table[g.output_wire]),
            )->Some_0,
            after_plain_gate(values, g)->Some_0,
            table,
        ),
{
    let l = table[g.left_wire];
    let r = table[g.right_wire];
    let o = table[g.output_wire];
    let garbled = garbled_gate(g, l, r, o);
    let rows = garbled.ciphertexts;
    let unary = g.gate_type.is_unary();
    assert(garbled.is_unary() == unary);
    assert(values.contains_key(g.left_wire));
    assert(held.contains_key(g.left_wire));
    let a = values[g.left_wire];
    let b = if unary {
        false
    } else {
        values[g.right_wire]
    };
    if !unary {
        assert(values.contains_key(g.right_wire));
        assert(held.contains_key(g.right_wire));
    }
    let right = if unary {
        Seq::<u8>::empty()
    } else {
        r.select(b)
    };
    let key = o.select(g.gate_type.output(a, b));
    lemma_exactly_one_row_opens(g, l, r, o, a, b);
    assert(seq![key].len() == 1 && seq![key][0] == key);
    assert(after_gate(held, garbled) == Some(held.insert(g.output_wire, key)));
}

/// Gates that find the keys of the plain values of their inputs, one after
/// the other, leave the evaluator with the keys of the plain values of all
/// wires.
pub proof fn lemma_gates_go_through(
    held: Map<usize, Seq<u8>>,
    values: Map<usize, bool>,
    table: Map<usize, WireKeysView>,
    gates: Seq<Gate>,
)
    requires
        all_assigned(gates, table),
        all_unambiguous(garbled_gates(gates, table)),
        encodes(held, values, table),
        after_plain_gates(values, gates) is Some,
    ensures
        after_gates(held, garbled_gates(gates, table)) is Some,
        encodes(
            after_gates(held, garbled_gates(gates, table))->Some_0,
            after_plain_gates(values, gates)->Some_0,
            table,
        ),
    decreases gates.len(),
{
    if gates.len() > 0 {
        let earlier = gates.drop_last();
        let g = gates.last();
        let garbled = garbled_gates(gates, table);
        assert(garbled.drop_last() =~= garbled_gates(earlier, table));
        assert(garbled.last() == garbled_gate(
            g,
            table[g.left_wire],
            table[g.right_wire],
            table[g.output_wire],
        ));
        assert forall|i: int| 0 <= i < earlier.len() implies gate_assigned(
            table,
            #[trigger] earlier[i],
        ) by {
            assert(earlier[i] == gates[i]);
        }
        assert forall|i: int| 0 <= i < earlier.len() implies unambiguous(
            #[trigger] garbled_gates(earlier, table)[i],
        ) by {
            assert(garbled_gates(earlier, table)[i] == garbled[i]);
        }
        lemma_gates_go_through(held, values, table, earlier);
        let before = after_gates(held, garbled_gates(earlier, table))->Some_0;
        let plain_before = after_plain_gates(values, earlier)->Some_0;
        assert(unambiguous(garbled[gates.len() - 1]));
        lemma_gate_goes_through(before, plain_before, table, g);
    } else {
        assert(garbled_gates(gates, table) =~= Seq::empty());
    }
}

/// An honestly garbled partition verifies.
///
/// Let `part` hold the garbled tables of the gates `plain` under its own
/// keys, all of them unambiguous, and let its input wires have well-formed
/// keys. Let the evaluator's bits be the values that `values` gives to the
/// input wires, let the plain evaluation of `plain` from these values go
/// through, and let the commitments be those to the keys of the plain values
/// of the output wires. Then the evaluation of `part` verifies, and finds
/// exactly these keys on the output wires.
pub proof fn lemma_honest_partition_verifies(
    part: GarbledCircuitView,
    plain: Seq<Gate>,
    values: Map<usize, bool>,
    seeds: Seq<Seq<u8>>,
)
    requires
        part.gates == garbled_gates(plain, part.wire_keys),
        all_assigned(plain, part.wire_keys),
        all_unambiguous(part.gates),
        forall|i: int|
            0 <= i < part.input_wires.len() ==> assigned(
                part.wire_keys,
                #[trigger] part.input_wires[i],
            ),
        seeds.len() == part.input_wires.len(),
        after_plain_gates(
            assigned_inputs(
                part.input_wires,
                choice_bits(part.input_wires, values),
                part.input_wires.len() as int,
            ),
            plain,
        ) is Some,
        forall|i: int|
            0 <= i < part.output_wires.len() ==> after_plain_gates(
                assigned_inputs(
                    part.input_wires,
                    choice_bits(part.input_wires, values),
                    part.input_wires.len() as int,
                ),
                plain,
            )->Some_0.contains_key(#[trigger] part.output_wires[i]),
    ensures
        ({
            let outcome = after_plain_gates(
                assigned_inputs(
                    part.input_wires,
                    choice_bits(part.input_wires, values),
                    part.input_wires.len() as int,
                ),
                plain,
            )->Some_0;
            evaluation(
                part,
                seeds,
                choice_bits(part.input_wires, values),
                expected_commitments(part.output_wires, part.wire_keys, outcome),
            ) == VerificationResultView {
                verified: true,
                output_keys: Some(expected_keys(part.output_wires, part.wire_keys, outcome)),
            }
        }),
{
    let bits = choice_bits(part.input_wires, values);
    let n = part.input_wires.len() as int;
    let start = assigned_inputs(part.input_wires, bits, n);
    let outcome = after_plain_gates(start, plain)->Some_0;
    lemma_inputs_received(part, seeds, values, n);
    let inputs = received_inputs(part, seeds, bits, n)->Some_0;
    lemma_gates_go_through(inputs, start, part.wire_keys, plain);
    let held = after_gates(inputs, part.gates)->Some_0;
    let keys = expected_keys(part.output_wires, part.wire_keys, outcome);
    let commitments = expected_commitments(part.output_wires, part.wire_keys, outcome);
    assert forall|i: int| 0 <= i < part.output_wires.len() implies held.contains_key(
        #[trigger] part.output_wires[i],
    ) by {
        assert(outcome.contains_key(part.output_wires[i]));
    }
    assert(keys_of_outputs(held, part.output_wires)->Some_0 =~= keys) by {
        assert forall|i: int| 0 <= i < part.output_wires.len() implies held[part.output_wires[i]]
            == #[trigger] keys[i] by {
            assert(outcome.contains_key(part.output_wires[i]));
        }
    }
    assert(commitments_met(keys, commitments));
}

/// A run of consecutive tables of an honestly garbled circuit, with the keys
/// of the wires that it touches, holds the garbled tables of its own gates
/// under these keys.
pub proof fn lemma_run_is_honest(
    gates: Seq<Gate>,
    table: Map<usize, WireKeysView>,
    lo: int,
    hi: int,
)
    requires
        0 <= lo <= hi <= gates.len(),
        all_assigned(gates, table),
    ensures
        ({
            let run = garbled_gates(gates, table).subrange(lo, hi);
            let keys = crate::partition::slice_keys(table, run);
            &&& run == garbled_gates(gates.subrange(lo, hi), keys)
            &&& all_assigned(gates.subrange(lo, hi), keys)
        }),
{
    let run = garbled_gates(gates, table).subrange(lo, hi);
    let keys = crate::partition::slice_keys(table, run);
    let plain = gates.subrange(lo, hi);
    let want = garbled_gates(plain, keys);
    assert forall|k: int| 0 <= k < plain.len() implies run[k] == #[trigger] want[k] by {
        lemma_gate_keeps_its_keys(gates, table, lo, hi, k);
    }
    assert forall|k: int| 0 <= k < plain.len() implies gate_assigned(keys, #[trigger] plain[k]) by {
        lemma_gate_keeps_its_keys(gates, table, lo, hi, k);
    }
    assert(run =~= want);
}

proof fn lemma_gate_keeps_its_keys(
    gates: Seq<Gate>,
    table: Map<usize, WireKeysView>,
    lo: int,
    hi: int,
    k: int,
)
    requires
        0 <= lo <= hi <= gates.len(),
        0 <= k < hi - lo,
        all_assigned(gates, table),
    ensures
        ({
            let run = garbled_gates(gates, table).subrange(lo, hi);
            let keys = crate::partition::slice_keys(table, run);
            let g = gates[lo + k];
            &&& gate_assigned(keys, g)
            &&& run[k] == garbled_gate(
                g,
                keys[g.left_wire],
                keys[g.right_wire],
                keys[g.output_wire],
            )
        }),
{
    let run = garbled_gates(gates, table).subrange(lo, hi);
    let keys = crate::partition::slice_keys(table, run);
    let g = gates[lo + k];
    let whole = run[k];
    assert(gate_assigned(table, g));
    assert(whole == garbled_gate(
        g,
        table[g.left_wire],
        table[g.right_wire],
        table[g.output_wire],
    ));
    assert(whole.is_unary() == g.gate_type.is_unary());
    assert(whole.mentions(g.left_wire) && whole.mentions(g.output_wire));
    assert(touches(run, g.left_wire) && touches(run, g.output_wire));
    assert(keys[g.left_wire] == table[g.left_wire]);
    assert(keys[g.output_wire] == table[g.output_wire]);
    if !g.gate_type.is_unary() {
        assert(whole.mentions(g.right_wire));
        assert(touches(run, g.right_wire));
        assert(keys[g.right_wire] == table[g.right_wire]);
    }
    let mine = garbled_gate(g, keys[g.left_wire], keys[g.right_wire], keys[g.output_wire]);
    assert(mine.ciphertexts =~= whole.ciphertexts);
}

/// Slice `i` of an honestly garbled circuit holds the garbled tables of the
/// gates `i * max ..` of the circuit under its own keys.
pub proof fn lemma_slice_is_honest(gates: Seq<Gate>, gc: GarbledCircuitView, max: nat, i: int)
    requires
        max > 0,
        gc.gates == garbled_gates(gates, gc.wire_keys),
        all_assigned(gates, gc.wire_keys),
        all_unambiguous(gc.gates),
        0 <= i < slice_count(gates.len(), max),
    ensures
        ({
            let part = slice_of(gc, max, i);
            let plain = gates.subrange(i * max, slice_end(gates.len(), max, i));
            &&& part.gates == garbled_gates(plain, part.wire_keys)
            &&& all_assigned(plain, part.wire_keys)
            &&& all_unambiguous(part.gates)
        }),
{
    lemma_slice_bounds(gates.len(), max, i);
    let lo = i * max;
    let hi = slice_end(gates.len(), max, i);
    assert(gc.gates.len() == gates.len());
    lemma_run_is_honest(gates, gc.wire_keys, lo, hi);
    let part = slice_of(gc, max, i);
    assert forall|k: int| 0 <= k < part.gates.len() implies unambiguous(#[trigger] part.gates[k]) by {
        assert(part.gates[k] == gc.gates[lo + k]);
    }
}

} // verus!
