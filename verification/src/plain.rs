//! Evaluating a circuit on plain bits: what the garbled evaluation is
//! measured against.

use crate::circuit::{Circuit, Gate};
use std::collections::HashMap;
use vstd::prelude::*;

verus! {

/// The values of the first `n` of `wires` when wire `i` carries the bit
/// `bits[i]`. A wire that stands twice carries its last bit.
pub open spec fn assigned_inputs(wires: Seq<usize>, bits: Seq<u8>, n: int) -> Map<usize, bool>
    decreases n,
{
    if n <= 0 {
        Map::empty()
    } else {
        assigned_inputs(wires, bits, n - 1).insert(wires[n - 1], bits[n - 1] == 1)
    }
}

/// Whether every byte is 0 or 1.
pub open spec fn are_bits(bits: Seq<u8>) -> bool {
    forall|i: int| 0 <= i < bits.len() ==> #[trigger] bits[i] <= 1
}

/// The values of the wires after gate `g`: the value of its output is added.
/// Nothing where an input of `g` has no value.
pub open spec fn after_plain_gate(values: Map<usize, bool>, g: Gate) -> Option<Map<usize, bool>> {
    if !values.contains_key(g.left_wire) || (!g.gate_type.is_unary() && !values.contains_key(
        g.right_wire,
    )) {
        None
    } else {
        let right = if g.gate_type.is_unary() {
            false
        } else {
            values[g.right_wire]
        };
        Some(values.insert(g.output_wire, g.gate_type.output(values[g.left_wire], right)))
    }
}

/// The values of the wires after `gates`, evaluated in their order.
pub open spec fn after_plain_gates(values: Map<usize, bool>, gates: Seq<Gate>) -> Option<
    Map<usize, bool>,
>
    decreases gates.len(),
{
    if gates.len() == 0 {
        Some(values)
    } else {
        match after_plain_gates(values, gates.drop_last()) {
            None => None,
            Some(before) => after_plain_gate(before, gates.last()),
        }
    }
}

/// The values of all wires of a circuit whose input wires carry `bits`.
/// Nothing unless there is one bit per input wire and every gate finds the
/// values of its inputs.
pub open spec fn wire_values(inputs: Seq<usize>, gates: Seq<Gate>, bits: Seq<u8>) -> Option<
    Map<usize, bool>,
> {
    if bits.len() != inputs.len() || !are_bits(bits) {
        None
    } else {
        after_plain_gates(assigned_inputs(inputs, bits, inputs.len() as int), gates)
    }
}

/// Once a gate has found no value, the evaluation as a whole has failed.
pub proof fn lemma_plain_none_stays(values: Map<usize, bool>, gates: Seq<Gate>, n: int)
    requires
        0 <= n <= gates.len(),
        after_plain_gates(values, gates.take(n)) is None,
    ensures
        after_plain_gates(values, gates) is None,
    decreases gates.len() - n,
{
    if n < gates.len() {
        assert(gates.take(n + 1).drop_last() =~= gates.take(n));
        lemma_plain_none_stays(values, gates, n + 1);
    } else {
        assert(gates.take(n) =~= gates);
    }
}

impl Circuit {
    /// Evaluates the circuit on `bits`, one for each input wire in turn:
    /// computes [`wire_values`].
    pub fn evaluate(&self, bits: &Vec<u8>) -> (values: Option<HashMap<usize, bool>>)
        ensures
            match values {
                Some(v) => wire_values(self.input_wires@, self.gates@, bits@) == Some(v@),
                None => wire_values(self.input_wires@, self.gates@, bits@) is None,
            },
    {
        broadcast use vstd::std_specs::hash::group_hash_axioms;

        if bits.len() != self.input_wires.len() {
            return None;
        }
        let mut values: HashMap<usize, bool> = HashMap::new();
        let mut i: usize = 0;
        while i < bits.len()
            invariant
                i <= bits@.len(),
                bits@.len() == self.input_wires@.len(),
                forall|j: int| 0 <= j < i ==> #[trigger] bits@[j] <= 1,
                values@ == assigned_inputs(self.input_wires@, bits@, i as int),
            decreases bits@.len() - i,
        {
            if bits[i] > 1 {
                return None;
            }
            values.insert(self.input_wires[i], bits[i] == 1);
            i += 1;
        }
        let ghost start = values@;
        let mut i: usize = 0;
        assert(self.gates@.take(0) =~= Seq::empty());
        while i < self.gates.len()
            invariant
                i <= self.gates@.len(),
                are_bits(bits@),
                bits@.len() == self.input_wires@.len(),
                start == assigned_inputs(self.input_wires@, bits@, bits@.len() as int),
                after_plain_gates(start, self.gates@.take(i as int)) == Some(values@),
            decreases self.gates@.len() - i,
        {
            let g = self.gates[i];
            proof {
                assert(self.gates@.take(i + 1).drop_last() =~= self.gates@.take(i as int));
                assert(self.gates@.take(i + 1).last() == g);
            }
            let left = match values.get(&g.left_wire) {
                Some(v) => *v,
                None => {
                    proof {
                        lemma_plain_none_stays(start, self.gates@, i + 1);
                    }
                    return None;
                },
            };
            let right = if g.gate_type.unary() {
                false
            } else {
                match values.get(&g.right_wire) {
                    Some(v) => *v,
                    None => {
                        proof {
                            lemma_plain_none_stays(start, self.gates@, i + 1);
                        }
                        return None;
                    },
                }
            };
            values.insert(g.output_wire, g.gate_type.apply(left, right));
            i += 1;
        }
        assert(self.gates@.take(i as int) =~= self.gates@);
        Some(values)
    }
}

/// The bits of the first `n` input wires give a value to exactly these
/// wires.
pub proof fn lemma_assigned_inputs_domain(wires: Seq<usize>, bits: Seq<u8>, n: int)
    requires
        0 <= n <= wires.len(),
    ensures
        forall|w: usize| #[trigger]
            assigned_inputs(wires, bits, n).contains_key(w) <==> wires.take(n).contains(w),
    decreases n,
{
    if n > 0 {
        lemma_assigned_inputs_domain(wires, bits, n - 1);
        let shorter = wires.take(n - 1);
        let longer = wires.take(n);
        assert forall|w: usize| #[trigger]
            assigned_inputs(wires, bits, n).contains_key(w) <==> longer.contains(w) by {
            let before = assigned_inputs(wires, bits, n - 1);
            assert(before.contains_key(w) <==> shorter.contains(w));
            assert(assigned_inputs(wires, bits, n) == before.insert(wires[n - 1], bits[n - 1] == 1));
            if shorter.contains(w) {
                let i = choose|i: int| 0 <= i < shorter.len() && shorter[i] == w;
                assert(longer[i] == w);
            }
            if w == wires[n - 1] {
                assert(longer[n - 1] == w);
            }
            if longer.contains(w) {
                let i = choose|i: int| 0 <= i < longer.len() && longer[i] == w;
                if i < n - 1 {
                    assert(shorter[i] == w);
                }
            }
        }
    }
}

/// The gates of a well-ordered circuit before gate `n` find the values of
/// their inputs, and give a value to exactly the wires that are available
/// before gate `n`.
proof fn lemma_well_ordered_prefix(circuit: Circuit, bits: Seq<u8>, n: int)
    requires
        circuit.well_ordered(),
        0 <= n <= circuit.gates@.len(),
    ensures
        after_plain_gates(
            assigned_inputs(circuit.input_wires@, bits, circuit.input_wires@.len() as int),
            circuit.gates@.take(n),
        ) is Some,
        after_plain_gates(
            assigned_inputs(circuit.input_wires@, bits, circuit.input_wires@.len() as int),
            circuit.gates@.take(n),
        )->Some_0.dom() =~= circuit.available(n),
    decreases n,
{
    let wires = circuit.input_wires@;
    let start = assigned_inputs(wires, bits, wires.len() as int);
    lemma_assigned_inputs_domain(wires, bits, wires.len() as int);
    assert(wires.take(wires.len() as int) =~= wires);
    if n > 0 {
        lemma_well_ordered_prefix(circuit, bits, n - 1);
        let g = circuit.gates@[n - 1];
        assert(circuit.gates@.take(n).drop_last() =~= circuit.gates@.take(n - 1));
        assert(circuit.gates@.take(n).last() == g);
        let before = after_plain_gates(start, circuit.gates@.take(n - 1))->Some_0;
        assert(circuit.gates@[n - 1].reads(g.left_wire));
        assert(circuit.available(n - 1).contains(g.left_wire));
        if !g.gate_type.is_unary() {
            assert(circuit.gates@[n - 1].reads(g.right_wire));
            assert(circuit.available(n - 1).contains(g.right_wire));
        }
        let after = after_plain_gate(before, g)->Some_0;
        assert forall|w: usize| after.dom().contains(w) == circuit.available(n).contains(w) by {
            if before.dom().contains(w) && !wires.contains(w) {
                let k = choose|k: int|
                    0 <= k < n - 1 && k < circuit.gates@.len() && (
                    #[trigger] circuit.gates@[k]).output_wire == w;
                assert(0 <= k < n && circuit.gates@[k].output_wire == w);
            }
            if w == g.output_wire {
                assert(circuit.gates@[n - 1].output_wire == w);
            }
            if circuit.available(n).contains(w) && !wires.contains(w) {
                let k = choose|k: int|
                    0 <= k < n && k < circuit.gates@.len() && (
                    #[trigger] circuit.gates@[k]).output_wire == w;
                if k < n - 1 {
                    assert(circuit.available(n - 1).contains(w));
                }
            }
        }
    } else {
        assert(circuit.gates@.take(0) =~= Seq::empty());
        assert(start.dom() =~= circuit.available(0));
    }
}

/// A well-ordered circuit can be evaluated on any bits, one for each of its
/// input wires, and the evaluation gives a value to its input wires and to
/// the output wire of each of its gates.
pub proof fn lemma_well_ordered_evaluates(circuit: Circuit, bits: Seq<u8>)
    requires
        circuit.well_ordered(),
        bits.len() == circuit.input_wires@.len(),
        are_bits(bits),
    ensures
        wire_values(circuit.input_wires@, circuit.gates@, bits) is Some,
        wire_values(circuit.input_wires@, circuit.gates@, bits)->Some_0.dom()
            =~= circuit.available(circuit.gates@.len() as int),
{
    lemma_well_ordered_prefix(circuit, bits, circuit.gates@.len() as int);
    assert(circuit.gates@.take(circuit.gates@.len() as int) =~= circuit.gates@);
}

/// Whether every wire that has a value in `part` has the same value in
/// `whole`.
pub open spec fn within(part: Map<usize, bool>, whole: Map<usize, bool>) -> bool {
    forall|w: usize| #[trigger] part.contains_key(w) ==> whole.contains_key(w) && part[w] == whole[w]
}

/// The values of the wires before gate `j` of `gates` is evaluated, from the
/// values `start`.
pub open spec fn values_before(start: Map<usize, bool>, gates: Seq<Gate>, j: int) -> Option<
    Map<usize, bool>,
> {
    after_plain_gates(start, gates.take(j))
}

/// Where the gates before `b` can be evaluated, so can the gates before any
/// earlier `a`, and a wire that no gate from `a` to `b` produces has before
/// `b` what it had before `a`.
pub proof fn lemma_unwritten_wire_keeps_value(
    start: Map<usize, bool>,
    gates: Seq<Gate>,
    a: int,
    b: int,
    w: usize,
)
    requires
        0 <= a <= b <= gates.len(),
        values_before(start, gates, b) is Some,
        forall|j: int| a <= j < b ==> (#[trigger] gates[j]).output_wire != w,
    ensures
        values_before(start, gates, a) is Some,
        values_before(start, gates, a)->Some_0.contains_key(w) == values_before(
            start,
            gates,
            b,
        )->Some_0.contains_key(w),
        values_before(start, gates, a)->Some_0.contains_key(w) ==> values_before(
            start,
            gates,
            a,
        )->Some_0[w] == values_before(start, gates, b)->Some_0[w],
    decreases b - a,
{
    if a < b {
        assert(gates.take(b).drop_last() =~= gates.take(b - 1));
        assert(gates.take(b).last() == gates[b - 1]);
        assert(gates[b - 1].output_wire != w);
        lemma_unwritten_wire_keeps_value(start, gates, a, b - 1, w);
    }
}

/// A run of gates evaluated on its own agrees with the evaluation of the
/// whole.
///
/// Let the gates before `lo + k` be evaluated from `start`, and let the `k`
/// gates from `lo` on be evaluated on their own from `local`, which holds
/// some of the values that the wires have before gate `lo`. If each of these
/// gates reads only wires that `local` has or that an earlier one of them
/// produces, the evaluation on their own goes through, keeps the wires of
/// `local`, gives a value to the outputs of these gates, and gives each wire
/// the value that it has before gate `lo + k` in the whole.
#[verifier::rlimit(30)]
pub proof fn lemma_run_agrees_with_whole(
    start: Map<usize, bool>,
    gates: Seq<Gate>,
    lo: int,
    k: int,
    local: Map<usize, bool>,
)
    requires
        0 <= lo,
        0 <= k,
        lo + k <= gates.len(),
        values_before(start, gates, lo + k) is Some,
        values_before(start, gates, lo) is Some,
        within(local, values_before(start, gates, lo)->Some_0),
        forall|m: int, w: usize|
            0 <= m < k && #[trigger] gates[lo + m].reads(w) ==> local.contains_key(w) || exists|
                e: int,
            | 0 <= e < m && (#[trigger] gates[lo + e]).output_wire == w,
    ensures
        after_plain_gates(local, gates.subrange(lo, lo + k)) is Some,
        within(
            after_plain_gates(local, gates.subrange(lo, lo + k))->Some_0,
            values_before(start, gates, lo + k)->Some_0,
        ),
        forall|w: usize|
            local.contains_key(w) ==> #[trigger] after_plain_gates(
                local,
                gates.subrange(lo, lo + k),
            )->Some_0.contains_key(w),
        forall|e: int|
            0 <= e < k ==> after_plain_gates(
                local,
                gates.subrange(lo, lo + k),
            )->Some_0.contains_key((#[trigger] gates[lo + e]).output_wire),
    decreases k,
{
    if k == 0 {
        assert(gates.subrange(lo, lo) =~= Seq::empty());
    } else {
        let g = gates[lo + k - 1];
        assert(gates.take(lo + k).drop_last() =~= gates.take(lo + k - 1));
        assert(gates.take(lo + k).last() == g);
        assert(gates.subrange(lo, lo + k).drop_last() =~= gates.subrange(lo, lo + k - 1));
        assert(gates.subrange(lo, lo + k).last() == g);
        assert(values_before(start, gates, lo + k - 1) is Some);
        lemma_run_agrees_with_whole(start, gates, lo, k - 1, local);
        let mine = after_plain_gates(local, gates.subrange(lo, lo + k - 1))->Some_0;
        let whole = values_before(start, gates, lo + k - 1)->Some_0;
        assert forall|w: usize| g.reads(w) implies mine.contains_key(w) by {
            assert(gates[lo + (k - 1)].reads(w));
            if !local.contains_key(w) {
                let e = choose|e: int|
                    0 <= e < k - 1 && (#[trigger] gates[lo + e]).output_wire == w;
                assert(mine.contains_key(gates[lo + e].output_wire));
            }
        }
        assert(g.reads(g.left_wire));
        if !g.gate_type.is_unary() {
            assert(g.reads(g.right_wire));
        }
        let after = after_plain_gate(mine, g)->Some_0;
        let whole_after = values_before(start, gates, lo + k)->Some_0;
        assert(within(mine, whole));
        assert(mine.contains_key(g.left_wire));
        if !g.gate_type.is_unary() {
            assert(mine.contains_key(g.right_wire));
        }
        let right = if g.gate_type.is_unary() {
            false
        } else {
            mine[g.right_wire]
        };
        let value = g.gate_type.output(mine[g.left_wire], right);
        assert(after == mine.insert(g.output_wire, value));
        assert(whole_after == whole.insert(g.output_wire, value));
        assert forall|w: usize| #[trigger] after.contains_key(w) implies whole_after.contains_key(
            w,
        ) && after[w] == whole_after[w] by {
            if w != g.output_wire {
                assert(mine.contains_key(w));
            }
        }
        assert forall|e: int| 0 <= e < k implies after.contains_key(
            (#[trigger] gates[lo + e]).output_wire,
        ) by {
            if e < k - 1 {
                assert(mine.contains_key(gates[lo + e].output_wire));
            }
        }
    }
}

} // verus!
