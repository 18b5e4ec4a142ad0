//! Partitioning: a garbled circuit is cut into consecutive slices of its
//! gates. Each slice is a garbled circuit of its own, with the keys of the
//! wires that its gates touch.
//!
//! A wire that one slice produces and a later slice reads has the same keys
//! in both, since both take them from the one table of the whole circuit.
//! That only works forwards: a circuit in which a gate reads a wire that it
//! or a later gate produces is refused.

use crate::bytes::{byte_views, bytes_equal, contains_wire, copy_range};
use crate::errors::GcError;
use crate::garble::{assigned_keys, gate_views, GarbledCircuit, GarbledCircuitView, GarbledGate, GarbledGateView};
use crate::keys::{assigned, table_view, WireKeys, WireKeysView};
use std::collections::HashMap;
use std::collections::HashSet;
use vstd::prelude::*;

verus! {

/// Whether every wire of the garbled gate `g` has a well-formed pair of keys
/// in `table`.
pub open spec fn gate_keyed(table: Map<usize, WireKeysView>, g: GarbledGateView) -> bool {
    &&& assigned(table, g.left_wire)
    &&& g.is_unary() || assigned(table, g.right_wire)
    &&& assigned(table, g.output_wire)
}

/// Whether every wire of every gate has a well-formed pair of keys.
pub open spec fn all_keyed(gc: GarbledCircuitView) -> bool {
    forall|i: int| 0 <= i < gc.gates.len() ==> gate_keyed(gc.wire_keys, #[trigger] gc.gates[i])
}

/// Whether values only flow forwards: no gate reads the wire that it or a
/// later gate produces.
pub open spec fn feeds_forward(gates: Seq<GarbledGateView>) -> bool {
    forall|j: int, k: int|
        0 <= j <= k < gates.len() ==> !(#[trigger] gates[j]).reads((#[trigger] gates[k]).output_wire)
}

/// Whether some gate of `gates` produces wire `w`.
pub open spec fn produces(gates: Seq<GarbledGateView>, w: usize) -> bool {
    exists|k: int| 0 <= k < gates.len() && (#[trigger] gates[k]).output_wire == w
}

/// Whether some gate of `gates` reads wire `w`.
pub open spec fn consumes(gates: Seq<GarbledGateView>, w: usize) -> bool {
    exists|k: int| 0 <= k < gates.len() && (#[trigger] gates[k]).reads(w)
}

/// Whether some gate of `gates` reads or produces wire `w`.
pub open spec fn touches(gates: Seq<GarbledGateView>, w: usize) -> bool {
    exists|k: int| 0 <= k < gates.len() && (#[trigger] gates[k]).mentions(w)
}

/// `seen` with the wire `w` added at its end, unless `w` stands in it
/// already or is produced by one of the gates `earlier`.
pub open spec fn note_input(earlier: Seq<GarbledGateView>, seen: Seq<usize>, w: usize) -> Seq<
    usize,
> {
    if seen.contains(w) || produces(earlier, w) {
        seen
    } else {
        seen.push(w)
    }
}

/// The input wires of a slice: the wires that a gate of the slice reads and
/// no earlier gate of the slice produces, each once, in the order in which
/// the gates first read them (the left input before the right).
pub open spec fn local_inputs(gates: Seq<GarbledGateView>) -> Seq<usize>
    decreases gates.len(),
{
    if gates.len() == 0 {
        Seq::empty()
    } else {
        let earlier = gates.drop_last();
        let g = gates.last();
        let with_left = note_input(earlier, local_inputs(earlier), g.left_wire);
        if g.is_unary() {
            with_left
        } else {
            note_input(earlier, with_left, g.right_wire)
        }
    }
}

/// Whether the wire `w` is needed after the gates before `end`: it is a
/// declared output of the circuit, or a gate from `end` on reads it.
pub open spec fn needed_after(gc: GarbledCircuitView, end: int, w: usize) -> bool {
    gc.output_wires.contains(w) || consumes(gc.gates.subrange(end, gc.gates.len() as int), w)
}

/// The output wires of the slice `start..end`: the wires that its gates
/// produce and that are needed after it, in the order of the gates.
pub open spec fn slice_outputs(gc: GarbledCircuitView, start: int, end: int) -> Seq<usize> {
    gc.gates.subrange(start, end).map_values(|g: GarbledGateView| g.output_wire).filter(
        |w: usize| needed_after(gc, end, w),
    )
}

/// The keys of a slice: those of the wires that its gates read or produce.
pub open spec fn slice_keys(table: Map<usize, WireKeysView>, gates: Seq<GarbledGateView>) -> Map<
    usize,
    WireKeysView,
> {
    table.restrict(Set::new(|w: usize| touches(gates, w)))
}

/// The number of slices of at most `max` gates that `gates` gates fall
/// into: `gates / max`, rounded up.
pub open spec fn slice_count(gates: nat, max: nat) -> nat {
    ((gates + max - 1) / (max as int)) as nat
}

/// Where slice `i` ends: `max` gates after its start, or where the gates
/// end.
pub open spec fn slice_end(gates: nat, max: nat, i: int) -> int {
    if (i + 1) * max <= gates {
        (i + 1) * max
    } else {
        gates as int
    }
}

/// Slice `i` of the garbled circuit `gc`, cut into slices of `max` gates.
pub open spec fn slice_of(gc: GarbledCircuitView, max: nat, i: int) -> GarbledCircuitView {
    let start = i * max;
    let end = slice_end(gc.gates.len(), max, i);
    let gates = gc.gates.subrange(start, end);
    GarbledCircuitView {
        gates,
        wire_keys: slice_keys(gc.wire_keys, gates),
        input_wires: local_inputs(gates),
        output_wires: slice_outputs(gc, start, end),
    }
}

/// The partitions of a garbled circuit, in the order of its gates.
pub type PartitionedGC = Vec<GarbledCircuit>;

/// The views of a sequence of garbled circuits.
pub open spec fn circuit_views(parts: Seq<GarbledCircuit>) -> Seq<GarbledCircuitView> {
    Seq::new(parts.len(), |i: int| parts[i]@)
}

/// The gates of all `parts`, one part after the other.
pub open spec fn joined_gates(parts: Seq<GarbledCircuitView>) -> Seq<GarbledGateView>
    decreases parts.len(),
{
    if parts.len() == 0 {
        Seq::empty()
    } else {
        joined_gates(parts.drop_last()) + parts.last().gates
    }
}

/// Whether every wire of every gate has a well-formed pair of keys.
pub fn is_all_keyed(gc: &GarbledCircuit) -> (ok: bool)
    ensures
        ok == all_keyed(gc@),
{
    let mut i: usize = 0;
    while i < gc.garbled_gates.len()
        invariant
            i <= gc.garbled_gates@.len(),
            forall|j: int| 0 <= j < i ==> gate_keyed(gc@.wire_keys, #[trigger] gc@.gates[j]),
        decreases gc.garbled_gates@.len() - i,
    {
        let g = &gc.garbled_gates[i];
        assert(g@ == gc@.gates[i as int]);
        let keyed = assigned_keys(&gc.wire_keys, g.left_wire).is_some() && (g.unary()
            || assigned_keys(&gc.wire_keys, g.right_wire).is_some()) && assigned_keys(
            &gc.wire_keys,
            g.output_wire,
        ).is_some();
        if !keyed {
            assert(!gate_keyed(gc@.wire_keys, gc@.gates[i as int]));
            return false;
        }
        i += 1;
    }
    true
}

/// The wires that the gates from `from` on produce.
pub open spec fn produced_from(gates: Seq<GarbledGateView>, from: int) -> Set<usize> {
    Set::new(|w: usize| exists|k: int| from <= k < gates.len() && (#[trigger] gates[k]).output_wire == w)
}

/// Whether no gate reads the wire that it or a later gate produces.
pub fn is_feed_forward(gates: &Vec<GarbledGate>) -> (ok: bool)
    ensures
        ok == feeds_forward(gate_views(gates@)),
{
    broadcast use vstd::std_specs::hash::group_hash_axioms;

    let ghost views = gate_views(gates@);
    let mut later: HashSet<usize> = HashSet::new();
    let mut j: usize = gates.len();
    assert(later@ =~= produced_from(views, j as int));
    while j > 0
        invariant
            j <= gates@.len(),
            views == gate_views(gates@),
            later@ == produced_from(views, j as int),
            forall|a: int, b: int|
                j <= a <= b < views.len() ==> !(#[trigger] views[a]).reads(
                    (#[trigger] views[b]).output_wire,
                ),
        decreases j,
    {
        j -= 1;
        let g = &gates[j];
        assert(g@ == views[j as int]);
        let ghost before = later@;
        later.insert(g.output_wire);
        assert(later@ =~= produced_from(views, j as int)) by {
            assert forall|w: usize| later@.contains(w) == produced_from(views, j as int).contains(w) by {
                if before.contains(w) {
                    let k = choose|k: int| j + 1 <= k < views.len() && (#[trigger] views[k]).output_wire == w;
                    assert(j <= k < views.len() && views[k].output_wire == w);
                }
                if produced_from(views, j as int).contains(w) {
                    let k = choose|k: int| j <= k < views.len() && (#[trigger] views[k]).output_wire == w;
                    if k != j {
                        assert(j + 1 <= k < views.len() && views[k].output_wire == w);
                    }
                }
            }
        }
        let clash = later.contains(&g.left_wire) || (!g.unary() && later.contains(&g.right_wire));
        if clash {
            proof {
                let w = if later@.contains(g.left_wire) {
                    g.left_wire
                } else {
                    g.right_wire
                };
                let k = choose|k: int| j <= k < views.len() && (#[trigger] views[k]).output_wire == w;
                assert(views[j as int].reads(views[k].output_wire));
            }
            return false;
        }
        assert forall|b: int| j <= b < views.len() implies !views[j as int].reads(
            (#[trigger] views[b]).output_wire,
        ) by {
            let w = views[b].output_wire;
            assert(produced_from(views, j as int).contains(w));
        }
    }
    true
}

/// Copies the gates `start..end`.
fn copy_gates(gates: &Vec<GarbledGate>, start: usize, end: usize) -> (out: Vec<GarbledGate>)
    requires
        start <= end <= gates@.len(),
    ensures
        gate_views(out@) == gate_views(gates@).subrange(start as int, end as int),
{
    let mut out: Vec<GarbledGate> = Vec::new();
    let mut j: usize = start;
    while j < end
        invariant
            start <= j <= end,
            end <= gates@.len(),
            out@.len() == j - start,
            forall|k: int| 0 <= k < out@.len() ==> (#[trigger] out@[k])@ == gates@[start + k]@,
        decreases end - j,
    {
        out.push(gates[j].duplicate());
        j += 1;
    }
    assert(gate_views(out@) =~= gate_views(gates@).subrange(start as int, end as int));
    out
}

/// Whether one of the first `to` gates produces wire `w`.
fn produced_before(gates: &Vec<GarbledGate>, to: usize, w: usize) -> (found: bool)
    requires
        to <= gates@.len(),
    ensures
        found == produces(gate_views(gates@).take(to as int), w),
{
    let ghost earlier = gate_views(gates@).take(to as int);
    let mut k: usize = 0;
    while k < to
        invariant
            k <= to,
            to <= gates@.len(),
            earlier == gate_views(gates@).take(to as int),
            forall|i: int| 0 <= i < k ==> (#[trigger] earlier[i]).output_wire != w,
        decreases to - k,
    {
        if gates[k].output_wire == w {
            assert(earlier[k as int].output_wire == w);
            return true;
        }
        k += 1;
    }
    false
}

/// Whether one of the gates from `from` on reads wire `w`.
fn read_from(gates: &Vec<GarbledGate>, from: usize, w: usize) -> (found: bool)
    requires
        from <= gates@.len(),
    ensures
        found == consumes(gate_views(gates@).subrange(from as int, gates@.len() as int), w),
{
    let ghost later = gate_views(gates@).subrange(from as int, gates@.len() as int);
    let mut k: usize = from;
    while k < gates.len()
        invariant
            from <= k <= gates@.len(),
            later == gate_views(gates@).subrange(from as int, gates@.len() as int),
            forall|i: int| 0 <= i < k - from ==> !(#[trigger] later[i]).reads(w),
        decreases gates@.len() - k,
    {
        let g = &gates[k];
        assert(g@ == later[k - from]);
        if g.left_wire == w || (!g.unary() && g.right_wire == w) {
            return true;
        }
        k += 1;
    }
    false
}

/// Computes [`local_inputs`].
pub fn local_inputs_of(gates: &Vec<GarbledGate>) -> (inputs: Vec<usize>)
    ensures
        inputs@ == local_inputs(gate_views(gates@)),
{
    let ghost views = gate_views(gates@);
    let mut inputs: Vec<usize> = Vec::new();
    let mut j: usize = 0;
    while j < gates.len()
        invariant
            j <= gates@.len(),
            views == gate_views(gates@),
            inputs@ == local_inputs(views.take(j as int)),
        decreases gates@.len() - j,
    {
        let g = &gates[j];
        proof {
            assert(views.take(j + 1).drop_last() =~= views.take(j as int));
            assert(views.take(j + 1).last() == g@);
        }
        if !contains_wire(&inputs, g.left_wire) && !produced_before(gates, j, g.left_wire) {
            inputs.push(g.left_wire);
        }
        if !g.unary() {
            if !contains_wire(&inputs, g.right_wire) && !produced_before(gates, j, g.right_wire) {
                inputs.push(g.right_wire);
            }
        }
        j += 1;
    }
    assert(views.take(j as int) =~= views);
    inputs
}

/// Computes [`slice_outputs`].
fn slice_outputs_of(gc: &GarbledCircuit, start: usize, end: usize) -> (outputs: Vec<usize>)
    requires
        start <= end <= gc.garbled_gates@.len(),
    ensures
        outputs@ == slice_outputs(gc@, start as int, end as int),
{
    let ghost wire = |g: GarbledGateView| g.output_wire;
    let ghost needed = |w: usize| needed_after(gc@, end as int, w);
    let mut outputs: Vec<usize> = Vec::new();
    let mut j: usize = start;
    assert(gc@.gates.subrange(start as int, start as int).map_values(wire) =~= Seq::empty());
    while j < end
        invariant
            start <= j <= end,
            end <= gc.garbled_gates@.len(),
            wire == |g: GarbledGateView| g.output_wire,
            needed == |w: usize| needed_after(gc@, end as int, w),
            outputs@ == gc@.gates.subrange(start as int, j as int).map_values(wire).filter(needed),
        decreases end - j,
    {
        let w = gc.garbled_gates[j].output_wire;
        proof {
            let done = gc@.gates.subrange(start as int, j as int);
            assert(gc@.gates.subrange(start as int, j + 1) =~= done.push(gc@.gates[j as int]));
            done.lemma_push_map_commute(wire, gc@.gates[j as int]);
            done.map_values(wire).lemma_filter_push(w, needed);
        }
        if contains_wire(&gc.output_wires, w) || read_from(&gc.garbled_gates, end, w) {
            outputs.push(w);
        }
        j += 1;
    }
    outputs
}

/// Copies the keys of wire `w` from `table` into `subset`.
fn carry_keys(table: &HashMap<usize, WireKeys>, subset: &mut HashMap<usize, WireKeys>, w: usize)
    requires
        assigned(table_view(table@), w),
    ensures
        table_view(final(subset)@) == table_view(old(subset)@).insert(w, table_view(table@)[w]),
{
    broadcast use vstd::std_specs::hash::group_hash_axioms;

    match table.get(&w) {
        Some(keys) => {
            subset.insert(w, keys.duplicate());
        },
        None => {},
    }
    assert(table_view(subset@) =~= table_view(old(subset)@).insert(w, table_view(table@)[w]));
}

/// Computes [`slice_keys`] for gates whose wires all have keys.
fn key_subset(table: &HashMap<usize, WireKeys>, gates: &Vec<GarbledGate>) -> (subset: HashMap<
    usize,
    WireKeys,
>)
    requires
        forall|i: int|
            0 <= i < gates@.len() ==> gate_keyed(
                table_view(table@),
                #[trigger] gate_views(gates@)[i],
            ),
    ensures
        table_view(subset@) == slice_keys(table_view(table@), gate_views(gates@)),
{
    let ghost views = gate_views(gates@);
    let ghost all = table_view(table@);
    let mut subset: HashMap<usize, WireKeys> = HashMap::new();
    let mut j: usize = 0;
    assert(table_view(subset@) =~= slice_keys(all, views.take(0)));
    while j < gates.len()
        invariant
            j <= gates@.len(),
            views == gate_views(gates@),
            all == table_view(table@),
            forall|i: int| 0 <= i < gates@.len() ==> gate_keyed(all, #[trigger] views[i]),
            table_view(subset@) == slice_keys(all, views.take(j as int)),
        decreases gates@.len() - j,
    {
        let g = &gates[j];
        let ghost before = table_view(subset@);
        assert(g@ == views[j as int]);
        carry_keys(table, &mut subset, g.left_wire);
        if !g.unary() {
            carry_keys(table, &mut subset, g.right_wire);
        }
        carry_keys(table, &mut subset, g.output_wire);
        proof {
            let after = table_view(subset@);
            let want = slice_keys(all, views.take(j + 1));
            assert forall|w: usize| after.contains_key(w) == want.contains_key(w) by {
                if touches(views.take(j as int), w) {
                    let k = choose|k: int|
                        0 <= k < views.take(j as int).len() && (#[trigger] views.take(
                            j as int,
                        )[k]).mentions(w);
                    assert(views.take(j + 1)[k].mentions(w));
                }
                if views[j as int].mentions(w) {
                    assert(views.take(j + 1)[j as int].mentions(w));
                }
                if touches(views.take(j + 1), w) {
                    let k = choose|k: int|
                        0 <= k < views.take(j + 1).len() && (#[trigger] views.take(
                            j + 1,
                        )[k]).mentions(w);
                    if k < j {
                        assert(views.take(j as int)[k].mentions(w));
                    }
                }
            }
            assert(after =~= want);
        }
        j += 1;
    }
    assert(views.take(j as int) =~= views);
    subset
}

/// Every slice starts before the gates end, is not empty, and holds at most
/// `max` gates.
pub proof fn lemma_slice_bounds(gates: nat, max: nat, i: int)
    requires
        max > 0,
        0 <= i < slice_count(gates, max),
    ensures
        0 <= i * max < slice_end(gates, max, i) <= gates,
        slice_end(gates, max, i) - i * max <= max,
{
    let count = (gates + max - 1) / (max as int);
    assert(i * max < gates && (i + 1) * max == i * max + max && i * max >= 0) by (nonlinear_arith)
        requires
            max > 0,
            0 <= i < count,
            count == (gates + max - 1) / (max as int),
    ;
}

/// Whether each wire that one part produces and the next part reads has
/// keys in both parts, and the same keys.
pub open spec fn boundary_keys_identical(parts: Seq<GarbledCircuitView>) -> bool {
    forall|i: int, w: usize|
        0 <= i && i + 1 < parts.len() && #[trigger] produces(parts[i].gates, w) && consumes(
            parts[i + 1].gates,
            w,
        ) ==> keys_agree(parts[i], parts[i + 1], w)
}

/// In the slices of a garbled circuit whose wires all have keys, a wire
/// that one slice produces and the next reads has the same keys in both.
pub proof fn lemma_slices_share_boundary_keys(
    gc: GarbledCircuitView,
    max: nat,
    parts: Seq<GarbledCircuitView>,
)
    requires
        max > 0,
        all_keyed(gc),
        parts.len() == slice_count(gc.gates.len(), max),
        forall|i: int| 0 <= i < parts.len() ==> #[trigger] parts[i] == slice_of(gc, max, i),
    ensures
        boundary_keys_identical(parts),
{
    assert forall|i: int, w: usize|
        0 <= i && i + 1 < parts.len() && #[trigger] produces(parts[i].gates, w) && consumes(
            parts[i + 1].gates,
            w,
        ) implies {
        &&& parts[i].wire_keys.contains_key(w)
        &&& parts[i + 1].wire_keys.contains_key(w)
        &&& parts[i].wire_keys[w] == parts[i + 1].wire_keys[w]
    } by {
        let here = parts[i].gates;
        let next = parts[i + 1].gates;
        let k = choose|k: int| 0 <= k < here.len() && (#[trigger] here[k]).output_wire == w;
        let m = choose|m: int| 0 <= m < next.len() && (#[trigger] next[m]).reads(w);
        lemma_slice_bounds(gc.gates.len(), max, i);
        lemma_slice_bounds(gc.gates.len(), max, i + 1);
        assert(here[k] == gc.gates[i * max + k]);
        assert(next[m] == gc.gates[(i + 1) * max + m]);
        assert(here[k].mentions(w));
        assert(next[m].mentions(w));
        assert(touches(here, w));
        assert(touches(next, w));
        assert(gate_keyed(gc.wire_keys, gc.gates[i * max + k]));
        assert(gc.wire_keys.contains_key(w));
    }
}

/// Cuts `gc` into slices of at most `max_gates_per_partition` gates each.
///
/// The slices follow one another in the order of the gates, and all but the
/// last hold exactly `max_gates_per_partition` gates; a circuit without
/// gates has no slice. Each slice is a garbled circuit: its gates, the keys
/// of the wires they touch, its input wires and its output wires.
///
/// Fails with `UnassignedWire` when a wire of some gate has no well-formed
/// pair of keys, and otherwise with `PartitionContinuityViolation` when a
/// gate reads the wire that it or a later gate produces.
///
/// There are no slices of no gates: `max_gates_per_partition` is not zero.
pub fn partition(gc: &GarbledCircuit, max_gates_per_partition: usize) -> (r: Result<
    Vec<GarbledCircuit>,
    GcError,
>)
    requires
        max_gates_per_partition > 0,
    ensures
        match r {
            Ok(parts) => {
                &&& all_keyed(gc@)
                &&& feeds_forward(gc@.gates)
                &&& parts@.len() == slice_count(gc@.gates.len(), max_gates_per_partition as nat)
                &&& forall|i: int|
                    0 <= i < parts@.len() ==> (#[trigger] parts@[i])@ == slice_of(
                        gc@,
                        max_gates_per_partition as nat,
                        i,
                    )
                &&& joined_gates(circuit_views(parts@)) == gc@.gates
                &&& boundary_keys_identical(circuit_views(parts@))
            },
            Err(e) => if all_keyed(gc@) {
                e == GcError::PartitionContinuityViolation && !feeds_forward(gc@.gates)
            } else {
                e == GcError::UnassignedWire
            },
        },
{
    if !is_all_keyed(gc) {
        return Err(GcError::UnassignedWire);
    }
    if !is_feed_forward(&gc.garbled_gates) {
        return Err(GcError::PartitionContinuityViolation);
    }
    let max = max_gates_per_partition;
    let total = gc.garbled_gates.len();
    let mut parts: Vec<GarbledCircuit> = Vec::new();
    let mut start: usize = 0;
    assert(joined_gates(circuit_views(parts@)) =~= gc@.gates.subrange(0, 0));
    while start < total
        invariant
            max > 0,
            total == gc@.gates.len(),
            all_keyed(gc@),
            start <= total,
            start == if parts@.len() * max <= total {
                parts@.len() * max
            } else {
                total as int
            },
            parts@.len() == 0 || (parts@.len() - 1) * max < total,
            forall|i: int|
                0 <= i < parts@.len() ==> (#[trigger] parts@[i])@ == slice_of(gc@, max as nat, i),
            joined_gates(circuit_views(parts@)) == gc@.gates.subrange(0, start as int),
        decreases total - start,
    {
        let ghost i = parts@.len() as int;
        let ghost before = circuit_views(parts@);
        let end = if total - start <= max {
            total
        } else {
            start + max
        };
        proof {
            assert((i + 1) * max == i * max + max) by (nonlinear_arith);
            assert(end == slice_end(total as nat, max as nat, i));
        }
        let gates = copy_gates(&gc.garbled_gates, start, end);
        proof {
            assert(gate_views(gates@).len() == gates@.len());
            assert(gc@.gates.subrange(start as int, end as int).len() == end - start);
            assert forall|k: int| 0 <= k < gates@.len() implies gate_keyed(
                table_view(gc.wire_keys@),
                #[trigger] gate_views(gates@)[k],
            ) by {
                assert(gate_views(gates@)[k] == gc@.gates[start + k]);
            }
        }
        let wire_keys = key_subset(&gc.wire_keys, &gates);
        let input_wires = local_inputs_of(&gates);
        let output_wires = slice_outputs_of(gc, start, end);
        let part = GarbledCircuit { garbled_gates: gates, wire_keys, input_wires, output_wires };
        assert(part@ == slice_of(gc@, max as nat, i));
        parts.push(part);
        proof {
            let after = circuit_views(parts@);
            assert(after.drop_last() =~= before);
            assert(after.last() == part@);
            assert(gc@.gates.subrange(0, start as int) + gc@.gates.subrange(
                start as int,
                end as int,
            ) =~= gc@.gates.subrange(0, end as int));
        }
        start = end;
    }
    proof {
        let n = parts@.len() as int;
        assert(gc@.gates.subrange(0, total as int) =~= gc@.gates);
        assert(slice_count(total as nat, max as nat) == n) by (nonlinear_arith)
            requires
                max > 0,
                n >= 0,
                total >= 0,
                n * max >= total,
                n == 0 || (n - 1) * max < total,
        ;
        let views = circuit_views(parts@);
        assert forall|i: int| 0 <= i < views.len() implies #[trigger] views[i] == slice_of(
            gc@,
            max as nat,
            i,
        ) by {
            assert(views[i] == parts@[i]@);
        }
        lemma_slices_share_boundary_keys(gc@, max as nat, views);
    }
    Ok(parts)
}

/// Whether the wire `w` has keys in both `here` and `next`, and the same
/// keys.
pub open spec fn keys_agree(here: GarbledCircuitView, next: GarbledCircuitView, w: usize) -> bool {
    &&& here.wire_keys.contains_key(w)
    &&& next.wire_keys.contains_key(w)
    &&& here.wire_keys[w] == next.wire_keys[w]
}

/// Computes [`keys_agree`].
fn keys_agree_on(here: &GarbledCircuit, next: &GarbledCircuit, w: usize) -> (ok: bool)
    ensures
        ok == keys_agree(here@, next@, w),
{
    broadcast use vstd::std_specs::hash::group_hash_axioms;

    let mine = match here.wire_keys.get(&w) {
        Some(keys) => keys,
        None => {
            return false;
        },
    };
    let theirs = match next.wire_keys.get(&w) {
        Some(keys) => keys,
        None => {
            return false;
        },
    };
    bytes_equal(mine.key0.as_slice(), theirs.key0.as_slice()) && bytes_equal(
        mine.key1.as_slice(),
        theirs.key1.as_slice(),
    )
}

/// Whether each wire that `here` produces and `next` reads has the same
/// keys in both.
fn pair_is_continuous(here: &GarbledCircuit, next: &GarbledCircuit) -> (ok: bool)
    ensures
        ok == forall|w: usize| #[trigger]
            produces(here@.gates, w) && consumes(next@.gates, w) ==> keys_agree(here@, next@, w),
{
    let mut k: usize = 0;
    while k < here.garbled_gates.len()
        invariant
            k <= here.garbled_gates@.len(),
            forall|j: int, w: usize|
                0 <= j < k && (#[trigger] here@.gates[j]).output_wire == w && consumes(
                    next@.gates,
                    w,
                ) ==> #[trigger] keys_agree(here@, next@, w),
        decreases here.garbled_gates@.len() - k,
    {
        let w = here.garbled_gates[k].output_wire;
        assert(here@.gates[k as int].output_wire == w);
        assert(next@.gates.subrange(0, next@.gates.len() as int) =~= next@.gates);
        if read_from(&next.garbled_gates, 0, w) && !keys_agree_on(here, next, w) {
            assert(produces(here@.gates, w));
            return false;
        }
        k += 1;
    }
    assert forall|w: usize| #[trigger]
        produces(here@.gates, w) && consumes(next@.gates, w) implies keys_agree(
        here@,
        next@,
        w,
    ) by {
        let j = choose|j: int|
            0 <= j < here@.gates.len() && (#[trigger] here@.gates[j]).output_wire == w;
        assert(here@.gates[j].output_wire == w);
    }
    true
}

/// Checks partitions that came from elsewhere: each wire that one of them
/// produces and the next one reads must have the same keys in both.
///
/// Fails with `PartitionContinuityViolation` exactly when that is not so.
pub fn check_continuity(parts: &Vec<GarbledCircuit>) -> (r: Result<(), GcError>)
    ensures
        match r {
            Ok(()) => boundary_keys_identical(circuit_views(parts@)),
            Err(e) => e == GcError::PartitionContinuityViolation && !boundary_keys_identical(
                circuit_views(parts@),
            ),
        },
{
    let ghost views = circuit_views(parts@);
    if parts.len() < 2 {
        return Ok(());
    }
    let last = parts.len() - 1;
    let mut i: usize = 0;
    while i < last
        invariant
            i <= last,
            last + 1 == parts@.len(),
            views == circuit_views(parts@),
            forall|j: int, w: usize|
                0 <= j < i && j + 1 < views.len() && #[trigger] produces(views[j].gates, w)
                    && consumes(views[j + 1].gates, w) ==> keys_agree(views[j], views[j + 1], w),
        decreases last - i,
    {
        assert(views[i as int] == parts@[i as int]@ && views[i + 1] == parts@[i + 1]@);
        if !pair_is_continuous(&parts[i], &parts[i + 1]) {
            proof {
                let w = choose|w: usize| #[trigger]
                    produces(views[i as int].gates, w) && consumes(views[i + 1].gates, w)
                        && !keys_agree(views[i as int], views[i + 1], w);
                assert(produces(views[i as int].gates, w));
            }
            return Err(GcError::PartitionContinuityViolation);
        }
        i += 1;
    }
    Ok(())
}

/// Whether some gate of `gates` reads wire `w` before any gate of `gates`
/// has produced it.
pub open spec fn reads_from_outside(gates: Seq<GarbledGateView>, w: usize) -> bool {
    exists|j: int|
        0 <= j < gates.len() && (#[trigger] gates[j]).reads(w) && !produces(gates.take(j), w)
}

proof fn lemma_noted(earlier: Seq<GarbledGateView>, seen: Seq<usize>, w: usize, x: usize)
    ensures
        note_input(earlier, seen, w).contains(x) <==> seen.contains(x) || (x == w && !produces(
            earlier,
            w,
        )),
        seen.no_duplicates() ==> note_input(earlier, seen, w).no_duplicates(),
{
    let noted = note_input(earlier, seen, w);
    if !(seen.contains(w) || produces(earlier, w)) {
        assert(noted[seen.len() as int] == w);
        if seen.contains(x) {
            let i = choose|i: int| 0 <= i < seen.len() && seen[i] == x;
            assert(noted[i] == x);
        }
    }
}

/// The input wires of a slice are the wires that a gate of the slice reads
/// before any gate of the slice has produced them, and none of them stands
/// twice.
pub proof fn lemma_local_inputs_meaning(gates: Seq<GarbledGateView>)
    ensures
        forall|w: usize| #[trigger] local_inputs(gates).contains(w) <==> reads_from_outside(gates, w),
        local_inputs(gates).no_duplicates(),
    decreases gates.len(),
{
    if gates.len() > 0 {
        let earlier = gates.drop_last();
        let g = gates.last();
        let last = gates.len() - 1;
        lemma_local_inputs_meaning(earlier);
        let seen = local_inputs(earlier);
        let with_left = note_input(earlier, seen, g.left_wire);
        assert(gates.take(last) =~= earlier);
        assert forall|w: usize| #[trigger]
            local_inputs(gates).contains(w) <==> reads_from_outside(gates, w) by {
            lemma_noted(earlier, seen, g.left_wire, w);
            lemma_noted(earlier, with_left, g.right_wire, w);
            if reads_from_outside(earlier, w) {
                let j = choose|j: int|
                    0 <= j < earlier.len() && (#[trigger] earlier[j]).reads(w) && !produces(
                        earlier.take(j),
                        w,
                    );
                assert(gates.take(j) =~= earlier.take(j));
                assert(gates[j].reads(w));
            }
            if g.reads(w) && !produces(earlier, w) {
                assert(gates[last].reads(w));
            }
            if reads_from_outside(gates, w) {
                let j = choose|j: int|
                    0 <= j < gates.len() && (#[trigger] gates[j]).reads(w) && !produces(
                        gates.take(j),
                        w,
                    );
                if j < last {
                    assert(gates.take(j) =~= earlier.take(j));
                    assert(earlier[j].reads(w));
                }
            }
        }
        lemma_noted(earlier, seen, g.left_wire, g.left_wire);
        lemma_noted(earlier, with_left, g.right_wire, g.right_wire);
    }
}

/// The output wires of a slice are the wires that one of its gates produces
/// and that are needed after it.
pub proof fn lemma_slice_outputs_meaning(gc: GarbledCircuitView, start: int, end: int, w: usize)
    requires
        0 <= start <= end <= gc.gates.len(),
    ensures
        slice_outputs(gc, start, end).contains(w) <==> produces(gc.gates.subrange(start, end), w)
            && needed_after(gc, end, w),
{
    let gates = gc.gates.subrange(start, end);
    let wire = |g: GarbledGateView| g.output_wire;
    let needed = |w: usize| needed_after(gc, end, w);
    let produced = gates.map_values(wire);
    if slice_outputs(gc, start, end).contains(w) {
        let i = choose|i: int|
            0 <= i < produced.filter(needed).len() && produced.filter(needed)[i] == w;
        produced.lemma_filter_pred(needed, i);
        produced.lemma_filter_contains_rev(needed, w);
        let k = choose|k: int| 0 <= k < produced.len() && produced[k] == w;
        assert(gates[k].output_wire == w);
    }
    if produces(gates, w) && needed_after(gc, end, w) {
        let k = choose|k: int| 0 <= k < gates.len() && (#[trigger] gates[k]).output_wire == w;
        assert(produced[k] == w);
        produced.lemma_filter_contains(needed, k);
    }
}

} // verus!
