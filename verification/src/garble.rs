//! Garbling: each gate becomes a table of encrypted output keys.
//!
//! A row of a table holds the key of a gate's output for one combination
//! of input values, sealed under a pad that is derived from the keys of that
//! combination. The rows stand in the order of the permute bits of those
//! keys, so that whoever holds one key per input finds its row from the keys
//! alone. A row carries a tag, which tells whether a pad opens it.

use crate::bytes::{byte_views, bytes_equal, copy_range, copy_wires};
use crate::circuit::{Circuit, Gate};
use crate::errors::GcError;
use crate::keys::{assigned, permute_bit, table_view, WireKeys, WireKeysView};
use crate::prf::{digest, hash, xor_bytes, xor_mask, DIGEST_LEN, KEY_LEN};
use std::collections::HashMap;
use vstd::prelude::*;

verus! {

/// The encrypted truth table of one gate, with the wires it connects: four
/// rows for a gate of two inputs, two for a gate of one.
#[derive(Clone, Debug)]
pub struct GarbledGate {
    pub ciphertexts: Vec<Vec<u8>>,
    pub left_wire: usize,
    pub right_wire: usize,
    pub output_wire: usize,
}

/// A garbled gate with its rows as byte strings.
pub struct GarbledGateView {
    pub ciphertexts: Seq<Seq<u8>>,
    pub left_wire: usize,
    pub right_wire: usize,
    pub output_wire: usize,
}

impl View for GarbledGate {
    type V = GarbledGateView;

    open spec fn view(&self) -> GarbledGateView {
        GarbledGateView {
            ciphertexts: byte_views(self.ciphertexts@),
            left_wire: self.left_wire,
            right_wire: self.right_wire,
            output_wire: self.output_wire,
        }
    }
}

impl GarbledGateView {
    /// A table of two rows belongs to a gate of one input.
    pub open spec fn is_unary(self) -> bool {
        self.ciphertexts.len() == 2
    }

    /// Whether wire `w` is an input of this gate.
    pub open spec fn reads(self, w: usize) -> bool {
        self.left_wire == w || (!self.is_unary() && self.right_wire == w)
    }

    /// Whether this gate reads or produces wire `w`.
    pub open spec fn mentions(self, w: usize) -> bool {
        self.reads(w) || self.output_wire == w
    }
}

/// A garbled circuit: the garbled gates in evaluation order, the keys of the
/// wires, and the declared input and output wires.
#[derive(Clone, Debug)]
pub struct GarbledCircuit {
    pub garbled_gates: Vec<GarbledGate>,
    pub wire_keys: HashMap<usize, WireKeys>,
    pub input_wires: Vec<usize>,
    pub output_wires: Vec<usize>,
}

/// A garbled circuit as mathematical data.
pub struct GarbledCircuitView {
    pub gates: Seq<GarbledGateView>,
    pub wire_keys: Map<usize, WireKeysView>,
    pub input_wires: Seq<usize>,
    pub output_wires: Seq<usize>,
}

/// The views of a sequence of garbled gates.
pub open spec fn gate_views(gates: Seq<GarbledGate>) -> Seq<GarbledGateView> {
    Seq::new(gates.len(), |i: int| gates[i]@)
}

impl View for GarbledCircuit {
    type V = GarbledCircuitView;

    open spec fn view(&self) -> GarbledCircuitView {
        GarbledCircuitView {
            gates: gate_views(self.garbled_gates@),
            wire_keys: table_view(self.wire_keys@),
            input_wires: self.input_wires@,
            output_wires: self.output_wires@,
        }
    }
}

/// The number of a wire as eight bytes, highest first.
pub open spec fn wire_tag(w: usize) -> Seq<u8> {
    let x = w as u64;
    seq![
        (x >> 56) as u8,
        ((x >> 48) & 0xff) as u8,
        ((x >> 40) & 0xff) as u8,
        ((x >> 32) & 0xff) as u8,
        ((x >> 24) & 0xff) as u8,
        ((x >> 16) & 0xff) as u8,
        ((x >> 8) & 0xff) as u8,
        (x & 0xff) as u8,
    ]
}

/// The pad of a row: the digest of the keys held for the inputs, followed by
/// the number of the output wire. For a gate of one input `right` is empty.
pub open spec fn row_pad(left: Seq<u8>, right: Seq<u8>, output_wire: usize) -> Seq<u8> {
    digest(left + right + wire_tag(output_wire))
}

/// A sealed row: `key` masked with the first half of `pad`, followed by the
/// second half of `pad` as its tag.
pub open spec fn seal(pad: Seq<u8>, key: Seq<u8>) -> Seq<u8> {
    xor_bytes(key, pad.subrange(0, KEY_LEN as int)) + pad.subrange(
        KEY_LEN as int,
        DIGEST_LEN as int,
    )
}

/// Opens a row with `pad`: where both have 32 bytes and the tag of the row
/// is the second half of `pad`, the key under the mask; otherwise nothing.
pub open spec fn open(pad: Seq<u8>, row: Seq<u8>) -> Option<Seq<u8>> {
    if pad.len() == DIGEST_LEN && row.len() == DIGEST_LEN && row.subrange(
        KEY_LEN as int,
        DIGEST_LEN as int,
    ) == pad.subrange(
        KEY_LEN as int,
        DIGEST_LEN as int,
    ) {
        Some(xor_bytes(row.subrange(0, KEY_LEN as int), pad.subrange(0, KEY_LEN as int)))
    } else {
        None
    }
}

/// The row of a table at which the keys `left` and `right` meet: twice the
/// permute bit of `left` plus that of `right`, or the permute bit of `left`
/// alone for a gate of one input.
pub open spec fn selected_row(left: Seq<u8>, right: Seq<u8>, unary: bool) -> int {
    let high: int = if permute_bit(left) {
        1
    } else {
        0
    };
    let low: int = if permute_bit(right) {
        1
    } else {
        0
    };
    if unary {
        high
    } else {
        2 * high + low
    }
}

/// The row `row` of the table of gate `g`, whose inputs have the keys `l`
/// and `r` and whose output has the keys `o`.
///
/// The row belongs to the input values whose keys carry the permute bits
/// that make up `row`. It holds the output key for the value of `g` on
/// those inputs, sealed under the pad of their keys.
pub open spec fn garbled_row(
    g: Gate,
    l: WireKeysView,
    r: WireKeysView,
    o: WireKeysView,
    row: int,
) -> Seq<u8> {
    if g.gate_type.is_unary() {
        let a = (row == 1) != permute_bit(l.key0);
        seal(
            row_pad(l.select(a), Seq::empty(), g.output_wire),
            o.select(g.gate_type.output(a, false)),
        )
    } else {
        let a = (row / 2 == 1) != permute_bit(l.key0);
        let b = (row % 2 == 1) != permute_bit(r.key0);
        seal(
            row_pad(l.select(a), r.select(b), g.output_wire),
            o.select(g.gate_type.output(a, b)),
        )
    }
}

/// The garbled table of gate `g` under the keys `l`, `r` and `o`.
pub open spec fn garbled_gate(
    g: Gate,
    l: WireKeysView,
    r: WireKeysView,
    o: WireKeysView,
) -> GarbledGateView {
    GarbledGateView {
        ciphertexts: Seq::new(
            if g.gate_type.is_unary() {
                2
            } else {
                4
            },
            |row: int| garbled_row(g, l, r, o, row),
        ),
        left_wire: g.left_wire,
        right_wire: g.right_wire,
        output_wire: g.output_wire,
    }
}

/// Whether every wire of gate `g` has a well-formed pair of keys in `table`.
pub open spec fn gate_assigned(table: Map<usize, WireKeysView>, g: Gate) -> bool {
    &&& assigned(table, g.left_wire)
    &&& g.gate_type.is_unary() || assigned(table, g.right_wire)
    &&& assigned(table, g.output_wire)
}

/// The garbled gates of `gates` under the keys of `table`.
pub open spec fn garbled_gates(gates: Seq<Gate>, table: Map<usize, WireKeysView>) -> Seq<
    GarbledGateView,
> {
    Seq::new(
        gates.len(),
        |i: int|
            garbled_gate(
                gates[i],
                table[gates[i].left_wire],
                table[gates[i].right_wire],
                table[gates[i].output_wire],
            ),
    )
}

/// Whether every gate of `gates` has its keys in `table`.
pub open spec fn all_assigned(gates: Seq<Gate>, table: Map<usize, WireKeysView>) -> bool {
    forall|i: int| 0 <= i < gates.len() ==> gate_assigned(table, #[trigger] gates[i])
}

/// The tag of a row: its second half.
pub open spec fn row_tag(row: Seq<u8>) -> Seq<u8> {
    row.subrange(KEY_LEN as int, DIGEST_LEN as int)
}

/// Whether every row of the table has 32 bytes and no two rows carry the
/// same tag. No pad opens two rows of such a table.
pub open spec fn unambiguous(g: GarbledGateView) -> bool {
    &&& forall|i: int| 0 <= i < g.ciphertexts.len() ==> (#[trigger] g.ciphertexts[i]).len() == DIGEST_LEN
    &&& forall|i: int, j: int|
        0 <= i < j < g.ciphertexts.len() ==> row_tag(#[trigger] g.ciphertexts[i]) != row_tag(
            #[trigger] g.ciphertexts[j],
        )
}

/// Whether every table of `gates` is unambiguous.
pub open spec fn all_unambiguous(gates: Seq<GarbledGateView>) -> bool {
    forall|i: int| 0 <= i < gates.len() ==> unambiguous(#[trigger] gates[i])
}

/// A row opens under the pad that sealed it, and gives back its key.
pub proof fn lemma_open_sealed(pad: Seq<u8>, key: Seq<u8>)
    requires
        pad.len() == DIGEST_LEN,
        key.len() == KEY_LEN,
    ensures
        open(pad, seal(pad, key)) == Some(key),
{
    let mask = pad.subrange(0, KEY_LEN as int);
    let tag = pad.subrange(KEY_LEN as int, DIGEST_LEN as int);
    let row = seal(pad, key);
    assert(row.subrange(KEY_LEN as int, DIGEST_LEN as int) =~= tag);
    assert(row.subrange(0, KEY_LEN as int) =~= xor_bytes(key, mask));
    crate::prf::lemma_xor_bytes_cancels(key, mask);
}

/// Whoever holds the keys of the input values `a` and `b` finds, at the row
/// that the permute bits of those keys select, the key of the output of `g`
/// on `a` and `b`.
pub proof fn lemma_selected_row_opens(
    g: Gate,
    l: WireKeysView,
    r: WireKeysView,
    o: WireKeysView,
    a: bool,
    b: bool,
)
    requires
        l.wf(),
        g.gate_type.is_unary() || r.wf(),
        o.wf(),
    ensures
        ({
            let unary = g.gate_type.is_unary();
            let right = if unary {
                Seq::empty()
            } else {
                r.select(b)
            };
            let row = selected_row(l.select(a), right, unary);
            &&& 0 <= row < garbled_gate(g, l, r, o).ciphertexts.len()
            &&& open(
                row_pad(l.select(a), right, g.output_wire),
                garbled_gate(g, l, r, o).ciphertexts[row],
            ) == Some(o.select(g.gate_type.output(a, b)))
        }),
{
    let unary = g.gate_type.is_unary();
    let right = if unary {
        Seq::empty()
    } else {
        r.select(b)
    };
    let row = selected_row(l.select(a), right, unary);
    let pad = row_pad(l.select(a), right, g.output_wire);
    if unary {
        assert(((row == 1) != permute_bit(l.key0)) == a);
        assert(g.gate_type.output(a, false) == g.gate_type.output(a, b));
    } else {
        assert(((row / 2 == 1) != permute_bit(l.key0)) == a);
        assert(((row % 2 == 1) != permute_bit(r.key0)) == b);
    }
    lemma_open_sealed(pad, o.select(g.gate_type.output(a, b)));
}

/// Computes [`permute_bit`].
pub fn permute_bit_of(key: &[u8]) -> (bit: bool)
    ensures
        bit == permute_bit(key@),
{
    key.len() > 0 && key[key.len() - 1] & 1 == 1
}

/// Computes [`wire_tag`].
fn wire_tag_bytes(w: usize) -> (tag: Vec<u8>)
    ensures
        tag@ == wire_tag(w),
{
    let x = w as u64;
    let mut tag: Vec<u8> = Vec::new();
    tag.push((x >> 56) as u8);
    tag.push(((x >> 48) & 0xff) as u8);
    tag.push(((x >> 40) & 0xff) as u8);
    tag.push(((x >> 32) & 0xff) as u8);
    tag.push(((x >> 24) & 0xff) as u8);
    tag.push(((x >> 16) & 0xff) as u8);
    tag.push(((x >> 8) & 0xff) as u8);
    tag.push((x & 0xff) as u8);
    assert(tag@ =~= wire_tag(w));
    tag
}

/// Computes [`row_pad`].
pub fn row_pad_of(left: &[u8], right: &[u8], output_wire: usize) -> (pad: Vec<u8>)
    ensures
        pad@ == row_pad(left@, right@, output_wire),
        pad@.len() == DIGEST_LEN,
{
    let tag = wire_tag_bytes(output_wire);
    let mut input: Vec<u8> = Vec::new();
    input.extend_from_slice(left);
    input.extend_from_slice(right);
    input.extend_from_slice(tag.as_slice());
    assert(input@ =~= left@ + right@ + wire_tag(output_wire));
    hash(input.as_slice())
}

/// Computes [`seal`] for a pad of 32 bytes, as every digest is.
pub fn seal_row(pad: &[u8], key: &[u8]) -> (row: Vec<u8>)
    requires
        pad@.len() == DIGEST_LEN,
    ensures
        row@ == seal(pad@, key@),
{
    let mask = copy_range(pad, 0, KEY_LEN);
    let tag = copy_range(pad, KEY_LEN, DIGEST_LEN);
    let mut row = xor_mask(key, mask.as_slice());
    row.extend_from_slice(tag.as_slice());
    row
}

/// Computes [`open`].
pub fn open_row(pad: &[u8], row: &[u8]) -> (key: Option<Vec<u8>>)
    ensures
        match key {
            Some(k) => open(pad@, row@) == Some(k@),
            None => open(pad@, row@) is None,
        },
{
    if pad.len() != DIGEST_LEN || row.len() != DIGEST_LEN {
        return None;
    }
    let tag = copy_range(row, KEY_LEN, DIGEST_LEN);
    let expected = copy_range(pad, KEY_LEN, DIGEST_LEN);
    if !bytes_equal(tag.as_slice(), expected.as_slice()) {
        return None;
    }
    let body = copy_range(row, 0, KEY_LEN);
    let mask = copy_range(pad, 0, KEY_LEN);
    Some(xor_mask(body.as_slice(), mask.as_slice()))
}

/// Garbles one gate: computes [`garbled_gate`].
///
/// A gate of one input does not look at `r`.
pub fn garble_gate(gate: &Gate, l: &WireKeys, r: &WireKeys, o: &WireKeys) -> (garbled: GarbledGate)
    ensures
        garbled@ == garbled_gate(*gate, l@, r@, o@),
{
    let unary = gate.gate_type.unary();
    let count: usize = if unary {
        2
    } else {
        4
    };
    let flip_left = permute_bit_of(l.key0.as_slice());
    let flip_right = permute_bit_of(r.key0.as_slice());
    let mut rows: Vec<Vec<u8>> = Vec::new();
    let mut row: usize = 0;
    while row < count
        invariant
            row <= count,
            count == if unary {
                2int
            } else {
                4int
            },
            unary == gate.gate_type.is_unary(),
            flip_left == permute_bit(l@.key0),
            flip_right == permute_bit(r@.key0),
            rows@.len() == row,
            forall|j: int| 0 <= j < row ==> (#[trigger] rows@[j])@ == garbled_row(*gate, l@, r@, o@, j),
        decreases count - row,
    {
        let sealed = if unary {
            let a = (row == 1) != flip_left;
            let empty: Vec<u8> = Vec::new();
            assert(empty@ =~= Seq::<u8>::empty());
            let pad = row_pad_of(l.key_for(a).as_slice(), empty.as_slice(), gate.output_wire);
            seal_row(pad.as_slice(), o.key_for(gate.gate_type.apply(a, false)).as_slice())
        } else {
            let a = (row / 2 == 1) != flip_left;
            let b = (row % 2 == 1) != flip_right;
            let pad = row_pad_of(
                l.key_for(a).as_slice(),
                r.key_for(b).as_slice(),
                gate.output_wire,
            );
            seal_row(pad.as_slice(), o.key_for(gate.gate_type.apply(a, b)).as_slice())
        };
        rows.push(sealed);
        row += 1;
    }
    let garbled = GarbledGate {
        ciphertexts: rows,
        left_wire: gate.left_wire,
        right_wire: gate.right_wire,
        output_wire: gate.output_wire,
    };
    assert(garbled@.ciphertexts =~= garbled_gate(*gate, l@, r@, o@).ciphertexts);
    garbled
}

impl GarbledGate {
    /// Whether this is a gate of one input.
    pub fn unary(&self) -> (out: bool)
        ensures
            out == self@.is_unary(),
    {
        self.ciphertexts.len() == 2
    }

    /// A copy of this gate.
    pub fn duplicate(&self) -> (copy: GarbledGate)
        ensures
            copy@ == self@,
    {
        let mut rows: Vec<Vec<u8>> = Vec::new();
        let mut i: usize = 0;
        while i < self.ciphertexts.len()
            invariant
                i <= self.ciphertexts@.len(),
                rows@.len() == i,
                forall|j: int| 0 <= j < i ==> (#[trigger] rows@[j])@ == self.ciphertexts@[j]@,
            decreases self.ciphertexts@.len() - i,
        {
            let row = copy_range(self.ciphertexts[i].as_slice(), 0, self.ciphertexts[i].len());
            assert(row@ =~= self.ciphertexts@[i as int]@);
            rows.push(row);
            i += 1;
        }
        assert(byte_views(rows@) =~= byte_views(self.ciphertexts@));
        GarbledGate {
            ciphertexts: rows,
            left_wire: self.left_wire,
            right_wire: self.right_wire,
            output_wire: self.output_wire,
        }
    }

    /// Computes [`unambiguous`].
    pub fn is_unambiguous(&self) -> (ok: bool)
        ensures
            ok == unambiguous(self@),
    {
        let ghost rows = self@.ciphertexts;
        let n = self.ciphertexts.len();
        let mut i: usize = 0;
        while i < n
            invariant
                i <= n,
                n == self.ciphertexts@.len(),
                rows == self@.ciphertexts,
                forall|k: int| 0 <= k < i ==> (#[trigger] rows[k]).len() == DIGEST_LEN,
            decreases n - i,
        {
            if self.ciphertexts[i].len() != DIGEST_LEN {
                assert(rows[i as int].len() != DIGEST_LEN);
                return false;
            }
            i += 1;
        }
        let mut i: usize = 0;
        while i < n
            invariant
                i <= n,
                n == self.ciphertexts@.len(),
                rows == self@.ciphertexts,
                forall|k: int| 0 <= k < n ==> (#[trigger] rows[k]).len() == DIGEST_LEN,
                forall|a: int, b: int|
                    0 <= a < b < n && a < i ==> row_tag(#[trigger] rows[a]) != row_tag(
                        #[trigger] rows[b],
                    ),
            decreases n - i,
        {
            let mut j: usize = i + 1;
            while j < n
                invariant
                    i < j <= n,
                    n == self.ciphertexts@.len(),
                    rows == self@.ciphertexts,
                    forall|k: int| 0 <= k < n ==> (#[trigger] rows[k]).len() == DIGEST_LEN,
                    forall|b: int|
                        i < b < j ==> row_tag(rows[i as int]) != row_tag(#[trigger] rows[b]),
                decreases n - j,
            {
                assert(rows[i as int].len() == DIGEST_LEN && rows[j as int].len() == DIGEST_LEN);
                let here = copy_range(self.ciphertexts[i].as_slice(), KEY_LEN, DIGEST_LEN);
                let there = copy_range(self.ciphertexts[j].as_slice(), KEY_LEN, DIGEST_LEN);
                if bytes_equal(here.as_slice(), there.as_slice()) {
                    assert(row_tag(rows[i as int]) == row_tag(rows[j as int]));
                    return false;
                }
                j += 1;
            }
            i += 1;
        }
        true
    }
}

/// Looks up the keys of wire `w`, if it has a well-formed pair.
pub fn assigned_keys(table: &HashMap<usize, WireKeys>, w: usize) -> (keys: Option<&WireKeys>)
    ensures
        match keys {
            Some(k) => assigned(table_view(table@), w) && k@ == table_view(table@)[w],
            None => !assigned(table_view(table@), w),
        },
{
    broadcast use vstd::std_specs::hash::group_hash_axioms;

    match table.get(&w) {
        Some(k) => if k.is_well_formed() {
            Some(k)
        } else {
            None
        },
        None => None,
    }
}

/// Garbles `circuit` under the keys of `wire_keys`.
///
/// Each gate becomes its garbled table, in the order of the circuit; the
/// keys and the declared wires are handed on as they are. Every table that
/// is given out is unambiguous.
///
/// Fails with `UnassignedWire` when a wire of some gate has no well-formed
/// pair of keys, and otherwise with `InsufficientEntropy` when under these
/// keys some table comes out ambiguous. On failure nothing is given out.
pub fn garble(circuit: &Circuit, wire_keys: HashMap<usize, WireKeys>) -> (r: Result<
    GarbledCircuit,
    GcError,
>)
    ensures
        match r {
            Ok(gc) => {
                &&& all_assigned(circuit.gates@, table_view(wire_keys@))
                &&& gc@.gates == garbled_gates(circuit.gates@, table_view(wire_keys@))
                &&& all_unambiguous(gc@.gates)
                &&& gc.wire_keys == wire_keys
                &&& gc.input_wires@ == circuit.input_wires@
                &&& gc.output_wires@ == circuit.output_wires@
            },
            Err(e) => if all_assigned(circuit.gates@, table_view(wire_keys@)) {
                &&& e == GcError::InsufficientEntropy
                &&& !all_unambiguous(garbled_gates(circuit.gates@, table_view(wire_keys@)))
            } else {
                e == GcError::UnassignedWire
            },
        },
{
    let ghost table = table_view(wire_keys@);
    let ghost want = garbled_gates(circuit.gates@, table);
    let mut gates: Vec<GarbledGate> = Vec::new();
    let mut clear = true;
    let mut i: usize = 0;
    while i < circuit.gates.len()
        invariant
            i <= circuit.gates@.len(),
            table == table_view(wire_keys@),
            want == garbled_gates(circuit.gates@, table),
            gates@.len() == i,
            forall|j: int| 0 <= j < i ==> gate_assigned(table, #[trigger] circuit.gates@[j]),
            forall|j: int| 0 <= j < i ==> (#[trigger] gates@[j])@ == want[j],
            clear == forall|j: int| 0 <= j < i ==> unambiguous(#[trigger] want[j]),
        decreases circuit.gates@.len() - i,
    {
        let gate = circuit.gates[i];
        let left = match assigned_keys(&wire_keys, gate.left_wire) {
            Some(keys) => keys,
            None => {
                assert(!gate_assigned(table, circuit.gates@[i as int]));
                return Err(GcError::UnassignedWire);
            },
        };
        let right = if gate.gate_type.unary() {
            left
        } else {
            match assigned_keys(&wire_keys, gate.right_wire) {
                Some(keys) => keys,
                None => {
                    assert(!gate_assigned(table, circuit.gates@[i as int]));
                    return Err(GcError::UnassignedWire);
                },
            }
        };
        let output = match assigned_keys(&wire_keys, gate.output_wire) {
            Some(keys) => keys,
            None => {
                assert(!gate_assigned(table, circuit.gates@[i as int]));
                return Err(GcError::UnassignedWire);
            },
        };
        let garbled = garble_gate(&gate, left, right, output);
        proof {
            assert(garbled@.ciphertexts =~= want[i as int].ciphertexts);
        }
        if !garbled.is_unambiguous() {
            clear = false;
        }
        gates.push(garbled);
        i += 1;
    }
    if !clear {
        return Err(GcError::InsufficientEntropy);
    }
    let gc = GarbledCircuit {
        garbled_gates: gates,
        wire_keys,
        input_wires: copy_wires(&circuit.input_wires),
        output_wires: copy_wires(&circuit.output_wires),
    };
    assert(gc@.gates =~= want);
    Ok(gc)
}

} // verus!
