//! Boolean circuits: gates over numbered wires, in evaluation order.

use std::collections::HashSet;
use vstd::prelude::*;

verus! {

/// The Boolean function of a gate.
#[derive(Clone, Copy, Debug, PartialEq, Eq, Structural)]
pub enum GateType {
    And,
    Or,
    Xor,
    Not,
}

impl GateType {
    /// The output of a gate of this type on inputs `a` and `b`. `Not` negates `a` and
    /// ignores `b`.
    pub open spec fn output(self, a: bool, b: bool) -> bool {
        match self {
            GateType::And => a && b,
            GateType::Or => a || b,
            GateType::Xor => a != b,
            GateType::Not => !a,
        }
    }

    /// Whether this is a gate of one input.
    pub open spec fn is_unary(self) -> bool {
        self == GateType::Not
    }

    /// Computes [`GateType::output`].
    pub fn apply(self, a: bool, b: bool) -> (out: bool)
        ensures
            out == self.output(a, b),
    {
        match self {
            GateType::And => a && b,
            GateType::Or => a || b,
            GateType::Xor => a != b,
            GateType::Not => !a,
        }
    }

    /// Computes [`GateType::is_unary`].
    pub fn unary(self) -> (out: bool)
        ensures
            out == self.is_unary(),
    {
        match self {
            GateType::Not => true,
            _ => false,
        }
    }
}

/// One gate. A `Not` gate reads `left_wire` only; its `right_wire` is not
/// looked at.
#[derive(Clone, Copy, Debug, PartialEq, Eq, Structural)]
pub struct Gate {
    pub gate_type: GateType,
    pub left_wire: usize,
    pub right_wire: usize,
    pub output_wire: usize,
}

impl Gate {
    /// Whether wire `w` is an input of this gate.
    pub open spec fn reads(self, w: usize) -> bool {
        self.left_wire == w || (!self.gate_type.is_unary() && self.right_wire == w)
    }

    /// Whether this gate reads or produces wire `w`.
    pub open spec fn mentions(self, w: usize) -> bool {
        self.reads(w) || self.output_wire == w
    }
}

/// A Boolean circuit. The order of `gates` is the order of evaluation.
#[derive(Clone, Debug)]
pub struct Circuit {
    pub depth: usize,
    pub width: usize,
    pub gates: Vec<Gate>,
    pub input_wires: Vec<usize>,
    pub output_wires: Vec<usize>,
}

impl Circuit {
    /// Whether wire `w` occurs in the circuit: at a gate, or among the
    /// declared inputs or outputs.
    pub open spec fn mentions(self, w: usize) -> bool {
        ||| exists|i: int| 0 <= i < self.gates@.len() && #[trigger] self.gates@[i].mentions(w)
        ||| self.input_wires@.contains(w)
        ||| self.output_wires@.contains(w)
    }

    /// The wires that have a value before gate `j` is evaluated: the declared
    /// inputs and the outputs of the gates before `j`.
    pub open spec fn available(self, j: int) -> Set<usize> {
        Set::new(
            |w: usize|
                self.input_wires@.contains(w) || exists|k: int|
                    0 <= k < j && k < self.gates@.len() && (#[trigger] self.gates@[k]).output_wire
                        == w,
        )
    }

    /// Whether every gate reads declared inputs and outputs of earlier gates
    /// only, so that the gates can be evaluated in their order.
    pub open spec fn well_ordered(self) -> bool {
        forall|j: int, w: usize|
            0 <= j < self.gates@.len() && #[trigger] self.gates@[j].reads(w)
                ==> self.available(j).contains(w)
    }

    /// Computes [`Circuit::well_ordered`].
    pub fn is_well_ordered(&self) -> (ok: bool)
        ensures
            ok == self.well_ordered(),
    {
        broadcast use vstd::std_specs::hash::group_hash_axioms;

        let mut ready: HashSet<usize> = HashSet::new();
        let mut i: usize = 0;
        while i < self.input_wires.len()
            invariant
                i <= self.input_wires@.len(),
                forall|w: usize|
                    ready@.contains(w) <==> exists|k: int|
                        0 <= k < i && #[trigger] self.input_wires@[k] == w,
            decreases self.input_wires@.len() - i,
        {
            let ghost before = ready@;
            ready.insert(self.input_wires[i]);
            assert forall|w: usize|
                ready@.contains(w) <==> exists|k: int|
                    0 <= k < i + 1 && #[trigger] self.input_wires@[k] == w by {
                if before.contains(w) {
                    let k = choose|k: int| 0 <= k < i && #[trigger] self.input_wires@[k] == w;
                    assert(0 <= k < i + 1 && self.input_wires@[k] == w);
                }
                if w == self.input_wires@[i as int] {
                    assert(0 <= i < i + 1 && self.input_wires@[i as int] == w);
                }
            }
            i += 1;
        }
        assert(ready@ =~= self.available(0));
        let mut j: usize = 0;
        while j < self.gates.len()
            invariant
                j <= self.gates@.len(),
                ready@ == self.available(j as int),
                forall|i: int, w: usize|
                    0 <= i < j && #[trigger] self.gates@[i].reads(w) ==> self.available(
                        i,
                    ).contains(w),
            decreases self.gates@.len() - j,
        {
            let g = self.gates[j];
            if !ready.contains(&g.left_wire) || (!g.gate_type.unary() && !ready.contains(
                &g.right_wire,
            )) {
                proof {
                    let w = if !ready@.contains(g.left_wire) {
                        g.left_wire
                    } else {
                        g.right_wire
                    };
                    assert(self.gates@[j as int].reads(w));
                }
                return false;
            }
            let ghost before = ready@;
            ready.insert(g.output_wire);
            assert(ready@ =~= self.available(j + 1)) by {
                assert forall|w: usize| ready@.contains(w) == self.available(j + 1).contains(
                    w,
                ) by {
                    if before.contains(w) && !self.input_wires@.contains(w) {
                        let k = choose|k: int|
                            0 <= k < j && k < self.gates@.len() && (
                            #[trigger] self.gates@[k]).output_wire == w;
                        assert(0 <= k < j + 1 && self.gates@[k].output_wire == w);
                    }
                    if w == g.output_wire {
                        assert(self.gates@[j as int].output_wire == w);
                    }
                    if self.available(j + 1).contains(w) && !self.input_wires@.contains(w) {
                        let k = choose|k: int|
                            0 <= k < j + 1 && k < self.gates@.len() && (
                            #[trigger] self.gates@[k]).output_wire == w;
                        if k < j {
                            assert(self.available(j as int).contains(w));
                        }
                    }
                }
            }
            j += 1;
        }
        true
    }

    /// Whether no wire is the output of two gates.
    pub open spec fn single_assignment(self) -> bool {
        forall|j: int, k: int|
            0 <= j < k < self.gates@.len() ==> (#[trigger] self.gates@[j]).output_wire != (
            #[trigger] self.gates@[k]).output_wire
    }

    /// Computes [`Circuit::single_assignment`].
    pub fn is_single_assignment(&self) -> (ok: bool)
        ensures
            ok == self.single_assignment(),
    {
        broadcast use vstd::std_specs::hash::group_hash_axioms;

        let mut written: HashSet<usize> = HashSet::new();
        let mut k: usize = 0;
        while k < self.gates.len()
            invariant
                k <= self.gates@.len(),
                forall|w: usize|
                    written@.contains(w) <==> exists|j: int|
                        0 <= j < k && (#[trigger] self.gates@[j]).output_wire == w,
                forall|i: int, j: int|
                    0 <= i < j < k ==> (#[trigger] self.gates@[i]).output_wire != (
                    #[trigger] self.gates@[j]).output_wire,
            decreases self.gates@.len() - k,
        {
            let w = self.gates[k].output_wire;
            if written.contains(&w) {
                proof {
                    let j = choose|j: int|
                        0 <= j < k && (#[trigger] self.gates@[j]).output_wire == w;
                    assert(self.gates@[j].output_wire == self.gates@[k as int].output_wire);
                }
                return false;
            }
            let ghost before = written@;
            written.insert(w);
            assert forall|x: usize|
                written@.contains(x) <==> exists|j: int|
                    0 <= j < k + 1 && (#[trigger] self.gates@[j]).output_wire == x by {
                if before.contains(x) {
                    let j = choose|j: int|
                        0 <= j < k && (#[trigger] self.gates@[j]).output_wire == x;
                    assert(0 <= j < k + 1 && self.gates@[j].output_wire == x);
                }
                if x == w {
                    assert(self.gates@[k as int].output_wire == x);
                }
            }
            k += 1;
        }
        true
    }

    /// Whether the wires `0..n` include every wire of the `depth` by `width`
    /// grid and every wire that occurs in the circuit.
    pub open spec fn covers(self, n: nat) -> bool {
        &&& self.width * self.depth <= n
        &&& forall|w: usize| #[trigger] self.mentions(w) ==> w < n
    }

    /// The number of wires of the circuit: the least `n` such that the wires
    /// `0..n` cover it. `None` when that number does not fit in `usize`.
    pub fn wire_count(&self) -> (count: Option<usize>)
        ensures
            match count {
                Some(n) => self.covers(n as nat) && forall|m: nat| m < n ==> !self.covers(m),
                None => forall|m: nat| self.covers(m) ==> m > usize::MAX,
            },
    {
        let mut n: usize = match self.width.checked_mul(self.depth) {
            Some(grid) => grid,
            None => {
                return None;
            },
        };
        let mut i: usize = 0;
        while i < self.gates.len()
            invariant
                i <= self.gates@.len(),
                self.width * self.depth <= n,
                n == self.width * self.depth || (n > 0 && self.mentions((n - 1) as usize)),
                forall|j: int, w: usize|
                    0 <= j < i && #[trigger] self.gates@[j].mentions(w) ==> w < n,
            decreases self.gates@.len() - i,
        {
            let g = self.gates[i];
            let mut top = if g.left_wire >= g.output_wire {
                g.left_wire
            } else {
                g.output_wire
            };
            if !g.gate_type.unary() && g.right_wire > top {
                top = g.right_wire;
            }
            assert(self.gates@[i as int].mentions(top));
            if top >= n {
                if top == usize::MAX {
                    assert(self.mentions(top));
                    return None;
                }
                n = top + 1;
            }
            i += 1;
        }
        let mut i: usize = 0;
        while i < self.input_wires.len()
            invariant
                i <= self.input_wires@.len(),
                self.width * self.depth <= n,
                n == self.width * self.depth || (n > 0 && self.mentions((n - 1) as usize)),
                forall|j: int, w: usize|
                    0 <= j < self.gates@.len() && #[trigger] self.gates@[j].mentions(w) ==> w < n,
                forall|j: int| 0 <= j < i ==> self.input_wires@[j] < n,
            decreases self.input_wires@.len() - i,
        {
            let w = self.input_wires[i];
            assert(self.input_wires@.contains(w));
            if w >= n {
                if w == usize::MAX {
                    assert(self.mentions(w));
                    return None;
                }
                n = w + 1;
            }
            i += 1;
        }
        let mut i: usize = 0;
        while i < self.output_wires.len()
            invariant
                i <= self.output_wires@.len(),
                self.width * self.depth <= n,
                n == self.width * self.depth || (n > 0 && self.mentions((n - 1) as usize)),
                forall|j: int, w: usize|
                    0 <= j < self.gates@.len() && #[trigger] self.gates@[j].mentions(w) ==> w < n,
                forall|j: int| 0 <= j < self.input_wires@.len() ==> self.input_wires@[j] < n,
                forall|j: int| 0 <= j < i ==> self.output_wires@[j] < n,
            decreases self.output_wires@.len() - i,
        {
            let w = self.output_wires[i];
            assert(self.output_wires@.contains(w));
            if w >= n {
                if w == usize::MAX {
                    assert(self.mentions(w));
                    return None;
                }
                n = w + 1;
            }
            i += 1;
        }
        assert(self.covers(n as nat));
        assert forall|m: nat| m < n implies !self.covers(m) by {
            if self.covers(m) {
                assert(n != self.width * self.depth);
                assert(self.mentions((n - 1) as usize));
            }
        }
        Some(n)
    }
}

} // verus!
