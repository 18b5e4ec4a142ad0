use partitioned_gc::circuit::{Circuit, Gate, GateType};

fn gate(gate_type: GateType, left_wire: usize, right_wire: usize, output_wire: usize) -> Gate {
    Gate { gate_type, left_wire, right_wire, output_wire }
}

#[test]
fn truth_tables() {
    for (a, b) in [(false, false), (false, true), (true, false), (true, true)] {
        assert_eq!(GateType::And.apply(a, b), a && b);
        assert_eq!(GateType::Or.apply(a, b), a || b);
        assert_eq!(GateType::Xor.apply(a, b), a != b);
        assert_eq!(GateType::Not.apply(a, b), !a);
    }
    assert!(GateType::Not.unary());
    assert!(!GateType::And.unary());
    assert!(!GateType::Or.unary());
    assert!(!GateType::Xor.unary());
}

#[test]
fn wire_count_covers_grid_and_wires() {
    let c = Circuit {
        depth: 2,
        width: 2,
        gates: vec![gate(GateType::And, 0, 1, 2)],
        input_wires: vec![0, 1],
        output_wires: vec![2],
    };
    assert_eq!(c.wire_count(), Some(4));
    let c = Circuit {
        depth: 2,
        width: 2,
        gates: vec![
            gate(GateType::And, 0, 1, 2),
            gate(GateType::Xor, 2, 3, 4),
            gate(GateType::Or, 4, 5, 6),
            gate(GateType::And, 6, 7, 8),
        ],
        input_wires: vec![0, 1, 3, 5],
        output_wires: vec![8],
    };
    assert_eq!(c.wire_count(), Some(9));
}

#[test]
fn wire_count_ignores_right_wire_of_not() {
    let c = Circuit {
        depth: 0,
        width: 0,
        gates: vec![gate(GateType::Not, 0, 99, 1)],
        input_wires: vec![0],
        output_wires: vec![1],
    };
    assert_eq!(c.wire_count(), Some(2));
}

#[test]
fn wire_count_counts_declared_wires() {
    let c = Circuit { depth: 1, width: 1, gates: vec![], input_wires: vec![6], output_wires: vec![] };
    assert_eq!(c.wire_count(), Some(7));
    let c = Circuit { depth: 1, width: 1, gates: vec![], input_wires: vec![], output_wires: vec![11] };
    assert_eq!(c.wire_count(), Some(12));
    let c = Circuit { depth: 0, width: 5, gates: vec![], input_wires: vec![], output_wires: vec![] };
    assert_eq!(c.wire_count(), Some(0));
}

#[test]
fn wire_count_that_does_not_fit() {
    let c = Circuit {
        depth: 2,
        width: usize::MAX,
        gates: vec![],
        input_wires: vec![],
        output_wires: vec![],
    };
    assert_eq!(c.wire_count(), None);
    let c = Circuit {
        depth: 1,
        width: 1,
        gates: vec![gate(GateType::Or, 0, usize::MAX, 1)],
        input_wires: vec![],
        output_wires: vec![],
    };
    assert_eq!(c.wire_count(), None);
    let c = Circuit {
        depth: 1,
        width: 1,
        gates: vec![],
        input_wires: vec![],
        output_wires: vec![usize::MAX],
    };
    assert_eq!(c.wire_count(), None);
}

fn and_xor_or() -> Circuit {
    // (a AND b) XOR (c OR d)
    Circuit {
        depth: 3,
        width: 2,
        gates: vec![
            gate(GateType::And, 0, 1, 4),
            gate(GateType::Or, 2, 3, 5),
            gate(GateType::Xor, 4, 5, 6),
        ],
        input_wires: vec![0, 1, 2, 3],
        output_wires: vec![6],
    }
}

#[test]
fn plain_evaluation() {
    let c = and_xor_or();
    let values = c.evaluate(&vec![1, 1, 0, 1]).unwrap();
    assert_eq!(values[&4], true);
    assert_eq!(values[&5], true);
    assert_eq!(values[&6], false);
    assert_eq!(values.len(), 7);
    let values = c.evaluate(&vec![1, 0, 0, 1]).unwrap();
    assert_eq!(values[&6], true);
    let values = c.evaluate(&vec![0, 0, 0, 0]).unwrap();
    assert_eq!(values[&6], false);
}

#[test]
fn plain_evaluation_of_not() {
    let c = Circuit {
        depth: 1,
        width: 2,
        gates: vec![gate(GateType::Not, 0, 0, 1), gate(GateType::Not, 1, 7, 2)],
        input_wires: vec![0],
        output_wires: vec![2],
    };
    let values = c.evaluate(&vec![1]).unwrap();
    assert_eq!(values[&1], false);
    assert_eq!(values[&2], true);
}

#[test]
fn plain_evaluation_refuses_wrong_inputs() {
    let c = and_xor_or();
    assert!(c.evaluate(&vec![1, 1, 0]).is_none());
    assert!(c.evaluate(&vec![1, 1, 0, 1, 0]).is_none());
    assert!(c.evaluate(&vec![1, 2, 0, 1]).is_none());
}

#[test]
fn plain_evaluation_refuses_wire_without_value() {
    let c = Circuit {
        depth: 1,
        width: 2,
        gates: vec![gate(GateType::And, 0, 1, 2)],
        input_wires: vec![0],
        output_wires: vec![2],
    };
    assert!(c.evaluate(&vec![1]).is_none());
}

#[test]
fn well_ordered_circuits() {
    assert!(and_xor_or().is_well_ordered());
    let empty =
        Circuit { depth: 0, width: 0, gates: vec![], input_wires: vec![], output_wires: vec![9] };
    assert!(empty.is_well_ordered());
    // wire 7 is neither declared nor produced
    let c = Circuit {
        depth: 2,
        width: 2,
        gates: vec![
            gate(GateType::And, 0, 1, 2),
            gate(GateType::Xor, 2, 3, 4),
            gate(GateType::Or, 4, 5, 6),
            gate(GateType::And, 6, 7, 8),
        ],
        input_wires: vec![0, 1, 3, 5],
        output_wires: vec![8],
    };
    assert!(!c.is_well_ordered());
    assert!(c.evaluate(&vec![1, 1, 1, 1]).is_none());
    // a gate that reads what a later gate produces
    let c = Circuit {
        depth: 1,
        width: 1,
        gates: vec![gate(GateType::And, 0, 3, 2), gate(GateType::Or, 0, 1, 3)],
        input_wires: vec![0, 1],
        output_wires: vec![2],
    };
    assert!(!c.is_well_ordered());
    // the right wire of a gate of one input does not count
    let c = Circuit {
        depth: 1,
        width: 1,
        gates: vec![gate(GateType::Not, 0, 5, 1)],
        input_wires: vec![0],
        output_wires: vec![1],
    };
    assert!(c.is_well_ordered());
    assert!(c.evaluate(&vec![0]).is_some());
}

#[test]
fn single_assignment_circuits() {
    assert!(and_xor_or().is_single_assignment());
    let c = Circuit {
        depth: 1,
        width: 1,
        gates: vec![
            gate(GateType::And, 0, 1, 2),
            gate(GateType::Or, 0, 1, 3),
            gate(GateType::Xor, 0, 1, 2),
        ],
        input_wires: vec![0, 1],
        output_wires: vec![2],
    };
    assert!(!c.is_single_assignment());
    let none =
        Circuit { depth: 0, width: 0, gates: vec![], input_wires: vec![], output_wires: vec![] };
    assert!(none.is_single_assignment());
}
