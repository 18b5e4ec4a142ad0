use partitioned_gc::circuit::{Circuit, Gate, GateType};
use partitioned_gc::errors::GcError;
use partitioned_gc::garble::{GarbledCircuit, GarbledGate};
use partitioned_gc::keys::keys_from_entropy;
use partitioned_gc::partition::{
    check_continuity, is_all_keyed, is_feed_forward, local_inputs_of, partition,
};
use partitioned_gc::scheme::PartitionedGCScheme;
use sha2::{Digest, Sha256};

fn blocks(n: usize) -> Vec<Vec<u8>> {
    (0..n).map(|w| Sha256::digest(&[w as u8, 0x29]).to_vec()).collect()
}

fn gate(gate_type: GateType, left_wire: usize, right_wire: usize, output_wire: usize) -> Gate {
    Gate { gate_type, left_wire, right_wire, output_wire }
}

fn scenario() -> Circuit {
    Circuit {
        depth: 3,
        width: 3,
        gates: vec![
            gate(GateType::And, 0, 1, 4),
            gate(GateType::Xor, 2, 3, 5),
            gate(GateType::Or, 4, 5, 6),
            gate(GateType::And, 6, 7, 8),
        ],
        input_wires: vec![0, 1, 2, 3, 7],
        output_wires: vec![8],
    }
}

fn garbled(circuit: &Circuit) -> GarbledCircuit {
    let n = circuit.wire_count().unwrap();
    PartitionedGCScheme::garble_with_entropy(circuit, &blocks(n)).unwrap()
}

fn wires_of(part: &GarbledCircuit) -> Vec<usize> {
    let mut wires: Vec<usize> = part.wire_keys.keys().copied().collect();
    wires.sort();
    wires
}

#[test]
fn four_gates_in_chunks_of_two() {
    let gc = garbled(&scenario());
    let parts = PartitionedGCScheme::partition_garbled_circuit(&gc, 2).unwrap();
    assert_eq!(parts.len(), 2);
    assert_eq!(parts[0].garbled_gates.len(), 2);
    assert_eq!(parts[1].garbled_gates.len(), 2);
    assert_eq!(wires_of(&parts[0]), vec![0, 1, 2, 3, 4, 5]);
    assert_eq!(wires_of(&parts[1]), vec![4, 5, 6, 7, 8]);
    for w in [4usize, 5] {
        assert_eq!(parts[0].wire_keys[&w].key0, parts[1].wire_keys[&w].key0);
        assert_eq!(parts[0].wire_keys[&w].key1, parts[1].wire_keys[&w].key1);
        assert_eq!(parts[1].wire_keys[&w].key0, gc.wire_keys[&w].key0);
        assert_eq!(parts[1].wire_keys[&w].key1, gc.wire_keys[&w].key1);
    }
    assert_eq!(parts[0].input_wires, vec![0, 1, 2, 3]);
    assert_eq!(parts[0].output_wires, vec![4, 5]);
    assert_eq!(parts[1].input_wires, vec![4, 5, 7]);
    assert_eq!(parts[1].output_wires, vec![8]);
}

fn chain(n: usize) -> Circuit {
    // gate i reads wires i and i + 1 of the inputs and writes wire 100 + i
    Circuit {
        depth: 1,
        width: 1,
        gates: (0..n).map(|i| gate(GateType::Xor, i, i + 1, 100 + i)).collect(),
        input_wires: (0..n + 1).collect(),
        output_wires: (0..n).map(|i| 100 + i).collect(),
    }
}

#[test]
fn number_of_partitions_is_gates_over_size_rounded_up() {
    for (gates, size, want) in [
        (0usize, 1usize, 0usize),
        (0, 5, 0),
        (1, 1, 1),
        (1, 4, 1),
        (4, 2, 2),
        (5, 2, 3),
        (5, 5, 1),
        (5, 6, 1),
        (7, 3, 3),
        (6, 1, 6),
        (3, usize::MAX, 1),
    ] {
        let gc = garbled(&chain(gates));
        let parts = partition(&gc, size).unwrap();
        assert_eq!(parts.len(), want);
        let mut joined: Vec<Vec<Vec<u8>>> = Vec::new();
        for (i, part) in parts.iter().enumerate() {
            if i + 1 < parts.len() {
                assert_eq!(part.garbled_gates.len(), size);
            } else {
                assert!(part.garbled_gates.len() >= 1 && part.garbled_gates.len() <= size);
            }
            for g in &part.garbled_gates {
                joined.push(g.ciphertexts.clone());
            }
        }
        let whole: Vec<Vec<Vec<u8>>> =
            gc.garbled_gates.iter().map(|g| g.ciphertexts.clone()).collect();
        assert_eq!(joined, whole);
    }
}

#[test]
fn partitions_keep_wiring_of_their_gates() {
    let gc = garbled(&scenario());
    let parts = partition(&gc, 3).unwrap();
    assert_eq!(parts.len(), 2);
    assert_eq!(parts[0].garbled_gates.len(), 3);
    assert_eq!(parts[1].garbled_gates.len(), 1);
    let g = &parts[1].garbled_gates[0];
    assert_eq!((g.left_wire, g.right_wire, g.output_wire), (6, 7, 8));
    assert_eq!(parts[0].input_wires, vec![0, 1, 2, 3]);
    assert_eq!(parts[0].output_wires, vec![6]);
    assert_eq!(parts[1].input_wires, vec![6, 7]);
    assert_eq!(wires_of(&parts[1]), vec![6, 7, 8]);
}

#[test]
fn declared_outputs_are_outputs_of_their_partition() {
    let mut circuit = scenario();
    circuit.output_wires = vec![4, 8];
    let gc = garbled(&circuit);
    let parts = partition(&gc, 4).unwrap();
    assert_eq!(parts.len(), 1);
    assert_eq!(parts[0].output_wires, vec![4, 8]);
    assert_eq!(parts[0].input_wires, vec![0, 1, 2, 3, 7]);
}

#[test]
fn input_wire_read_twice_stands_once() {
    let circuit = Circuit {
        depth: 1,
        width: 1,
        gates: vec![
            gate(GateType::And, 0, 0, 1),
            gate(GateType::Or, 1, 0, 2),
            gate(GateType::Not, 2, 5, 3),
        ],
        input_wires: vec![0],
        output_wires: vec![3],
    };
    let gc = garbled(&circuit);
    assert_eq!(local_inputs_of(&gc.garbled_gates), vec![0]);
    let parts = partition(&gc, 1).unwrap();
    assert_eq!(parts[0].input_wires, vec![0]);
    assert_eq!(parts[1].input_wires, vec![1, 0]);
    assert_eq!(parts[2].input_wires, vec![2]);
    assert_eq!(wires_of(&parts[2]), vec![2, 3]);
}

#[test]
fn gate_reading_a_later_output_breaks_continuity() {
    let circuit = Circuit {
        depth: 1,
        width: 1,
        gates: vec![gate(GateType::And, 0, 3, 2), gate(GateType::Or, 0, 1, 3)],
        input_wires: vec![0, 1],
        output_wires: vec![2],
    };
    let gc = garbled(&circuit);
    assert!(!is_feed_forward(&gc.garbled_gates));
    assert_eq!(partition(&gc, 1).err(), Some(GcError::PartitionContinuityViolation));
    assert_eq!(partition(&gc, 2).err(), Some(GcError::PartitionContinuityViolation));
}

#[test]
fn gate_reading_its_own_output_breaks_continuity() {
    let circuit = Circuit {
        depth: 1,
        width: 1,
        gates: vec![gate(GateType::And, 0, 1, 1)],
        input_wires: vec![0, 1],
        output_wires: vec![1],
    };
    let gc = garbled(&circuit);
    assert_eq!(partition(&gc, 1).err(), Some(GcError::PartitionContinuityViolation));
}

#[test]
fn not_gate_may_name_any_right_wire() {
    let circuit = Circuit {
        depth: 1,
        width: 1,
        gates: vec![gate(GateType::Not, 0, 1, 1)],
        input_wires: vec![0],
        output_wires: vec![1],
    };
    let gc = garbled(&circuit);
    assert!(is_feed_forward(&gc.garbled_gates));
    assert_eq!(partition(&gc, 1).unwrap().len(), 1);
}

#[test]
fn gate_without_keys_cannot_be_partitioned() {
    let mut gc = garbled(&scenario());
    assert!(is_all_keyed(&gc));
    gc.wire_keys.remove(&5);
    assert!(!is_all_keyed(&gc));
    assert_eq!(partition(&gc, 2).err(), Some(GcError::UnassignedWire));
}

#[test]
fn missing_keys_are_reported_before_order() {
    let table = keys_from_entropy(&blocks(2)).unwrap();
    let gc = GarbledCircuit {
        garbled_gates: vec![GarbledGate {
            ciphertexts: vec![vec![0; 32], vec![1; 32], vec![2; 32], vec![3; 32]],
            left_wire: 0,
            right_wire: 9,
            output_wire: 0,
        }],
        wire_keys: table,
        input_wires: vec![],
        output_wires: vec![],
    };
    assert_eq!(partition(&gc, 1).err(), Some(GcError::UnassignedWire));
}

#[test]
fn partitions_of_one_circuit_are_continuous() {
    let gc = garbled(&scenario());
    for size in 1..=5usize {
        let parts = partition(&gc, size).unwrap();
        assert_eq!(check_continuity(&parts), Ok(()));
    }
    assert_eq!(check_continuity(&vec![]), Ok(()));
}

#[test]
fn boundary_wire_with_other_keys_breaks_continuity() {
    let gc = garbled(&scenario());
    let parts = partition(&gc, 2).unwrap();
    // wire 4 is produced in the first partition and read in the second
    let mut bent = parts.clone();
    bent[1].wire_keys.get_mut(&4).unwrap().key0[3] ^= 1;
    assert_eq!(check_continuity(&bent), Err(GcError::PartitionContinuityViolation));
    let mut bent = parts.clone();
    bent[0].wire_keys.get_mut(&5).unwrap().key1[0] ^= 0x80;
    assert_eq!(check_continuity(&bent), Err(GcError::PartitionContinuityViolation));
    let mut missing = parts.clone();
    missing[0].wire_keys.remove(&4);
    assert_eq!(check_continuity(&missing), Err(GcError::PartitionContinuityViolation));
    let mut missing = parts.clone();
    missing[1].wire_keys.remove(&5);
    assert_eq!(check_continuity(&missing), Err(GcError::PartitionContinuityViolation));
    // wire 7 is no boundary wire: it is read in the second partition only
    let mut other = parts.clone();
    other[1].wire_keys.get_mut(&7).unwrap().key0[3] ^= 1;
    assert_eq!(check_continuity(&other), Ok(()));
    // wire 0 is not read in the second partition
    let mut other = parts.clone();
    other[0].wire_keys.remove(&0);
    assert_eq!(check_continuity(&other), Ok(()));
}
