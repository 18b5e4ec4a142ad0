use partitioned_gc::circuit::{Circuit, Gate, GateType};
use partitioned_gc::scheme::PartitionedGCScheme;

fn four_gates() -> Circuit {
    Circuit {
        depth: 2,
        width: 2,
        gates: vec![
            Gate { gate_type: GateType::And, left_wire: 0, right_wire: 1, output_wire: 2 },
            Gate { gate_type: GateType::Xor, left_wire: 2, right_wire: 3, output_wire: 4 },
            Gate { gate_type: GateType::Or, left_wire: 4, right_wire: 5, output_wire: 6 },
            Gate { gate_type: GateType::And, left_wire: 6, right_wire: 7, output_wire: 8 },
        ],
        input_wires: vec![0, 1, 3, 5],
        output_wires: vec![8],
    }
}

#[test]
fn partitioned_gc_test_prepare_inputs_even() {
    let inputs = vec![0, 1, 1, 0];
    let paired = PartitionedGCScheme::prepare_inputs(inputs);
    assert_eq!(paired.len(), 2);
}

#[test]
fn partitioned_gc_test_prepare_inputs_odd() {
    let inputs = vec![1, 0, 1];
    let paired = PartitionedGCScheme::prepare_inputs(inputs);
    assert_eq!(paired.len(), 2);
}

#[test]
fn partitioned_gc_test_partition_and_garble() {
    let circuit = four_gates();
    let gc = PartitionedGCScheme::garble_circuit(&circuit).unwrap();
    let partitions = PartitionedGCScheme::partition_garbled_circuit(&gc, 2).unwrap();
    assert_eq!(partitions.len(), 2);
}

#[test]
fn pgc_test_prepare_inputs_even() {
    let inputs = vec![0, 1, 1, 0];
    let paired = PartitionedGCScheme::prepare_inputs(inputs);
    assert_eq!(paired.len(), 2);
}

#[test]
fn pgc_test_prepare_inputs_odd() {
    let inputs = vec![1, 0, 1];
    let paired = PartitionedGCScheme::prepare_inputs(inputs);
    assert_eq!(paired.len(), 2);
}

#[test]
fn pgc_test_partition_and_garble() {
    let circuit = four_gates();
    let gc = PartitionedGCScheme::garble_circuit(&circuit).unwrap();
    let partitions = PartitionedGCScheme::partition_garbled_circuit(&gc, 2).unwrap();
    assert_eq!(partitions.len(), 2);
}

#[test]
fn pairing_of_an_even_number_of_bits() {
    let pairs = partitioned_gc::scheme::pair_inputs(vec![0, 1, 1, 0, 1, 1], 1, 1);
    assert_eq!(pairs, vec![(0, 1), (1, 0), (1, 1)]);
}

#[test]
fn pairing_of_an_odd_number_appends_xor_of_auxiliaries() {
    assert_eq!(partitioned_gc::scheme::pair_inputs(vec![1, 0, 1], 1, 0), vec![(1, 0), (1, 1)]);
    assert_eq!(partitioned_gc::scheme::pair_inputs(vec![1, 0, 1], 0, 1), vec![(1, 0), (1, 1)]);
    assert_eq!(partitioned_gc::scheme::pair_inputs(vec![1, 0, 1], 1, 1), vec![(1, 0), (1, 0)]);
    assert_eq!(partitioned_gc::scheme::pair_inputs(vec![1, 0, 1], 0, 0), vec![(1, 0), (1, 0)]);
}

#[test]
fn pairing_of_nothing_and_of_one_bit() {
    assert_eq!(partitioned_gc::scheme::pair_inputs(vec![], 1, 0), vec![]);
    assert_eq!(partitioned_gc::scheme::pair_inputs(vec![1], 1, 0), vec![(1, 1)]);
}

#[test]
fn prepared_inputs_keep_the_given_bits() {
    for len in 0..9usize {
        let inputs: Vec<u8> = (0..len).map(|i| (i % 2) as u8).collect();
        let pairs = PartitionedGCScheme::prepare_inputs(inputs.clone());
        assert_eq!(pairs.len(), (len + 1) / 2);
        for i in 0..len {
            let got = if i % 2 == 0 { pairs[i / 2].0 } else { pairs[i / 2].1 };
            assert_eq!(got, inputs[i]);
        }
        if len % 2 == 1 {
            assert!(pairs[len / 2].1 <= 1);
        }
    }
}

#[test]
fn garbled_circuit_has_keys_for_every_wire() {
    let circuit = four_gates();
    let gc = PartitionedGCScheme::garble_circuit(&circuit).unwrap();
    assert_eq!(gc.wire_keys.len(), 9);
    assert_eq!(gc.garbled_gates.len(), 4);
    assert_eq!(gc.input_wires, vec![0, 1, 3, 5]);
    assert_eq!(gc.output_wires, vec![8]);
    let mut seen: Vec<Vec<u8>> = Vec::new();
    for w in 0..9usize {
        let keys = &gc.wire_keys[&w];
        assert_eq!(keys.key0.len(), 16);
        assert_eq!(keys.key1.len(), 16);
        assert_ne!(keys.key0[15] & 1, keys.key1[15] & 1);
        assert!(!seen.contains(&keys.key0));
        seen.push(keys.key0.clone());
        assert!(!seen.contains(&keys.key1));
        seen.push(keys.key1.clone());
    }
}

#[test]
fn circuit_too_large_for_keys_is_refused() {
    let circuit = Circuit {
        depth: 2,
        width: usize::MAX,
        gates: vec![],
        input_wires: vec![],
        output_wires: vec![],
    };
    assert_eq!(
        PartitionedGCScheme::garble_circuit(&circuit).err(),
        Some(partitioned_gc::errors::GcError::InsufficientEntropy)
    );
}
