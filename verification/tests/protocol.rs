use partitioned_gc::circuit::{Circuit, Gate, GateType};
use partitioned_gc::garble::GarbledCircuit;
use partitioned_gc::runner::{
    commit, evaluate, evaluate_all, meets_commitments, PartitionInputs, VerificationResult,
};
use partitioned_gc::scheme::PartitionedGCScheme;
use sha2::{Digest, Sha256};

fn blocks(n: usize) -> Vec<Vec<u8>> {
    (0..n).map(|w| Sha256::digest(&[w as u8, 0x3b]).to_vec()).collect()
}

fn gate(gate_type: GateType, left_wire: usize, right_wire: usize, output_wire: usize) -> Gate {
    Gate { gate_type, left_wire, right_wire, output_wire }
}

fn and_xor_or() -> Circuit {
    // (a AND b) XOR (c OR d)
    Circuit {
        depth: 3,
        width: 2,
        gates: vec![
            gate(GateType::And, 0, 1, 4),
            gate(GateType::Or, 2, 3, 5),
            gate(GateType::Xor, 4, 5, 6),
        ],
        input_wires: vec![0, 1, 2, 3],
        output_wires: vec![6],
    }
}

fn garbled(circuit: &Circuit) -> GarbledCircuit {
    let n = circuit.wire_count().unwrap();
    PartitionedGCScheme::garble_with_entropy(circuit, &blocks(n)).unwrap()
}

fn seeds(part: &GarbledCircuit, salt: u8) -> Vec<Vec<u8>> {
    (0..part.input_wires.len()).map(|i| Sha256::digest(&[salt, i as u8])[..16].to_vec()).collect()
}

fn sessions(circuit: &Circuit, parts: &Vec<GarbledCircuit>, bits: &Vec<u8>) -> Vec<PartitionInputs> {
    let values = circuit.evaluate(bits).unwrap();
    parts
        .iter()
        .enumerate()
        .map(|(i, part)| PartitionInputs::prepare(part, &values, seeds(part, i as u8)).unwrap())
        .collect()
}

#[test]
fn commitment_is_digest_of_key() {
    let key = [9u8; 16];
    assert_eq!(commit(&key), Sha256::digest(&key).to_vec());
    assert!(meets_commitments(&vec![key.to_vec()], &vec![Sha256::digest(&key).to_vec()]));
    assert!(!meets_commitments(&vec![key.to_vec()], &vec![vec![0u8; 32]]));
    assert!(!meets_commitments(&vec![key.to_vec()], &vec![]));
    assert!(meets_commitments(&vec![], &vec![]));
}

#[test]
fn honest_run_verifies_for_every_input() {
    let circuit = and_xor_or();
    let gc = garbled(&circuit);
    for size in 1..=4usize {
        let parts = PartitionedGCScheme::partition_garbled_circuit(&gc, size).unwrap();
        for n in 0..16u8 {
            let bits: Vec<u8> = (0..4).map(|i| (n >> i) & 1).collect();
            let values = circuit.evaluate(&bits).unwrap();
            let inputs = sessions(&circuit, &parts, &bits);
            let results = PartitionedGCScheme::run_protocol_iterations(&parts, &inputs);
            assert_eq!(results.len(), parts.len());
            for (part, result) in parts.iter().zip(results.iter()) {
                assert!(result.verified);
                let keys = result.output_keys.as_ref().unwrap();
                assert_eq!(keys.len(), part.output_wires.len());
                for (w, key) in part.output_wires.iter().zip(keys.iter()) {
                    assert_eq!(key, part.wire_keys[w].key_for(values[w]));
                }
            }
            assert!(PartitionedGCScheme::aggregate_verification(&results));
        }
    }
}

#[test]
fn prepared_inputs_hold_bits_and_commitments() {
    let circuit = and_xor_or();
    let gc = garbled(&circuit);
    let parts = PartitionedGCScheme::partition_garbled_circuit(&gc, 2).unwrap();
    let bits = vec![1, 1, 0, 1];
    let values = circuit.evaluate(&bits).unwrap();
    let first = PartitionInputs::prepare(&parts[0], &values, vec![vec![1], vec![2]]).unwrap();
    assert_eq!(first.bits, vec![1, 1, 0, 1]);
    assert_eq!(first.seeds, vec![vec![1], vec![2]]);
    assert_eq!(
        first.commitments,
        vec![
            Sha256::digest(&gc.wire_keys[&4].key1).to_vec(),
            Sha256::digest(&gc.wire_keys[&5].key1).to_vec()
        ]
    );
    let second = PartitionInputs::prepare(&parts[1], &values, vec![]).unwrap();
    assert_eq!(second.bits, vec![1, 1]);
    assert_eq!(second.commitments, vec![Sha256::digest(&gc.wire_keys[&6].key0).to_vec()]);
    let mut fewer = values.clone();
    fewer.remove(&6);
    assert!(PartitionInputs::prepare(&parts[1], &fewer, vec![]).is_none());
    fewer.remove(&0);
    assert!(PartitionInputs::prepare(&parts[0], &fewer, vec![]).is_none());
}

#[test]
fn wrong_commitment_fails_but_reports_keys() {
    let circuit = and_xor_or();
    let gc = garbled(&circuit);
    let parts = PartitionedGCScheme::partition_garbled_circuit(&gc, 3).unwrap();
    let bits = vec![1, 1, 0, 1];
    let mut inputs = sessions(&circuit, &parts, &bits);
    // commit to the key of the other value
    inputs[0].commitments = vec![commit(&gc.wire_keys[&6].key1)];
    let result = evaluate(&parts[0], &inputs[0].seeds, &inputs[0].bits, &inputs[0].commitments);
    assert!(!result.verified);
    assert_eq!(result.output_keys, Some(vec![gc.wire_keys[&6].key0.clone()]));
}

#[test]
fn evaluator_with_another_bit_finds_another_key() {
    let circuit = and_xor_or();
    let gc = garbled(&circuit);
    let parts = PartitionedGCScheme::partition_garbled_circuit(&gc, 3).unwrap();
    let inputs = sessions(&circuit, &parts, &vec![1, 1, 0, 1]);
    // the evaluator holds a = 0: (0 AND 1) XOR (0 OR 1) = 1
    let result = evaluate(&parts[0], &inputs[0].seeds, &vec![0, 1, 0, 1], &inputs[0].commitments);
    assert!(!result.verified);
    assert_eq!(result.output_keys, Some(vec![gc.wire_keys[&6].key1.clone()]));
}

#[test]
fn one_failed_partition_does_not_stop_the_others() {
    let circuit = and_xor_or();
    let gc = garbled(&circuit);
    let parts = PartitionedGCScheme::partition_garbled_circuit(&gc, 1).unwrap();
    assert_eq!(parts.len(), 3);
    let bits = vec![1, 0, 1, 1];
    let mut inputs = sessions(&circuit, &parts, &bits);
    inputs[1].commitments[0][0] ^= 1;
    let results = evaluate_all(&parts, &inputs);
    let flags: Vec<bool> = results.iter().map(|r| r.verified).collect();
    assert_eq!(flags, vec![true, false, true]);
    assert!(!PartitionedGCScheme::aggregate_verification(&results));
}

#[test]
fn partition_without_inputs_fails() {
    let circuit = and_xor_or();
    let gc = garbled(&circuit);
    let parts = PartitionedGCScheme::partition_garbled_circuit(&gc, 2).unwrap();
    let mut inputs = sessions(&circuit, &parts, &vec![0, 0, 0, 0]);
    inputs.pop();
    let results = evaluate_all(&parts, &inputs);
    assert_eq!(results.len(), 2);
    assert!(results[0].verified);
    assert!(!results[1].verified);
    assert_eq!(results[1].output_keys, None);
    assert_eq!(evaluate_all(&parts, &vec![]).iter().filter(|r| r.verified).count(), 0);
}

fn failed(result: &VerificationResult) -> bool {
    !result.verified && result.output_keys.is_none()
}

#[test]
fn malformed_transfers_fail() {
    let circuit = and_xor_or();
    let gc = garbled(&circuit);
    let parts = PartitionedGCScheme::partition_garbled_circuit(&gc, 3).unwrap();
    let s = &sessions(&circuit, &parts, &vec![1, 1, 1, 1])[0];
    assert!(evaluate(&parts[0], &s.seeds, &s.bits, &s.commitments).verified);
    // a seed too few, a bit too few, a selection that is no bit
    assert!(failed(&evaluate(&parts[0], &s.seeds[..3].to_vec(), &s.bits, &s.commitments)));
    assert!(failed(&evaluate(&parts[0], &s.seeds, &vec![1, 1, 1], &s.commitments)));
    assert!(failed(&evaluate(&parts[0], &s.seeds, &vec![1, 1, 2, 1], &s.commitments)));
    // an input wire without keys
    let mut part = parts[0].clone();
    part.wire_keys.remove(&2);
    assert!(failed(&evaluate(&part, &s.seeds, &s.bits, &s.commitments)));
}

#[test]
fn tampered_table_fails() {
    let circuit = and_xor_or();
    let gc = garbled(&circuit);
    let parts = PartitionedGCScheme::partition_garbled_circuit(&gc, 3).unwrap();
    let s = &sessions(&circuit, &parts, &vec![1, 1, 1, 1])[0];
    // no row opens: every tag is bent
    let mut part = parts[0].clone();
    for row in part.garbled_gates[2].ciphertexts.iter_mut() {
        row[31] ^= 0x80;
    }
    assert!(failed(&evaluate(&part, &s.seeds, &s.bits, &s.commitments)));
    // two rows open: every row is the one that opens
    let mut part = parts[0].clone();
    let l = &gc.wire_keys[&0].key1;
    let r = &gc.wire_keys[&1].key1;
    let row = 2 * (l[15] & 1) as usize + (r[15] & 1) as usize;
    let good = part.garbled_gates[0].ciphertexts[row].clone();
    part.garbled_gates[0].ciphertexts = vec![good.clone(), good.clone(), good.clone(), good];
    assert!(failed(&evaluate(&part, &s.seeds, &s.bits, &s.commitments)));
    // a table of three rows
    let mut part = parts[0].clone();
    part.garbled_gates[1].ciphertexts.pop();
    assert!(failed(&evaluate(&part, &s.seeds, &s.bits, &s.commitments)));
    // a bent key under the mask: the row opens to another key, and the next gate fails
    let mut part = parts[0].clone();
    part.garbled_gates[0].ciphertexts[row][0] ^= 1;
    assert!(failed(&evaluate(&part, &s.seeds, &s.bits, &s.commitments)));
}

#[test]
fn gate_that_reads_a_wire_without_key_fails() {
    let circuit = and_xor_or();
    let gc = garbled(&circuit);
    let parts = PartitionedGCScheme::partition_garbled_circuit(&gc, 3).unwrap();
    let s = &sessions(&circuit, &parts, &vec![1, 1, 1, 1])[0];
    let mut part = parts[0].clone();
    part.input_wires = vec![0, 1, 2];
    assert!(failed(&evaluate(&part, &s.seeds[..3].to_vec(), &vec![1, 1, 1], &s.commitments)));
    let mut part = parts[0].clone();
    part.output_wires = vec![6, 40];
    assert!(failed(&evaluate(&part, &s.seeds, &s.bits, &s.commitments)));
}

#[test]
fn circuit_with_not_verifies() {
    let circuit = Circuit {
        depth: 2,
        width: 2,
        gates: vec![
            gate(GateType::Not, 0, 0, 2),
            gate(GateType::And, 2, 1, 3),
            gate(GateType::Not, 3, 9, 4),
        ],
        input_wires: vec![0, 1],
        output_wires: vec![4],
    };
    let gc = garbled(&circuit);
    for size in 1..=3usize {
        let parts = PartitionedGCScheme::partition_garbled_circuit(&gc, size).unwrap();
        for bits in [vec![0u8, 0], vec![0, 1], vec![1, 0], vec![1, 1]] {
            let inputs = sessions(&circuit, &parts, &bits);
            let results = evaluate_all(&parts, &inputs);
            assert!(PartitionedGCScheme::aggregate_verification(&results));
            let last = results.last().unwrap().output_keys.as_ref().unwrap();
            let nand = !((bits[0] == 0) && (bits[1] == 1));
            assert_eq!(&last[0], gc.wire_keys[&4].key_for(nand));
        }
    }
}

#[test]
fn partition_without_gates_verifies_trivially() {
    let circuit = Circuit {
        depth: 1,
        width: 1,
        gates: vec![],
        input_wires: vec![0],
        output_wires: vec![],
    };
    let gc = garbled(&circuit);
    let parts = PartitionedGCScheme::partition_garbled_circuit(&gc, 3).unwrap();
    assert_eq!(parts.len(), 0);
    let results = PartitionedGCScheme::run_protocol_iterations(&parts, &vec![]);
    assert!(PartitionedGCScheme::aggregate_verification(&results));
    let empty = GarbledCircuit {
        garbled_gates: vec![],
        wire_keys: std::collections::HashMap::new(),
        input_wires: vec![],
        output_wires: vec![],
    };
    let result = evaluate(&empty, &vec![], &vec![], &vec![]);
    assert!(result.verified);
    assert_eq!(result.output_keys, Some(vec![]));
}
