use partitioned_gc::circuit::{Circuit, Gate, GateType};
use partitioned_gc::errors::GcError;
use partitioned_gc::garble::{
    garble, garble_gate, open_row, permute_bit_of, row_pad_of, seal_row, GarbledGate,
};
use partitioned_gc::keys::{keys_from_entropy, WireKeys};
use partitioned_gc::scheme::PartitionedGCScheme;
use sha2::{Digest, Sha256};

fn blocks(n: usize) -> Vec<Vec<u8>> {
    (0..n).map(|w| Sha256::digest(&[w as u8, 0x17]).to_vec()).collect()
}

fn gate(gate_type: GateType, left_wire: usize, right_wire: usize, output_wire: usize) -> Gate {
    Gate { gate_type, left_wire, right_wire, output_wire }
}

fn pad(left: &[u8], right: &[u8], output_wire: usize) -> Vec<u8> {
    let mut input = left.to_vec();
    input.extend_from_slice(right);
    input.extend_from_slice(&(output_wire as u64).to_be_bytes());
    Sha256::digest(&input).to_vec()
}

fn sealed(pad: &[u8], key: &[u8]) -> Vec<u8> {
    let mut row: Vec<u8> = key.iter().zip(pad.iter()).map(|(k, p)| k ^ p).collect();
    row.extend_from_slice(&pad[16..]);
    row
}

#[test]
fn pad_is_digest_of_keys_and_wire_number() {
    let left = [1u8; 16];
    let right = [2u8; 16];
    assert_eq!(row_pad_of(&left, &right, 0x0102_0304), pad(&left, &right, 0x0102_0304));
    assert_eq!(row_pad_of(&left, &[], 9), pad(&left, &[], 9));
    assert_ne!(row_pad_of(&left, &right, 1), row_pad_of(&left, &right, 2));
}

#[test]
fn sealed_row_opens_under_its_pad_only() {
    let p = pad(&[1u8; 16], &[2u8; 16], 3);
    let key = [0xabu8; 16];
    let row = seal_row(&p, &key);
    assert_eq!(row, sealed(&p, &key));
    assert_eq!(row.len(), 32);
    assert_eq!(open_row(&p, &row), Some(key.to_vec()));
    let other = pad(&[1u8; 16], &[2u8; 16], 4);
    assert_eq!(open_row(&other, &row), None);
    assert_eq!(open_row(&p, &row[..31]), None);
    let mut bent = row.clone();
    bent[20] ^= 1;
    assert_eq!(open_row(&p, &bent), None);
}

#[test]
fn permute_bit_is_lowest_bit_of_last_byte() {
    assert!(permute_bit_of(&[0, 0, 1]));
    assert!(!permute_bit_of(&[1, 1, 2]));
    assert!(!permute_bit_of(&[]));
}

fn check_table(g: &Gate, garbled: &GarbledGate, l: &WireKeys, r: &WireKeys, o: &WireKeys) {
    assert_eq!(garbled.left_wire, g.left_wire);
    assert_eq!(garbled.right_wire, g.right_wire);
    assert_eq!(garbled.output_wire, g.output_wire);
    if g.gate_type.unary() {
        assert_eq!(garbled.ciphertexts.len(), 2);
        for a in [false, true] {
            let row = (l.key_for(a)[15] & 1) as usize;
            let p = pad(l.key_for(a), &[], g.output_wire);
            let out = g.gate_type.apply(a, false);
            assert_eq!(garbled.ciphertexts[row], sealed(&p, o.key_for(out)));
        }
    } else {
        assert_eq!(garbled.ciphertexts.len(), 4);
        for a in [false, true] {
            for b in [false, true] {
                let row = 2 * (l.key_for(a)[15] & 1) as usize + (r.key_for(b)[15] & 1) as usize;
                let p = pad(l.key_for(a), r.key_for(b), g.output_wire);
                let out = g.gate_type.apply(a, b);
                assert_eq!(garbled.ciphertexts[row], sealed(&p, o.key_for(out)));
                assert_eq!(open_row(&p, &garbled.ciphertexts[row]), Some(o.key_for(out).clone()));
            }
        }
    }
    assert!(garbled.is_unambiguous());
}

#[test]
fn every_row_holds_the_output_key_of_its_inputs() {
    let table = keys_from_entropy(&blocks(3)).unwrap();
    for gate_type in [GateType::And, GateType::Or, GateType::Xor, GateType::Not] {
        let g = gate(gate_type, 0, 1, 2);
        let garbled = garble_gate(&g, &table[&0], &table[&1], &table[&2]);
        check_table(&g, &garbled, &table[&0], &table[&1], &table[&2]);
    }
}

#[test]
fn rows_follow_permute_bits_not_truth_table_order() {
    // two tables of the same gate whose left keys carry opposite permute bits
    let o = WireKeys { key0: vec![3; 16], key1: vec![4; 16] };
    let r = WireKeys { key0: vec![6; 16], key1: vec![7; 16] };
    let l = WireKeys { key0: vec![8; 16], key1: vec![9; 16] };
    let swapped = WireKeys { key0: vec![9; 16], key1: vec![8; 16] };
    let g = gate(GateType::And, 0, 1, 2);
    let t1 = garble_gate(&g, &l, &r, &o);
    let t2 = garble_gate(&g, &swapped, &r, &o);
    check_table(&g, &t1, &l, &r, &o);
    check_table(&g, &t2, &swapped, &r, &o);
    assert_ne!(t1.ciphertexts, t2.ciphertexts);
}

#[test]
fn garbling_keeps_order_keys_and_declared_wires() {
    let circuit = Circuit {
        depth: 3,
        width: 2,
        gates: vec![
            gate(GateType::And, 0, 1, 4),
            gate(GateType::Not, 2, 0, 5),
            gate(GateType::Xor, 4, 5, 6),
        ],
        input_wires: vec![0, 1, 2],
        output_wires: vec![6],
    };
    let table = keys_from_entropy(&blocks(7)).unwrap();
    let gc = garble(&circuit, keys_from_entropy(&blocks(7)).unwrap()).unwrap();
    assert_eq!(gc.garbled_gates.len(), 3);
    assert_eq!(gc.input_wires, vec![0, 1, 2]);
    assert_eq!(gc.output_wires, vec![6]);
    assert_eq!(gc.wire_keys.len(), 7);
    for (i, g) in circuit.gates.iter().enumerate() {
        check_table(
            g,
            &gc.garbled_gates[i],
            &table[&g.left_wire],
            &table[&g.right_wire],
            &table[&g.output_wire],
        );
        assert_eq!(gc.wire_keys[&g.output_wire].key0, table[&g.output_wire].key0);
    }
    let again = PartitionedGCScheme::garble_with_entropy(&circuit, &blocks(7)).unwrap();
    for i in 0..3 {
        assert_eq!(again.garbled_gates[i].ciphertexts, gc.garbled_gates[i].ciphertexts);
    }
}

#[test]
fn gate_on_a_wire_without_keys_is_unassigned() {
    let circuit = Circuit {
        depth: 1,
        width: 1,
        gates: vec![gate(GateType::And, 0, 1, 2), gate(GateType::And, 0, 1, 9)],
        input_wires: vec![0, 1],
        output_wires: vec![9],
    };
    let table = keys_from_entropy(&blocks(3)).unwrap();
    assert_eq!(garble(&circuit, table).err(), Some(GcError::UnassignedWire));
    assert_eq!(
        PartitionedGCScheme::garble_with_entropy(&circuit, &blocks(9)).err(),
        Some(GcError::UnassignedWire)
    );
    assert!(PartitionedGCScheme::garble_with_entropy(&circuit, &blocks(10)).is_ok());
}

#[test]
fn gate_on_a_malformed_pair_is_unassigned() {
    let circuit = Circuit {
        depth: 1,
        width: 1,
        gates: vec![gate(GateType::Not, 0, 0, 1)],
        input_wires: vec![0],
        output_wires: vec![1],
    };
    let mut table = keys_from_entropy(&blocks(2)).unwrap();
    table.insert(1, WireKeys { key0: vec![0; 16], key1: vec![2; 16] });
    assert_eq!(garble(&circuit, table).err(), Some(GcError::UnassignedWire));
    let mut table = keys_from_entropy(&blocks(2)).unwrap();
    table.insert(0, WireKeys { key0: vec![0; 8], key1: vec![1; 8] });
    assert_eq!(garble(&circuit, table).err(), Some(GcError::UnassignedWire));
}

#[test]
fn not_gate_does_not_need_keys_for_its_right_wire() {
    let circuit = Circuit {
        depth: 1,
        width: 1,
        gates: vec![gate(GateType::Not, 0, 77, 1)],
        input_wires: vec![0],
        output_wires: vec![1],
    };
    let gc = garble(&circuit, keys_from_entropy(&blocks(2)).unwrap()).unwrap();
    assert_eq!(gc.garbled_gates[0].ciphertexts.len(), 2);
}

#[test]
fn bad_entropy_is_reported_before_unassigned_wires() {
    let circuit = Circuit {
        depth: 1,
        width: 1,
        gates: vec![gate(GateType::And, 0, 1, 9)],
        input_wires: vec![0, 1],
        output_wires: vec![9],
    };
    let mut b = blocks(3);
    b[2] = b[0].clone();
    assert_eq!(
        PartitionedGCScheme::garble_with_entropy(&circuit, &b).err(),
        Some(GcError::InsufficientEntropy)
    );
}

#[test]
fn table_with_repeated_tag_is_ambiguous() {
    let row = vec![5u8; 32];
    let mut other = vec![6u8; 32];
    let g = GarbledGate {
        ciphertexts: vec![row.clone(), other.clone()],
        left_wire: 0,
        right_wire: 0,
        output_wire: 1,
    };
    assert!(g.is_unambiguous());
    for i in 16..32 {
        other[i] = 5;
    }
    let g = GarbledGate {
        ciphertexts: vec![row.clone(), other],
        left_wire: 0,
        right_wire: 0,
        output_wire: 1,
    };
    assert!(!g.is_unambiguous());
    let g = GarbledGate {
        ciphertexts: vec![row, vec![1u8; 31]],
        left_wire: 0,
        right_wire: 0,
        output_wire: 1,
    };
    assert!(!g.is_unambiguous());
}
