use volar_ir::boolar::LaneId;
use volar_ir::common::StorageId;
use volar_ir::rcircuit::{
    ExternalSource, RCircuit, RCircuitError, RExternalKind, RGate, ReversibleExternalRegistry, StorageState,
};

#[test]
fn validates_gate_indices() {
    assert_eq!(
        RCircuit::new(2, vec![RGate::X(2)]).unwrap_err(),
        RCircuitError::IndexOutOfRange { gate: 0, wire: 2 }
    );
    assert_eq!(
        RCircuit::new(2, vec![RGate::Cnot { ctrl: 0, target: 0 }]).unwrap_err(),
        RCircuitError::TargetAliased { gate: 0, wire: 0 }
    );
    assert_eq!(
        RCircuit::new(
            2,
            vec![RGate::Ccnot {
                c1: 0,
                c2: 1,
                target: 1
            }]
        )
        .unwrap_err(),
        RCircuitError::TargetAliased { gate: 0, wire: 1 }
    );
    assert_eq!(
        RCircuit::new(
            2,
            vec![RGate::StorageSwap {
                storage: StorageId(0),
                lane: LaneId(0),
                addr: vec![0],
                target: 0
            }]
        )
        .unwrap_err(),
        RCircuitError::TargetAliased { gate: 0, wire: 0 }
    );
    assert!(
        RCircuit::new(
            3,
            vec![RGate::Ccnot {
                c1: 0,
                c2: 1,
                target: 2
            }]
        )
        .is_ok()
    );
    assert_eq!(
        RCircuit::new(
            3,
            vec![RGate::XorLut2 {
                controls: [0, 1],
                target: 1,
                table: 0x1
            }],
        )
        .unwrap_err(),
        RCircuitError::TargetAliased { gate: 0, wire: 1 }
    );
    assert_eq!(
        RCircuit::new(
            3,
            vec![RGate::XorLut2 {
                controls: [0, 0],
                target: 2,
                table: 0x1
            }],
        )
        .unwrap_err(),
        RCircuitError::ControlAliased { gate: 0, wire: 0 }
    );
    assert_eq!(
        RCircuit::new(
            3,
            vec![RGate::XorLut2 {
                controls: [0, 1],
                target: 2,
                table: 0x10
            }],
        )
        .unwrap_err(),
        RCircuitError::InvalidTruthTable {
            gate: 0,
            table: 0x10
        }
    );
}

#[test]
fn x_cnot_toffoli_semantics() {
    let c = RCircuit::new(
        3,
        vec![
            RGate::X(0),
            RGate::Cnot { ctrl: 0, target: 2 },
            RGate::Ccnot {
                c1: 0,
                c2: 1,
                target: 2,
            },
        ],
    )
    .unwrap();
    // [1,1,0] -X(0)-> [0,1,0] -cnot(0->2)-> [0,1,0] -ccnot(0,1->2)-> [0,1,0]
    let mut wires = vec![true, true, false];
    c.apply_pure(&mut wires).unwrap();
    assert_eq!(wires, vec![false, true, false]);
    // inverse undoes it exactly:
    let inv = c.inverse();
    inv.apply_pure(&mut wires).unwrap();
    assert_eq!(wires, vec![true, true, false]);
}

#[test]
fn xor_lut2_exhaustive_semantics_and_inverse() {
    for table in 0u8..16 {
        let c = RCircuit::new(
            3,
            vec![RGate::XorLut2 {
                controls: [0, 1],
                target: 2,
                table,
            }],
        )
        .unwrap();
        for input in 0u8..8 {
            let a = input & 0b100 != 0;
            let b = input & 0b010 != 0;
            let target = input & 0b001 != 0;
            let lut_input = ((a as u8) << 1) | b as u8;
            let expected = target ^ ((table >> (3 - lut_input)) & 1 == 1);
            let mut wires = vec![a, b, target];

            c.apply_pure(&mut wires).unwrap();
            assert_eq!(
                wires,
                vec![a, b, expected],
                "table={}, input={}", table, input
            );
            c.inverse().apply_pure(&mut wires).unwrap();
            assert_eq!(wires, vec![a, b, target]);
        }
    }
}

#[test]
fn storage_swap_is_involution_and_exchanges() {
    let sid = StorageId(0);
    let c = RCircuit::new(
        3,
        vec![RGate::StorageSwap {
            storage: sid,
            lane: LaneId(0),
            addr: vec![0, 1],
            target: 2,
        }],
    )
    .unwrap();
    // LSB-first address over wires [0, 1]: wires[1]=1 selects cell 2.
    let mut wires = vec![false, true, false]; // target wire starts 0
    let mut storage = StorageState::new();
    storage.insert(((sid, LaneId(0)), 2), true); // cell 2 holds 1
    c.apply(&mut wires, &mut storage);
    // Wire picked up the stored bit; the cell now holds the old wire bit.
    assert_eq!(wires[2], true);
    assert_eq!(storage.get(&((sid, LaneId(0)), 2)), Some(false));
    // Applying again restores both (involution).
    c.apply(&mut wires, &mut storage);
    assert_eq!(wires[2], false);
    assert_eq!(storage.get(&((sid, LaneId(0)), 2)), Some(true));
    // apply_pure rejects storage-using circuits.
    assert_eq!(
        c.apply_pure(&mut vec![false; 3]).unwrap_err(),
        RCircuitError::StorageOpsUnsupported
    );
}

#[test]
fn then_requires_matching_wire_counts() {
    let a = RCircuit::empty(2);
    let b = RCircuit::empty(3);
    assert_eq!(
        a.then(&b).unwrap_err(),
        RCircuitError::WireCountMismatch { lhs: 2, rhs: 3 }
    );
}

struct Parity;

impl ReversibleExternalRegistry for Parity {
    fn source(&self) -> ExternalSource {
        unreachable!()
    }

    fn oracle_bit(&mut self, _name: &str, args: &[bool], bit: usize, occurrence: u64) -> bool {
        let ones = args.iter().filter(|a| **a).count();
        (ones + bit + occurrence as usize) % 2 == 1
    }

    fn rng_bit(&mut self, name: &str, bit: usize, _occurrence: u64) -> bool {
        (name.len() + bit) % 2 == 1
    }

    fn action_bit(&mut self, _name: &str, args: &[bool], _bit: usize, _occurrence: u64) -> bool {
        args.iter().all(|a| *a)
    }
}

#[test]
fn external_gates_undo_themselves() {
    let c = RCircuit::new(
        3,
        vec![
            RGate::ExternalXor {
                kind: RExternalKind::Oracle,
                name: "parity".to_string(),
                args: vec![0, 1],
                target: 2,
                bit: 0,
                occurrence: 0,
            },
            RGate::ExternalXor {
                kind: RExternalKind::Rng,
                name: "abc".to_string(),
                args: vec![],
                target: 0,
                bit: 0,
                occurrence: 0,
            },
            RGate::ExternalStorageXor {
                name: "and".to_string(),
                guard: 0,
                args: vec![1],
                fallback: 2,
                storage: StorageId(4),
                lane: LaneId(1),
                addr: vec![1],
                bit: 0,
                occurrence: 0,
            },
        ],
    )
    .unwrap();
    let mut wires = vec![false, true, false];
    let mut storage = StorageState::new();
    c.apply_with_externals(&mut wires, &mut storage, &mut Parity);
    assert_eq!(wires, vec![true, true, true]);
    assert_eq!(storage.get(&((StorageId(4), LaneId(1)), 1)), Some(true));
    c.inverse().apply_with_externals(&mut wires, &mut storage, &mut Parity);
    assert_eq!(wires, vec![false, true, false]);
    assert!(storage.get(&((StorageId(4), LaneId(1)), 1)) != Some(true));
    assert_eq!(
        c.apply_pure(&mut wires).unwrap_err(),
        RCircuitError::ExternalOpsUnsupported
    );
}

#[test]
fn a_circuit_and_its_inverse_cancel() {
    let c = RCircuit::new(
        3,
        vec![
            RGate::Cnot { ctrl: 0, target: 1 },
            RGate::XorLut2 {
                controls: [0, 2],
                target: 1,
                table: 0b0110,
            },
            RGate::Ccnot {
                c1: 1,
                c2: 2,
                target: 0,
            },
        ],
    )
    .unwrap();
    let both = c.then(&c.inverse()).unwrap();
    for n in 0..8u8 {
        let start: Vec<bool> = (0..3).map(|k| n >> k & 1 == 1).collect();
        let mut wires = start.clone();
        both.apply_pure(&mut wires).unwrap();
        assert_eq!(wires, start);
    }
}

#[test]
fn circuit_errors_have_messages() {
    let e = RCircuit::new(2, vec![RGate::X(2)]).unwrap_err();
    assert!(e.message().contains('2'));
}

#[test]
fn refused_circuits_leave_any_wires_as_they_are() {
    let stored = RCircuit::new(
        2,
        vec![RGate::StorageSwap {
            storage: StorageId(0),
            lane: LaneId(0),
            addr: vec![0],
            target: 1,
        }],
    )
    .unwrap();
    for n in [0, 1, 5] {
        let mut wires = vec![true; n];
        assert_eq!(
            stored.apply_pure(&mut wires),
            Err(RCircuitError::StorageOpsUnsupported)
        );
        assert_eq!(wires, vec![true; n]);
    }
}
