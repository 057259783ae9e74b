use volar_ir::circuit::VCircuit;
use volar_ir::common::{Constant, Node, StorageId, Type, TypeTable};
use volar_ir::gadget::PortKind;
use volar_ir::ir::{
    IRBlock, IRBlockId, IRBlockTargetId, IRBlocks, IRBranchTarget, IRStmt, IRTerminator, IRType,
    IRTypeId, IRTypes, IRVarId, PolyCoeffs,
};
use volar_ir::region::{RegionId, RegionNames, RegionSelector, RegionSet};
use volar_ir::typed_gadget::{
    validate_typed_gadget, TypedGadgetError, TypedGadgetLibrary, TypedGadgetSpec, TypedPort,
};
use volar_ir::typed_region::{
    typed_bit_width, vcircuit_var_widths, TypedAnchor, TypedBoundaryWire, TypedRegionEntry,
    TypedRegionError, TypedRegionTable,
};

fn types() -> IRTypes {
    let mut t = TypeTable::new();
    let bit = t.intern(IRType::Primitive(Type::Bit));
    let w8 = t.intern(IRType::Primitive(Type::_8));
    let w32 = t.intern(IRType::Primitive(Type::_32));
    let _ = (bit, w8, w32);
    t
}

fn ty_of(types: &mut IRTypes, ty: IRType) -> IRTypeId {
    types.intern(ty)
}

fn input_entry(param: u32, start: u16, len: u16, regions: &[u32]) -> TypedRegionEntry {
    TypedRegionEntry {
        anchor: TypedAnchor::Input { param, start, len },
        regions: RegionSet::from_ids(&regions.iter().map(|r| RegionId(*r)).collect::<Vec<RegionId>>()),
    }
}

#[test]
fn structure_rejects_overlap_and_unsorted() {
    let table = TypedRegionTable {
        entries: vec![
            input_entry(0, 0, 4, &[1]),
            input_entry(0, 2, 2, &[2]), // overlaps the first
        ],
        names: RegionNames::new(),
    };
    assert!(matches!(
        table.validate_structure(),
        Err(TypedRegionError::OverlappingEntries { .. })
    ));

    let table = TypedRegionTable {
        entries: vec![
            input_entry(1, 0, 4, &[1]),
            input_entry(0, 0, 4, &[2]), // out of order
        ],
        names: RegionNames::new(),
    };
    assert!(matches!(
        table.validate_structure(),
        Err(TypedRegionError::Unsorted)
    ));
}

#[test]
fn structure_allows_same_bits_in_different_carriers() {
    let table = TypedRegionTable {
        entries: vec![
            input_entry(0, 0, 4, &[1]),
            TypedRegionEntry {
                anchor: TypedAnchor::BlockInput {
                    block: IRBlockId(0),
                    param: 0,
                    start: 0,
                    len: 4,
                },
                regions: RegionSet::from_ids(&[RegionId(2)]),
            },
        ],
        names: RegionNames::new(),
    };
    assert!(table.validate_structure().is_ok());
}

fn const_circuit(types: &IRTypes, w8: IRTypeId) -> VCircuit {
    let mut vc = VCircuit::new(vec![w8, w8]);
    // out = const 0x5a (8 bits)
    let c = Constant { hi: 0, lo: 0x5a };
    let _ = vc.push_stmt(IRStmt::Const(c, w8), ());
    vc.outputs = vec![IRVarId(0), IRVarId(2)];
    let _ = types;
    vc
}

#[test]
fn vcircuit_validation_bounds() {
    let mut types = types();
    let w8 = ty_of(&mut types, IRType::Primitive(Type::_8));
    let host = const_circuit(&types, w8);

    let ok = TypedRegionTable {
        entries: vec![
            input_entry(0, 2, 3, &[1]),
            TypedRegionEntry {
                anchor: TypedAnchor::Output {
                    out: 1,
                    start: 0,
                    len: 8,
                },
                regions: RegionSet::from_ids(&[RegionId(3)]),
            },
        ],
        names: RegionNames::new(),
    };
    assert_eq!(ok.validate_vcircuit(&host, &types), Ok(()));

    let oob = TypedRegionTable {
        entries: vec![input_entry(0, 6, 4, &[1])],
        names: RegionNames::new(),
    };
    assert!(matches!(
        oob.validate_vcircuit(&host, &types),
        Err(TypedRegionError::RangeOutOfRange { width: 8, .. })
    ));

    let bad_out = TypedRegionTable {
        entries: vec![TypedRegionEntry {
            anchor: TypedAnchor::Output {
                out: 5,
                start: 0,
                len: 1,
            },
            regions: RegionSet::from_ids(&[RegionId(1)]),
        }],
        names: RegionNames::new(),
    };
    assert!(matches!(
        bad_out.validate_vcircuit(&host, &types),
        Err(TypedRegionError::UnknownCarrier { .. })
    ));
}

#[test]
fn vcircuit_rejects_block_anchors() {
    let mut types = types();
    let w8 = ty_of(&mut types, IRType::Primitive(Type::_8));
    let host = const_circuit(&types, w8);
    let table = TypedRegionTable {
        entries: vec![TypedRegionEntry {
            anchor: TypedAnchor::BlockInput {
                block: IRBlockId(0),
                param: 0,
                start: 0,
                len: 1,
            },
            regions: RegionSet::from_ids(&[RegionId(1)]),
        }],
        names: RegionNames::new(),
    };
    assert!(matches!(
        table.validate_vcircuit(&host, &types),
        Err(TypedRegionError::UnsupportedAnchor { host: "VCircuit", .. })
    ));
}

fn irblocks_with_storage(_types: &IRTypes, w8: IRTypeId) -> IRBlocks {
    let s = StorageId(7);
    let mut b0 = IRBlock {
        params: vec![w8],
        stmts: vec![],
        terminator: IRTerminator::Jmp {
            target: IRBranchTarget {
                dest: IRBlockTargetId::Return,
                args: vec![],
                reentry: None,
            },
        },
    };
    b0.stmts.push(Node {
        kind: IRStmt::StorageWrite {
            storage: s,
            src: IRVarId(0),
            ty: w8,
            addr: IRVarId(0),
        },
        prov: (),
        side: None,
    });
    IRBlocks {
        oracles: vec![],
        actions: vec![],
        rngs: vec![],
        blocks: vec![b0],
        pre_init: vec![],
    }
}

#[test]
fn irblocks_storage_and_block_anchors() {
    let mut types = types();
    let w8 = ty_of(&mut types, IRType::Primitive(Type::_8));
    let host = irblocks_with_storage(&types, w8);

    let ok = TypedRegionTable {
        entries: vec![
            input_entry(0, 0, 8, &[1]),
            TypedRegionEntry {
                anchor: TypedAnchor::BlockInput {
                    block: IRBlockId(0),
                    param: 0,
                    start: 0,
                    len: 8,
                },
                regions: RegionSet::from_ids(&[RegionId(2)]),
            },
            TypedRegionEntry {
                anchor: TypedAnchor::Storage {
                    storage: StorageId(7),
                    ty: w8,
                    addr_start: 0,
                    addr_len: 4,
                },
                regions: RegionSet::from_ids(&[RegionId(3)]),
            },
        ],
        names: RegionNames::new(),
    };
    assert_eq!(ok.validate_irblocks(&host, &types), Ok(()));

    let unknown = TypedRegionTable {
        entries: vec![TypedRegionEntry {
            anchor: TypedAnchor::Storage {
                storage: StorageId(9),
                ty: w8,
                addr_start: 0,
                addr_len: 1,
            },
            regions: RegionSet::from_ids(&[RegionId(3)]),
        }],
        names: RegionNames::new(),
    };
    assert!(matches!(
        unknown.validate_irblocks(&host, &types),
        Err(TypedRegionError::UnknownStorageSpace { .. })
    ));
}

#[test]
fn irblocks_rejects_output_anchors() {
    let mut types = types();
    let w8 = ty_of(&mut types, IRType::Primitive(Type::_8));
    let host = irblocks_with_storage(&types, w8);
    let table = TypedRegionTable {
        entries: vec![TypedRegionEntry {
            anchor: TypedAnchor::Output {
                out: 0,
                start: 0,
                len: 1,
            },
            regions: RegionSet::from_ids(&[RegionId(1)]),
        }],
        names: RegionNames::new(),
    };
    assert!(matches!(
        table.validate_irblocks(&host, &types),
        Err(TypedRegionError::UnsupportedAnchor { host: "IRBlocks", .. })
    ));
}

fn xor_body(types: &IRTypes, w8: IRTypeId) -> VCircuit {
    let _ = types;
    let mut vc = VCircuit::new(vec![w8, w8]);
    let mut coeffs = PolyCoeffs::new();
    coeffs.insert(vec![IRVarId(0), IRVarId(1)], 1);
    let out = vc.push_stmt(
        IRStmt::Poly {
            ty: w8,
            coeffs,
            constant: Constant { hi: 0, lo: 0 },
        },
        (),
    );
    vc.outputs = vec![out];
    vc
}

#[test]
fn typed_gadget_validates() {
    let mut types = types();
    let w8 = ty_of(&mut types, IRType::Primitive(Type::_8));
    let spec = TypedGadgetSpec {
        name: "pad8".to_string(),
        ports: vec![
            TypedPort {
                name: "data".to_string(),
                kind: PortKind::Data,
                ty: w8,
                count: 1,
            },
            TypedPort {
                name: "key".to_string(),
                kind: PortKind::Aux,
                ty: w8,
                count: 1,
            },
        ],
        encrypt: xor_body(&types, w8),
        decrypt: None,
    };
    assert_eq!(validate_typed_gadget(&spec, &types), Ok(()));
    assert_eq!(spec.data_bit_width(&types), Some(8));
    assert_eq!(spec.aux_bit_widths(&types), vec![("key".to_string(), 8)]);
}

#[test]
fn typed_gadget_rejects_impure_body_and_bad_shape() {
    let mut types = types();
    let w8 = ty_of(&mut types, IRType::Primitive(Type::_8));

    // Impure: storage read in the body.
    let mut bad = VCircuit::new(vec![w8, w8]);
    let r = bad.push_stmt(
        IRStmt::StorageRead {
            storage: StorageId(0),
            ty: w8,
            addr: IRVarId(0),
        },
        (),
    );
    bad.outputs = vec![r];
    let spec = TypedGadgetSpec {
        name: "bad".to_string(),
        ports: vec![TypedPort {
            name: "data".to_string(),
            kind: PortKind::Data,
            ty: w8,
            count: 1,
        }],
        encrypt: bad,
        decrypt: None,
    };
    assert!(matches!(
        validate_typed_gadget(&spec, &types),
        Err(TypedGadgetError::UnsupportedBodyStmt { stmt: "StorageRead", .. })
    ));

    // Wrong param shape: body takes one word too many.
    let body = xor_body(&types, w8); // 2 params, but only 1 port word
    let spec = TypedGadgetSpec {
        name: "shape".to_string(),
        ports: vec![TypedPort {
            name: "data".to_string(),
            kind: PortKind::Data,
            ty: w8,
            count: 1,
        }],
        encrypt: body,
        decrypt: None,
    };
    assert!(matches!(
        validate_typed_gadget(&spec, &types),
        Err(TypedGadgetError::BodyParamMismatch { .. })
    ));
}

#[test]
fn select_expands_typed_bits_and_planes() {
    let mut types = types();
    let w8 = ty_of(&mut types, IRType::Primitive(Type::_8));
    let table = TypedRegionTable {
        entries: vec![
            input_entry(2, 1, 2, &[5]),
            TypedRegionEntry {
                anchor: TypedAnchor::Storage {
                    storage: StorageId(1),
                    ty: w8,
                    addr_start: 3,
                    addr_len: 2,
                },
                regions: RegionSet::from_ids(&[RegionId(6)]),
            },
        ],
        names: RegionNames::new(),
    };
    let sel = RegionSelector::all_of(&[RegionId(6)]);
    let wires = table.select(&sel, |ty: IRTypeId| typed_bit_width(ty, &types));
    assert_eq!(wires.len(), 2 * 8); // 2 addresses × 8 planes
    assert!(matches!(
        wires[0],
        TypedBoundaryWire::Cell { plane: 0, addr: 3, .. }
    ));
    assert!(matches!(
        wires[1],
        TypedBoundaryWire::Cell { plane: 0, addr: 4, .. }
    ));
    assert!(matches!(
        wires[2],
        TypedBoundaryWire::Cell { plane: 1, addr: 3, .. }
    ));
}

#[test]
fn structure_rejects_empty_anchors_and_regions() {
    let table = TypedRegionTable {
        entries: vec![input_entry(0, 0, 0, &[1])],
        names: RegionNames::new(),
    };
    assert!(matches!(
        table.validate_structure(),
        Err(TypedRegionError::EmptyAnchor(_))
    ));
    let table = TypedRegionTable {
        entries: vec![input_entry(0, 0, 1, &[])],
        names: RegionNames::new(),
    };
    assert!(matches!(
        table.validate_structure(),
        Err(TypedRegionError::EmptyRegions(_))
    ));
}

#[test]
fn widths_of_types() {
    let mut t = types();
    let w8 = ty_of(&mut t, IRType::Primitive(Type::_8));
    let v = ty_of(&mut t, IRType::Vec(3, w8));
    let both = ty_of(&mut t, IRType::Tuple(vec![w8, v]));
    assert_eq!(typed_bit_width(w8, &t), Some(8));
    assert_eq!(typed_bit_width(v, &t), Some(24));
    assert_eq!(typed_bit_width(both, &t), Some(32));
    let f = ty_of(&mut t, IRType::Block { params: vec![w8] });
    assert_eq!(typed_bit_width(f, &t), Some(0));
    let z = ty_of(&mut t, IRType::Primitive(Type::Z3));
    assert_eq!(typed_bit_width(z, &t), None);
}

#[test]
fn variables_of_a_circuit_have_widths() {
    let mut t = types();
    let w8 = ty_of(&mut t, IRType::Primitive(Type::_8));
    let widths = vcircuit_var_widths(&const_circuit(&t, w8), &t);
    assert_eq!(widths.get(&0), Some(&8));
    assert_eq!(widths.get(&2), Some(&8));
    assert_eq!(widths.get(&3), None);
}

#[test]
fn libraries_find_the_first_gadget_with_a_name() {
    let spec = |name: &str, ports: usize| TypedGadgetSpec {
        name: name.to_string(),
        ports: (0..ports)
            .map(|_| TypedPort {
                name: String::new(),
                kind: PortKind::Aux,
                ty: IRTypeId(0),
                count: 1,
            })
            .collect(),
        encrypt: VCircuit::new(vec![]),
        decrypt: None,
    };
    let lib = TypedGadgetLibrary::new()
        .with(spec("a", 1))
        .with(spec("b", 2))
        .with(spec("b", 3));
    assert_eq!(lib.get("b").unwrap().ports.len(), 2);
    assert!(lib.get("c").is_none());
}
