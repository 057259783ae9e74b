use volar_ir::boolar::{BIrBlock, BIrBlocks, BIrStmt, BIrTarget, BIrTerminator, LaneId};
use volar_ir::common::{
    ActionDecl, Constant, IrType, Node, OracleDecl, RngDecl, StorageId, Type, TypeId, TypeTable,
};
use volar_ir::gadget::{AuxSource, GadgetBinding};
use volar_ir::ir::{
    IRBlock, IRBlockId, IRBlockTargetId, IRBlocks, IRBranchTarget, IRTerminator, IRVarId,
    PolyCoeffs, Stmt,
};
use volar_ir::region::{
    RegionEntry, RegionId, RegionNames, RegionSelector, RegionSet, RegionTable, WireAnchor,
};
use volar_ir::text::bir::SavedBIrBlocks;
use volar_ir::text::error::ParseError;
use volar_ir::text::ir::SavedIrBlocks;
use volar_ir::text::lexer::Lexer;
use volar_ir::text::regions::{parse_with_regions, write_gadget_bindings};
use volar_ir::text::traits::{ParseText, WriteText};

fn ty(n: u32) -> TypeId {
    TypeId(n)
}
fn v(n: u32) -> IRVarId {
    IRVarId(n)
}
fn storage(n: u32) -> StorageId {
    StorageId(n)
}
fn c(hi: u128, lo: u128) -> Constant {
    Constant { hi, lo }
}
fn block_id(n: u32) -> IRBlockId {
    IRBlockId(n)
}
fn node<T>(kind: T) -> Node<T, ()> {
    Node::new(kind, (), None)
}

fn simple_ir_module() -> SavedIrBlocks {
    // Type table: 0=bit, 1=u8, 2=vec(4,u8)
    let types = TypeTable(vec![
        IrType::Primitive(Type::Bit),
        IrType::Primitive(Type::_8),
        IrType::Vec(4, ty(1)),
        IrType::Tuple(vec![ty(0), ty(1)]),
        IrType::Block {
            params: vec![ty(0)],
        },
        IrType::Func {
            params: vec![ty(0), ty(1)],
            results: vec![ty(1)],
        },
    ]);

    // One block: param v0:bit, v1 = const 0:255 ty=1, jmp return args=[v1]
    let block = IRBlock {
        params: vec![ty(0)],
        stmts: vec![node(Stmt::Const(c(0, 255), ty(1)))],
        terminator: IRTerminator::Jmp {
            target: IRBranchTarget::new(IRBlockTargetId::Return, vec![v(1)]),
        },
    };

    SavedIrBlocks {
        types,
        blocks: IRBlocks {
            oracles: vec![],
            actions: vec![],
            rngs: vec![],
            pre_init: vec![],
            blocks: vec![block],
        },
    }
}

fn round_trip_ir(m: SavedIrBlocks) {
    let text = m.to_text_string();
    let parsed =
        SavedIrBlocks::parse_text(&text).expect("parse failed");
    let text2 = parsed.to_text_string();
    assert_eq!(text, text2, "IR round-trip text mismatch");
}

fn round_trip_bir(m: SavedBIrBlocks) {
    let text = m.to_text_string();
    let parsed =
        SavedBIrBlocks::parse_text(&text).expect("parse failed");
    let text2 = parsed.to_text_string();
    assert_eq!(text, text2, "BIR round-trip text mismatch");
}


#[test]
fn ir_type_table() {
    let types = TypeTable(vec![
        IrType::Primitive(Type::Bit),
        IrType::Primitive(Type::_8),
        IrType::Primitive(Type::_16),
        IrType::Primitive(Type::_32),
        IrType::Primitive(Type::_64),
        IrType::Primitive(Type::_128),
        IrType::Primitive(Type::_256),
        IrType::Primitive(Type::AES8),
        IrType::Primitive(Type::Galois64),
        IrType::Vec(8, ty(0)),
        IrType::Tuple(vec![ty(0), ty(1)]),
        IrType::Block {
            params: vec![ty(0), ty(1)],
        },
        IrType::Func {
            params: vec![ty(0)],
            results: vec![ty(1)],
        },
    ]);
    let m = SavedIrBlocks {
        types,
        blocks: IRBlocks {
            oracles: vec![],
            actions: vec![],
            rngs: vec![],
            pre_init: vec![],
            blocks: vec![IRBlock {
                params: vec![],
                stmts: vec![],
                terminator: IRTerminator::Jmp {
                    target: IRBranchTarget::new(IRBlockTargetId::Return, vec![]),
                },
            }],
        },
    };
    round_trip_ir(m);
}

#[test]
fn ir_simple_round_trip() {
    round_trip_ir(simple_ir_module());
}

#[test]
fn ir_decls() {
    let types = TypeTable(vec![
        IrType::Primitive(Type::Bit),
        IrType::Primitive(Type::_8),
    ]);
    let m = SavedIrBlocks {
        types,
        blocks: IRBlocks {
            oracles: vec![OracleDecl {
                name: "my_oracle".into(),
                params: vec![ty(0)],
                results: vec![ty(1)],
            }],
            actions: vec![ActionDecl {
                name: "my_action".into(),
                params: vec![ty(1)],
                results: vec![ty(0)],
            }],
            rngs: vec![RngDecl {
                name: "my_rng".into(),
                ty: ty(0),
            }],
            pre_init: vec![],
            blocks: vec![IRBlock {
                params: vec![],
                stmts: vec![],
                terminator: IRTerminator::Jmp {
                    target: IRBranchTarget::new(IRBlockTargetId::Return, vec![]),
                },
            }],
        },
    };
    round_trip_ir(m);
}

#[test]
fn ir_stmt_storage_read_write() {
    let types = TypeTable(vec![IrType::Primitive(Type::_8)]);
    let block = IRBlock {
        params: vec![ty(0)], // v0
        stmts: vec![
            // v1 = storage_read storage=0 ty=0 addr=v0
            node(Stmt::StorageRead {
                storage: storage(0),
                ty: ty(0),
                addr: v(0),
            }),
            // v2 = storage_write storage=1 src=v1 ty=0 addr=v0
            node(Stmt::StorageWrite {
                storage: storage(1),
                src: v(1),
                ty: ty(0),
                addr: v(0),
            }),
        ],
        terminator: IRTerminator::Jmp {
            target: IRBranchTarget::new(IRBlockTargetId::Return, vec![v(1)]),
        },
    };
    round_trip_ir(SavedIrBlocks {
        types,
        blocks: IRBlocks {
            oracles: vec![],
            actions: vec![],
            rngs: vec![],
            pre_init: vec![],
            blocks: vec![block],
        },
    });
}

#[test]
fn ir_stmt_transmute() {
    let types = TypeTable(vec![
        IrType::Primitive(Type::Bit),
        IrType::Primitive(Type::_8),
    ]);
    let block = IRBlock {
        params: vec![ty(0)],
        stmts: vec![node(Stmt::Transmute {
            src: v(0),
            src_ty: ty(0),
            dst_ty: ty(1),
        })],
        terminator: IRTerminator::Jmp {
            target: IRBranchTarget::new(IRBlockTargetId::Return, vec![v(1)]),
        },
    };
    round_trip_ir(SavedIrBlocks {
        types,
        blocks: IRBlocks {
            oracles: vec![],
            actions: vec![],
            rngs: vec![],
            pre_init: vec![],
            blocks: vec![block],
        },
    });
}

#[test]
fn ir_stmt_poly() {
    let types = TypeTable(vec![IrType::Primitive(Type::Bit)]);
    let mut coeffs = PolyCoeffs::new();
    coeffs.insert(vec![v(0), v(1)], 1);
    coeffs.insert(vec![v(0)], 1);
    let block = IRBlock {
        params: vec![ty(0), ty(0)], // v0, v1
        stmts: vec![node(Stmt::Poly {
            ty: ty(0),
            coeffs,
            constant: c(0, 0),
        })],
        terminator: IRTerminator::Jmp {
            target: IRBranchTarget::new(IRBlockTargetId::Return, vec![v(2)]),
        },
    };
    round_trip_ir(SavedIrBlocks {
        types,
        blocks: IRBlocks {
            oracles: vec![],
            actions: vec![],
            rngs: vec![],
            pre_init: vec![],
            blocks: vec![block],
        },
    });
}

#[test]
fn ir_stmt_rot_merge_splat_shuffle() {
    let types = TypeTable(vec![IrType::Primitive(Type::_8)]);
    let block = IRBlock {
        params: vec![ty(0), ty(0)], // v0, v1
        stmts: vec![
            node(Stmt::Rol {
                src: v(0),
                ty: ty(0),
                n: 3,
            }), // v2
            node(Stmt::Ror {
                src: v(1),
                ty: ty(0),
                n: 2,
            }), // v3
            node(Stmt::Merge {
                parts: vec![v(0), v(1)],
                ty: ty(0),
            }), // v4
            node(Stmt::Splat {
                src: v(0),
                ty: ty(0),
            }), // v5
            node(Stmt::Shuffle {
                result_bits: vec![(0, v(0)), (1, v(1))],
                ty: ty(0),
            }), // v6
        ],
        terminator: IRTerminator::Jmp {
            target: IRBranchTarget::new(IRBlockTargetId::Return, vec![v(6)]),
        },
    };
    round_trip_ir(SavedIrBlocks {
        types,
        blocks: IRBlocks {
            oracles: vec![],
            actions: vec![],
            rngs: vec![],
            pre_init: vec![],
            blocks: vec![block],
        },
    });
}

#[test]
fn ir_stmt_oracle_action_rng() {
    let types = TypeTable(vec![
        IrType::Primitive(Type::Bit),
        IrType::Primitive(Type::_8),
    ]);
    let block = IRBlock {
        params: vec![ty(0), ty(0)], // v0, v1
        stmts: vec![
            // v2 = oracle_call "oc" args=[v0] out_tys=[0] result_ty=1
            node(Stmt::OracleCall {
                name: "oc".into(),
                args: vec![v(0)],
                output_tys: vec![ty(0)],
                result_ty: ty(1),
            }),
            // v3 = oracle_output call=v2 idx=0 ty=0
            node(Stmt::OracleOutput {
                call: v(2),
                idx: 0,
                ty: ty(0),
            }),
            // v4 = action_call "ac" guard=v0 args=[v1] fallbacks=[v0] out_tys=[0] result_ty=1
            node(Stmt::ActionCall {
                name: "ac".into(),
                guard: v(0),
                args: vec![v(1)],
                fallbacks: vec![v(0)],
                output_tys: vec![ty(0)],
                result_ty: ty(1),
            }),
            // v5 = action_output call=v4 idx=0 ty=0
            node(Stmt::ActionOutput {
                call: v(4),
                idx: 0,
                ty: ty(0),
            }),
            // v6 = rng "rng1" ty=0
            node(Stmt::Rng {
                name: "rng1".into(),
                ty: ty(0),
            }),
        ],
        terminator: IRTerminator::Jmp {
            target: IRBranchTarget::new(IRBlockTargetId::Return, vec![v(6)]),
        },
    };
    round_trip_ir(SavedIrBlocks {
        types,
        blocks: IRBlocks {
            oracles: vec![],
            actions: vec![],
            rngs: vec![],
            pre_init: vec![],
            blocks: vec![block],
        },
    });
}

#[test]
fn ir_terminator_jmp_cond() {
    let types = TypeTable(vec![
        IrType::Primitive(Type::Bit),
        IrType::Primitive(Type::_8),
    ]);
    let block0 = IRBlock {
        params: vec![ty(0)], // v0
        stmts: vec![],
        terminator: IRTerminator::JumpCond {
            condition: v(0),
            then_target: IRBranchTarget::new(IRBlockTargetId::Block(block_id(1)), vec![v(0)]),
            else_target: IRBranchTarget::new(IRBlockTargetId::Return, vec![]),
        },
    };
    let block1 = IRBlock {
        params: vec![ty(0)],
        stmts: vec![],
        terminator: IRTerminator::Jmp {
            target: IRBranchTarget::new(IRBlockTargetId::Return, vec![v(0)]),
        },
    };
    round_trip_ir(SavedIrBlocks {
        types,
        blocks: IRBlocks {
            oracles: vec![],
            actions: vec![],
            rngs: vec![],
            pre_init: vec![],
            blocks: vec![block0, block1],
        },
    });
}

#[test]
fn ir_terminator_jmp_table() {
    let types = TypeTable(vec![IrType::Primitive(Type::_8)]);
    let cases = vec![
        (
            c(0, 1),
            IRBranchTarget::new(IRBlockTargetId::Block(block_id(1)), vec![]),
        ),
        (
            c(0, 2),
            IRBranchTarget::new(IRBlockTargetId::Return, vec![]),
        ),
    ];
    let block0 = IRBlock {
        params: vec![ty(0)],
        stmts: vec![],
        terminator: IRTerminator::JumpTable { index: v(0), cases },
    };
    let block1 = IRBlock {
        params: vec![],
        stmts: vec![],
        terminator: IRTerminator::Jmp {
            target: IRBranchTarget::new(IRBlockTargetId::Return, vec![]),
        },
    };
    round_trip_ir(SavedIrBlocks {
        types,
        blocks: IRBlocks {
            oracles: vec![],
            actions: vec![],
            rngs: vec![],
            pre_init: vec![],
            blocks: vec![block0, block1],
        },
    });
}

#[test]
fn ir_string_escaping() {
    let types = TypeTable(vec![IrType::Primitive(Type::Bit)]);
    let block = IRBlock {
        params: vec![],
        stmts: vec![node(Stmt::Rng {
            name: "a\"b\\c\nd".into(),
            ty: ty(0),
        })],
        terminator: IRTerminator::Jmp {
            target: IRBranchTarget::new(IRBlockTargetId::Return, vec![v(0)]),
        },
    };
    round_trip_ir(SavedIrBlocks {
        types,
        blocks: IRBlocks {
            oracles: vec![],
            actions: vec![],
            rngs: vec![],
            pre_init: vec![],
            blocks: vec![block],
        },
    });
}

#[test]
fn ir_constant_large() {
    let types = TypeTable(vec![IrType::Primitive(Type::_128)]);
    let big = c(0xdeadbeef_cafebabe_12345678_90abcdef_u128, u128::MAX);
    let block = IRBlock {
        params: vec![],
        stmts: vec![node(Stmt::Const(big, ty(0)))],
        terminator: IRTerminator::Jmp {
            target: IRBranchTarget::new(IRBlockTargetId::Return, vec![v(0)]),
        },
    };
    round_trip_ir(SavedIrBlocks {
        types,
        blocks: IRBlocks {
            oracles: vec![],
            actions: vec![],
            rngs: vec![],
            pre_init: vec![],
            blocks: vec![block],
        },
    });
}


#[test]
fn bir_simple_round_trip() {
    let block = BIrBlock {
        params: 2, // v0, v1
        stmts: vec![
            node(BIrStmt::Zero),            // v2
            node(BIrStmt::One),             // v3
            node(BIrStmt::And(v(0), v(1))), // v4
            node(BIrStmt::Or(v(0), v(1))),  // v5
            node(BIrStmt::Xor(v(0), v(1))), // v6
            node(BIrStmt::Not(v(0))),       // v7
        ],
        terminator: BIrTerminator::Jmp(BIrTarget {
            block: IRBlockTargetId::Return,
            args: vec![v(6)],
        }),
    };
    round_trip_bir(SavedBIrBlocks {
        blocks: BIrBlocks {
            blocks: vec![block],
            pre_init: vec![],
        },
    });
}

#[test]
fn bir_uses_the_schema_section_header() {
    let text = SavedBIrBlocks {
        blocks: BIrBlocks {
            blocks: vec![BIrBlock {
                params: 0,
                stmts: vec![],
                terminator: BIrTerminator::Jmp(BIrTarget {
                    block: IRBlockTargetId::Return,
                    args: vec![],
                }),
            }],
            pre_init: vec![],
        },
    }
    .to_text_string();
    assert!(text.starts_with("volar-ir v1\nboolar:\n"));
}

#[test]
fn bir_oracle_action_rng() {
    let block = BIrBlock {
        params: 4, // v0..v3
        stmts: vec![
            node(BIrStmt::OracleCall {
                name: "oc".into(),
                args: vec![v(0), v(1)],
                num_bits: 4,
            }), // v4
            node(BIrStmt::OracleProjectedBit { call: v(4), bit: 2 }), // v5
            node(BIrStmt::ActionCall {
                name: "ac".into(),
                guard: v(0),
                args: vec![v(1)],
                fallback: vec![v(2)],
                num_bits: 2,
            }), // v6
            node(BIrStmt::ActionBit { call: v(6), bit: 0 }),          // v7
            node(BIrStmt::Rng {
                name: "rng1".into(),
            }), // v8
        ],
        terminator: BIrTerminator::Jmp(BIrTarget {
            block: IRBlockTargetId::Return,
            args: vec![v(8)],
        }),
    };
    round_trip_bir(SavedBIrBlocks {
        blocks: BIrBlocks {
            blocks: vec![block],
            pre_init: vec![],
        },
    });
}

#[test]
fn bir_storage() {
    let block = BIrBlock {
        params: 4, // v0..v3 (addr bits)
        stmts: vec![
            node(BIrStmt::StorageRead {
                storage: storage(0),
                lane: LaneId(0),
                addr: vec![v(0), v(1)],
            }), // v4
            node(BIrStmt::StorageWrite {
                storage: storage(1),
                lane: LaneId(0),
                src: v(4),
                addr: vec![v(2), v(3)],
            }), // v5
        ],
        terminator: BIrTerminator::Jmp(BIrTarget {
            block: IRBlockTargetId::Return,
            args: vec![v(4)],
        }),
    };
    round_trip_bir(SavedBIrBlocks {
        blocks: BIrBlocks {
            blocks: vec![block],
            pre_init: vec![],
        },
    });
}

#[test]
fn bir_cond_jmp() {
    let block0 = BIrBlock {
        params: 1, // v0
        stmts: vec![],
        terminator: BIrTerminator::CondJmp {
            val: v(0),
            then_target: BIrTarget {
                block: IRBlockTargetId::Block(IRBlockId(1)),
                args: vec![v(0)],
            },
            else_target: BIrTarget {
                block: IRBlockTargetId::Return,
                args: vec![],
            },
        },
    };
    let block1 = BIrBlock {
        params: 1,
        stmts: vec![],
        terminator: BIrTerminator::Jmp(BIrTarget {
            block: IRBlockTargetId::Return,
            args: vec![v(0)],
        }),
    };
    round_trip_bir(SavedBIrBlocks {
        blocks: BIrBlocks {
            blocks: vec![block0, block1],
            pre_init: vec![],
        },
    });
}

#[test]
fn bir_multi_block() {
    let block0 = BIrBlock {
        params: 2,
        stmts: vec![node(BIrStmt::And(v(0), v(1)))],
        terminator: BIrTerminator::Jmp(BIrTarget {
            block: IRBlockTargetId::Block(IRBlockId(1)),
            args: vec![v(2)],
        }),
    };
    let block1 = BIrBlock {
        params: 1,
        stmts: vec![node(BIrStmt::Not(v(0)))],
        terminator: BIrTerminator::Jmp(BIrTarget {
            block: IRBlockTargetId::Return,
            args: vec![v(1)],
        }),
    };
    round_trip_bir(SavedBIrBlocks {
        blocks: BIrBlocks {
            blocks: vec![block0, block1],
            pre_init: vec![],
        },
    });
}


#[test]
fn error_ir_missing_version_line() {
    let err = match SavedIrBlocks::parse_text("begin_block 0\n") {
        Err(e) => e,
        Ok(_) => panic!("expected Err"),
    };
    assert!(
        matches!(err, ParseError::MissingVersionLine),
        "expected MissingVersionLine, got {:?}",
        err
    );
}

#[test]
fn error_ir_wrong_version() {
    let err = match SavedIrBlocks::parse_text("volar-ir v99\n") {
        Err(e) => e,
        Ok(_) => panic!("expected Err"),
    };
    assert!(
        matches!(err, ParseError::UnsupportedVersion(_)),
        "expected UnsupportedVersion, got {:?}",
        err
    );
}

#[test]
fn error_bir_missing_version_line() {
    let err = match SavedBIrBlocks::parse_text("begin_block 0\n") {
        Err(e) => e,
        Ok(_) => panic!("expected Err"),
    };
    assert!(
        matches!(err, ParseError::MissingVersionLine),
        "expected MissingVersionLine, got {:?}",
        err
    );
}

#[test]
fn error_bir_wrong_version() {
    let err = match SavedBIrBlocks::parse_text("volar-bir v99\n") {
        Err(e) => e,
        Ok(_) => panic!("expected Err"),
    };
    assert!(
        matches!(err, ParseError::UnsupportedVersion(_)),
        "expected UnsupportedVersion, got {:?}",
        err
    );
}

#[test]
fn comments_and_blank_lines_ir() {
    let text = String::from(
        "volar-ir v1\n; type table\n\ntype 0 prim bit\n\n; blocks\nbegin_block 0\nparams []\njmp return args=[]\nend_block\n"
    );
    let parsed = SavedIrBlocks::parse_text(&text)
        .expect("parse with comments should work");
    let text2 = parsed.to_text_string();
    // Re-parse the canonical form
    let parsed2 = SavedIrBlocks::parse_text(&text2).expect("re-parse");
    assert_eq!(text2, parsed2.to_text_string());
}

fn bir_fixture() -> BIrBlocks<()> {
    BIrBlocks {
        blocks: vec![BIrBlock {
            params: 4,
            stmts: vec![Node::new(BIrStmt::Xor(v(0), v(1)), (), None)],
            terminator: BIrTerminator::Jmp(BIrTarget {
                block: IRBlockTargetId::Return,
                args: vec![v(2)],
            }),
        }],
        pre_init: vec![],
    }
}

#[test]
fn regions_section_roundtrip() {
    let table = RegionTable {
        entries: vec![
            RegionEntry {
                anchor: WireAnchor::Input { start: 0, len: 4 },
                regions: RegionSet::from_ids(&[RegionId(0), RegionId(1)]),
            },
            RegionEntry {
                anchor: WireAnchor::Input { start: 4, len: 1 },
                regions: RegionSet::from_ids(&[RegionId(2)]),
            },
            RegionEntry {
                anchor: WireAnchor::Output { start: 0, len: 4 },
                regions: RegionSet::from_ids(&[RegionId(0)]),
            },
            RegionEntry {
                anchor: WireAnchor::Storage {
                    storage: StorageId(0),
                    lane: LaneId(0),
                    start: 0,
                    len: 8,
                },
                regions: RegionSet::from_ids(&[RegionId(3)]),
            },
        ],
        names: RegionNames::new(),
    };
    let text = table.to_text_string();
    let expected = "regions {\n\
        \x20 input [0, 4) -> {0, 1}\n\
        \x20 input [4, 5) -> {2}\n\
        \x20 output [0, 4) -> {0}\n\
        \x20 storage S0 L0 [0, 8) -> {3}\n\
    }\n";
    assert_eq!(text, expected);
}

#[test]
fn full_document_roundtrip() {
    let circuit = SavedBIrBlocks {
        blocks: bir_fixture(),
    };
    let mut doc = circuit.to_text_string();
    doc.push_str(
        &RegionTable {
            entries: vec![
                RegionEntry {
                    anchor: WireAnchor::Input { start: 0, len: 4 },
                    regions: RegionSet::from_ids(&[RegionId(0)]),
                },
                RegionEntry {
                    anchor: WireAnchor::Output { start: 0, len: 1 },
                    regions: RegionSet::from_ids(&[RegionId(0)]),
                },
            ],
            names: RegionNames::new(),
        }
        .to_text_string(),
    );
    let bindings = vec![GadgetBinding {
        gadget: "pad".to_string(),
        selector: RegionSelector {
            all_of: RegionSet::from_ids(&[RegionId(0)]),
            none_of: RegionSet::from_ids(&[RegionId(1)]),
        },
        aux_sources: vec![AuxSource::Const(vec![true, false])],
        rng_source: None,
    }];
    let mut sink = String::new();
    write_gadget_bindings(&bindings, &mut sink);
    doc.push_str(&sink);

    let parsed = parse_with_regions(&doc).expect("parses");
    assert_eq!(parsed.circuit.blocks.blocks.len(), 1);
    assert_eq!(parsed.regions.entries.len(), 2);
    assert_eq!(parsed.bindings.len(), 1);
    assert_eq!(parsed.bindings[0].gadget, "pad");
    assert_eq!(parsed.bindings[0].aux_sources.len(), 1);
    assert_eq!(
        parsed.bindings[0].aux_sources[0],
        AuxSource::Const(vec![true, false])
    );
    assert_eq!(
        parsed.bindings[0].selector.all_of,
        RegionSet::from_ids(&[RegionId(0)])
    );
    assert_eq!(
        parsed.bindings[0].selector.none_of,
        RegionSet::from_ids(&[RegionId(1)])
    );
}

#[test]
fn ir_text_reads_back_as_the_same_value() {
    let m = simple_ir_module();
    let parsed = SavedIrBlocks::parse_text(&m.to_text_string()).unwrap();
    assert_eq!(parsed, m);
}

#[test]
fn simple_ir_module_text() {
    let text = simple_ir_module().to_text_string();
    assert_eq!(
        text,
        "volar-ir v1\n\
         type 0 prim bit\n\
         type 1 prim u8\n\
         type 2 vec 4 1\n\
         type 3 tuple [0,1]\n\
         type 4 block [0]\n\
         type 5 func [0,1]->[1]\n\
         begin_block 0\n\
         params [0]\n\
         v1 = const 0x0:0xff ty=1\n\
         jmp return args=[v1]\n\
         end_block\n"
    );
}

#[test]
fn bir_text_reads_back_as_the_same_value() {
    let m = SavedBIrBlocks {
        blocks: bir_fixture(),
    };
    let text = m.to_text_string();
    assert_eq!(
        text,
        "volar-ir v1\nboolar:\nbegin_block 0\nparams 4\nv4 = xor v0 v1\njmp return args=[v2]\nend_block\n"
    );
    assert_eq!(SavedBIrBlocks::parse_text(&text).unwrap(), m);
}

#[test]
fn bir_sections_are_checked() {
    let other = SavedBIrBlocks::parse_text("volar-ir v1\nvaffle:\n");
    assert_eq!(
        other,
        Err(ParseError::UnexpectedToken {
            line: 2,
            col: 1,
            got: String::from("vaffle"),
        })
    );
    let word = SavedBIrBlocks::parse_text("volar-ir v1\nboolar:\nwhat 1\n");
    assert_eq!(word, Err(ParseError::UnknownDirective(String::from("what"))));
    let open = SavedBIrBlocks::parse_text("volar-ir v1\nboolar:\nbegin_block 0\nparams 1\nend_block\n");
    assert_eq!(open, Err(ParseError::MissingField(String::from("terminator"))));
}

#[test]
fn ir_errors_say_what_is_wrong() {
    let word = SavedIrBlocks::parse_text("volar-ir v1\nwhat 1\n");
    assert_eq!(word, Err(ParseError::UnknownDirective(String::from("what"))));
    let prim = SavedIrBlocks::parse_text("volar-ir v1\ntype 0 prim u9\n");
    assert_eq!(prim, Err(ParseError::UnknownPrimType(String::from("u9"))));
    let number = SavedIrBlocks::parse_text("volar-ir v1\nbegin_block 99999999999\n");
    assert!(matches!(number, Err(ParseError::InvalidInt(_))));
    let end = SavedIrBlocks::parse_text("volar-ir v1\nbegin_block 0\nparams [0");
    assert!(end.is_err());
}

#[test]
fn lexer_reads_token_by_token() {
    let mut lex = Lexer::new("ab 12 0x1f \"q\\\"r\" v7 ; rest\n}");
    assert_eq!(lex.read_ident(), Ok(String::from("ab")));
    assert_eq!(lex.read_u32(), Ok(12));
    assert_eq!(lex.read_u64(), Ok(31));
    assert_eq!(lex.read_string(), Ok(String::from("q\"r")));
    assert_eq!(lex.read_var(), Ok(7));
    assert!(!lex.is_eof());
    assert!(lex.try_byte(b'}'));
    assert!(lex.is_eof());
    assert_eq!(lex.pos().line, 2);
}

#[test]
fn lexer_shows_what_it_expected() {
    let mut lex = Lexer::new("a\"b");
    assert_eq!(
        lex.expect_str("x\n"),
        Err(ParseError::UnexpectedToken {
            line: 1,
            col: 1,
            got: String::from("expected \"x\\n\", got \"a\\\"b\""),
        })
    );
    assert_eq!(lex.expect_str("a\""), Ok(()));
    assert_eq!(lex.read_ident(), Ok(String::from("b")));
}

#[test]
fn region_sections_are_checked() {
    let doc = |body: &str| {
        let mut s = String::from("volar-ir v1\nboolar:\n");
        s.push_str(body);
        parse_with_regions(&s)
    };
    assert_eq!(
        doc("regions { }\nregions { }\n"),
        Err(ParseError::DuplicateSection("regions"))
    );
    assert_eq!(
        doc("gadgets { }\ngadgets { }\n"),
        Err(ParseError::DuplicateSection("gadgets"))
    );
    assert_eq!(
        doc("regions { input [0, 1) -> {} }"),
        Err(ParseError::EmptyRegionSet)
    );
    assert_eq!(
        doc("regions { input [4294967296, 4294967297) -> {0} }"),
        Err(ParseError::InvalidInt(String::from("range out of u32")))
    );
    assert_eq!(
        doc("gadgets { gadget \"g\" on {} aux=[const [2]] }"),
        Err(ParseError::UnexpectedToken {
            line: 0,
            col: 0,
            got: String::from("bit 2"),
        })
    );
    let empty = doc("").unwrap();
    assert_eq!(empty.regions.entries.len(), 0);
    assert_eq!(empty.bindings.len(), 0);
}

#[test]
fn a_range_of_inputs_is_read_by_its_end() {
    let bindings = vec![GadgetBinding {
        gadget: "g".to_string(),
        selector: RegionSelector::all_of(&[RegionId(0)]),
        aux_sources: vec![
            AuxSource::InputRange { start: 0, len: 4 },
            AuxSource::InputRange { start: 3, len: 4 },
            AuxSource::Rng("n".to_string()),
        ],
        rng_source: None,
    }];
    let mut text = String::from("volar-ir v1\nboolar:\n");
    write_gadget_bindings(&bindings, &mut text);
    assert_eq!(
        text,
        "volar-ir v1\nboolar:\ngadgets {\n  gadget \"g\" on {all=[0], none=[]} aux=[input [0, 4), input [3, 7), rng \"n\"]\n}\n"
    );
    let parsed = parse_with_regions(&text).unwrap();
    assert_eq!(parsed.bindings[0].aux_sources, bindings[0].aux_sources);
}

#[test]
fn gadget_names_are_written_with_escapes() {
    let bindings = vec![GadgetBinding {
        gadget: "a \"b\"\\c".to_string(),
        selector: RegionSelector::all_of(&[RegionId(2)]),
        aux_sources: vec![
            AuxSource::Rng("o\"p".to_string()),
            AuxSource::Rng("r\\s".to_string()),
        ],
        rng_source: Some("t\"u\\".to_string()),
    }];
    let mut text = String::from("volar-ir v1\nboolar:\n");
    write_gadget_bindings(&bindings, &mut text);
    let parsed = parse_with_regions(&text).unwrap();
    assert_eq!(parsed.bindings.len(), 1);
    assert_eq!(parsed.bindings[0].gadget, bindings[0].gadget);
    assert_eq!(parsed.bindings[0].aux_sources, bindings[0].aux_sources);
    assert_eq!(parsed.bindings[0].rng_source, bindings[0].rng_source);
}

#[test]
fn lexer_stops_where_an_error_is_found() {
    let mut lex = Lexer::new("  7x");
    assert!(lex.read_ident().is_err());
    assert_eq!(lex.pos().col, 3);
    assert_eq!(lex.read_u32(), Ok(7));
    let mut lex = Lexer::new(" 99999999999 a");
    assert!(lex.read_u32().is_err());
    assert_eq!(lex.read_ident(), Ok(String::from("a")));
    let mut lex = Lexer::new("[1, 2, q] r");
    assert!(lex.read_u32_list().is_err());
    assert_eq!(lex.read_ident(), Ok(String::from("q")));
    let mut lex = Lexer::new(" \"ab");
    assert!(lex.read_string().is_err());
    assert!(lex.is_eof());
    let mut lex = Lexer::new("  x");
    assert!(lex.expect_byte(b'{').is_err());
    assert_eq!(lex.pos().col, 3);
}

#[test]
fn lexer_takes_characters_of_several_bytes() {
    let mut lex = Lexer::new(" \u{e9} a");
    assert_eq!(lex.peek_byte(), Some(0xc3));
    assert!(!lex.try_byte(0xa9));
    assert!(lex.try_byte(0xc3));
    assert_eq!((lex.pos().line, lex.pos().col), (1, 3));
    assert_eq!(lex.peek_byte(), Some(0xa9));
    assert!(!lex.is_eof());
    assert!(!lex.try_byte(0xc3));
    assert!(lex.try_byte(0xa9));
    assert_eq!(lex.pos().col, 4);
    assert_eq!(lex.read_ident(), Ok(String::from("a")));
    let mut lex = Lexer::new("\u{20ac}\u{1f600}b");
    for b in [0xe2, 0x82, 0xac, 0xf0, 0x9f, 0x98, 0x80] {
        assert_eq!(lex.peek_byte(), Some(b));
        assert!(lex.expect_byte(b ^ 1).is_err());
        assert_eq!(lex.expect_byte(b), Ok(()));
    }
    assert_eq!(lex.pos().col, 8);
    assert_eq!(lex.read_ident(), Ok(String::from("b")));
}

#[test]
fn lexer_reads_no_token_within_a_character() {
    let within = || {
        let mut lex = Lexer::new("\u{e9}a");
        assert!(lex.try_byte(0xc3));
        lex
    };
    let unexpected = |got: &str| ParseError::UnexpectedToken {
        line: 1,
        col: 2,
        got: String::from(got),
    };
    let mut lex = within();
    lex.skip();
    assert_eq!(lex.peek_byte(), Some(0xa9));
    assert_eq!(lex.read_ident(), Err(unexpected("'\u{a9}'")));
    assert_eq!(
        lex.read_var(),
        Err(unexpected("expected 'v<N>', got '\u{a9}'"))
    );
    assert_eq!(lex.expect_key("k"), Err(unexpected("'\u{a9}'")));
    assert_eq!(lex.read_u32(), Err(ParseError::UnexpectedEof));
    assert_eq!(lex.read_usize(), Err(ParseError::UnexpectedEof));
    assert_eq!(lex.read_u128(), Err(ParseError::UnexpectedEof));
    assert_eq!(
        lex.read_string(),
        Err(unexpected("expected '\"', got '\u{a9}'"))
    );
    assert_eq!(
        lex.read_u32_list(),
        Err(unexpected("expected '[', got '\u{a9}'"))
    );
    assert_eq!(
        lex.expect_byte(0xe9),
        Err(unexpected("expected '\u{e9}', got '\u{a9}'"))
    );
    assert!(lex.try_byte(0xa9));
    assert_eq!(lex.read_ident(), Ok(String::from("a")));
}
