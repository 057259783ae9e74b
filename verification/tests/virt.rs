use std::cell::RefCell;
use std::collections::HashMap;

use volar_ir::boolar::{BIrBlock, BIrBlocks, BIrStmt, BIrTarget, BIrTerminator, LaneId};
use volar_ir::common::{
    Constant, Node, ProvenanceHandler, ReentryHint, StorageAccess, StorageId, StorageTable, TypeId,
    TypeTable,
};
use volar_ir::ir::{
    IRBlock, IRBlockId, IRBlockTargetId, IRBlocks, IRBranchTarget, IRTerminator, IRType, IRTypeId,
    IRTypes, IRVarId, PolyCoeffs, PrimType, Stmt,
};
use volar_ir::typed_region::typed_bit_width;
use volar_ir::virt::adaptive_cfg::AdaptiveSplitConfig;
use volar_ir::virt::bir::virtualize_bir;
use volar_ir::virt::bytecode::{BytecodeRowKind, TripCount};
use volar_ir::virt::cfg_hints::collect_hinted_loops;
use volar_ir::virt::config::VirtualizeConfig;
use volar_ir::virt::cse::deduplicate_oracle_calls_in_block;
use volar_ir::virt::ctx::{
    validate_bir_storage_access, validate_ir_storage_access, StorageAccessViolation,
};
use volar_ir::virt::hash::CommitmentConfig;
use volar_ir::virt::hash_sip::SipHash48;
use volar_ir::virt::hash_xor::XorFoldHash32;
use volar_ir::virt::ir::{virtualize_ir, virtualize_ir_committed};
use volar_ir::virt::layout::SegmentInvoke;
use volar_ir::virt::split::plan_adaptive_split;

fn u32_ty(types: &mut IRTypes) -> IRTypeId {
    types.intern(IRType::Primitive(PrimType::_32))
}

#[test]
fn infers_trip_from_preheader_constants() {
    let mut types = IRTypes(vec![IRType::Primitive(PrimType::Bit)]);
    let ty = u32_ty(&mut types);
    let blocks = IRBlocks::new(vec![
        IRBlock {
            params: vec![],
            stmts: vec![
                Stmt::Const(Constant { hi: 0, lo: 0 }, ty),
                Stmt::Const(Constant { hi: 0, lo: 3 }, ty),
            ].into_iter().map(|s| Node::new(s, (), None)).collect(),
            terminator: IRTerminator::Jmp {
                target: IRBranchTarget::new(
                    IRBlockTargetId::Block(IRBlockId(1)),
                    vec![IRVarId(0), IRVarId(1)],
                ),
            },
        },
        IRBlock {
            params: vec![ty, ty],
            stmts: vec![],
            terminator: IRTerminator::JumpCond {
                condition: IRVarId(0),
                then_target: IRBranchTarget::new(
                    IRBlockTargetId::Block(IRBlockId(2)),
                    vec![],
                ),
                else_target: IRBranchTarget::new(IRBlockTargetId::Return, vec![]),
            },
        },
        IRBlock {
            params: vec![],
            stmts: vec![Stmt::Const(Constant { hi: 0, lo: 7 }, ty)].into_iter().map(|s| Node::new(s, (), None)).collect(),
            terminator: IRTerminator::Jmp {
                target: IRBranchTarget {
                    dest: IRBlockTargetId::Block(IRBlockId(1)),
                    args: vec![IRVarId(0), IRVarId(1)],
                    reentry: Some(ReentryHint::bounded_loop_ascending()),
                },
            },
        },
    ]);
    let loops = collect_hinted_loops(&blocks);
    assert_eq!(loops.len(), 1);
    assert_eq!(loops[0].body, 2);
    assert_eq!(loops[0].trip_count, TripCount::Fixed(3));
}

#[test]
fn rejects_ir_storage_write_to_readonly_sidecar() {
    let storage = StorageId(9);
    let blocks = IRBlocks::new(vec![IRBlock {
        params: vec![IRTypeId(0), IRTypeId(0)],
        stmts: vec![Node::new(
            Stmt::StorageWrite {
                storage,
                src: IRVarId(0),
                ty: IRTypeId(0),
                addr: IRVarId(1),
            },
            (),
            None,
        )],
        terminator: IRTerminator::Jmp {
            target: IRBranchTarget::new(IRBlockTargetId::Return, vec![]),
        },
    }]);
    let mut sidecar = StorageTable::new();
    sidecar.set(storage, StorageAccess::ReadOnly);
    assert_eq!(
        validate_ir_storage_access(&blocks, &sidecar),
        Err(StorageAccessViolation {
            storage,
            operation: "StorageWrite",
        })
    );
}

#[test]
fn caller_storage_access_is_preserved_conservatively() {
    let bit = IRTypeId(0);
    let mut types = IRTypes(vec![IRType::Primitive(PrimType::Bit)]);
    let source: IRBlocks<()> = IRBlocks::new(vec![IRBlock {
        params: vec![bit],
        stmts: vec![],
        terminator: IRTerminator::Jmp {
            target: IRBranchTarget::new(IRBlockTargetId::Return, vec![IRVarId(0)]),
        },
    }]);
    let mut config = VirtualizeConfig::default();
    config
        .storage_access
        .set(StorageId(77), StorageAccess::ReadOnly);
    config
        .storage_access
        .set(config.bytecode_storage, StorageAccess::ReadWrite);
    let output = virtualize_ir(&source, &mut types, &config);
    assert_eq!(
        output.storage_access.access_of(StorageId(77)),
        StorageAccess::ReadOnly
    );
    assert_eq!(
        output.storage_access.access_of(config.bytecode_storage),
        StorageAccess::ReadWrite,
        "a conflicting caller claim must conservatively weaken the generated fact"
    );
}

#[test]
fn virtualized_register_storage_is_not_readonly() {
    let bit = IRTypeId(0);
    let mut types = IRTypes(vec![IRType::Primitive(PrimType::Bit)]);
    let source: IRBlocks<()> = IRBlocks::new(vec![IRBlock {
        params: vec![bit],
        stmts: vec![],
        terminator: IRTerminator::Jmp {
            target: IRBranchTarget::new(IRBlockTargetId::Return, vec![IRVarId(0)]),
        },
    }]);
    let output = virtualize_ir(&source, &mut types, &VirtualizeConfig::default());
    assert!(validate_ir_storage_access(&output.blocks, &output.storage_access).is_ok());
    assert!(
        output
            .storage_access
            .entries
            .iter()
            .any(|entry| entry.access == StorageAccess::ReadWrite)
    );
}

#[test]
fn rejects_boolar_action_store_to_readonly_sidecar() {
    let storage = StorageId(5);
    let blocks = BIrBlocks {
        blocks: vec![BIrBlock {
            params: 2,
            stmts: vec![Node::new(
                BIrStmt::ActionStoreBit {
                    name: "action".into(),
                    guard: IRVarId(0),
                    args: vec![],
                    fallback: IRVarId(1),
                    storage,
                    lane: LaneId(0),
                    addr: vec![],
                    bit: 0,
                    occurrence: 0,
                },
                (),
                None,
            )],
            terminator: BIrTerminator::Jmp(BIrTarget {
                block: IRBlockTargetId::Return,
                args: vec![],
            }),
        }],
        pre_init: vec![],
    };
    let mut sidecar = StorageTable::new();
    sidecar.set(storage, StorageAccess::ReadOnly);
    assert_eq!(
        validate_bir_storage_access(&blocks, &sidecar),
        Err(StorageAccessViolation {
            storage,
            operation: "ActionStoreBit",
        })
    );
}

#[test]
fn cross_block_finds_shared_core() {
    let mut types = IRTypes(vec![IRType::Primitive(PrimType::Bit)]);
    let ty = u32_ty(&mut types);
    let core = vec![
        Stmt::Const(Constant { hi: 0, lo: 1 }, ty),
        Stmt::Const(Constant { hi: 0, lo: 2 }, ty),
        Stmt::Const(Constant { hi: 0, lo: 3 }, ty),
        Stmt::Const(Constant { hi: 0, lo: 4 }, ty),
    ];
    let mk_block = |prefix: u128, suffix: u128| {
        let mut stmts = vec![Stmt::Const(Constant { hi: 0, lo: prefix }, ty)];
        stmts.extend(core.clone());
        stmts.push(Stmt::Const(Constant { hi: 0, lo: suffix }, ty));
        IRBlock {
            params: vec![ty],
            stmts: stmts.into_iter().map(|s| Node::new(s, (), None)).collect(),
            terminator: IRTerminator::Jmp {
                target: IRBranchTarget::new(IRBlockTargetId::Return, vec![IRVarId(5)]),
            },
        }
    };
    let blocks = IRBlocks::new(vec![mk_block(10, 20), mk_block(11, 21)]);
    let cfg = AdaptiveSplitConfig {
        enabled: true,
        min_sequence_len: 4,
        min_reuse_count: 2,
        ..AdaptiveSplitConfig::default()
    };
    let plan = plan_adaptive_split(&blocks, &cfg);
    assert_eq!(plan.shared_cores.len(), 1);
    assert!(
        plan.block_plans[0]
            .segments
            .iter()
            .any(|s| matches!(s, SegmentInvoke::SharedCore { .. }))
    );
}

#[test]
fn reroll_finds_repeated_body() {
    let mut types = IRTypes(vec![IRType::Primitive(PrimType::Bit)]);
    let ty = u32_ty(&mut types);
    let mut stmts = Vec::new();
    for k in 0..3u128 {
        stmts.push(Stmt::Const(
            Constant {
                hi: 0,
                lo: k * 10 + 1,
            },
            ty,
        ));
        stmts.push(Stmt::Const(
            Constant {
                hi: 0,
                lo: k * 10 + 2,
            },
            ty,
        ));
    }
    let n_stmts = stmts.len();
    let block = IRBlock {
        params: vec![ty],
        stmts: stmts.into_iter().map(|s| Node::new(s, (), None)).collect(),
        terminator: IRTerminator::Jmp {
            target: IRBranchTarget::new(IRBlockTargetId::Return, vec![IRVarId(n_stmts as u32)]),
        },
    };
    let blocks = IRBlocks::new(vec![block]);
    let cfg = AdaptiveSplitConfig {
        enabled: true,
        cross_block: false,
        loop_reroll: true,
        min_reroll_iterations: 3,
        min_reroll_body_len: 2,
        ..AdaptiveSplitConfig::default()
    };
    let plan = plan_adaptive_split(&blocks, &cfg);
    assert_eq!(plan.reroll_loops.len(), 1);
    assert!(matches!(
        plan.reroll_loops[0].trip_count,
        TripCount::Fixed(3)
    ));
}

#[test]
fn disabled_returns_empty_plan() {
    let mut types = IRTypes(vec![IRType::Primitive(PrimType::Bit)]);
    let ty = u32_ty(&mut types);
    let block = IRBlock {
        params: vec![ty],
        stmts: vec![Stmt::Const(Constant { hi: 0, lo: 5 }, ty)]
            .into_iter()
            .map(|s| Node::new(s, (), None))
            .collect(),
        terminator: IRTerminator::Jmp {
            target: IRBranchTarget::new(IRBlockTargetId::Return, vec![IRVarId(1)]),
        },
    };
    let blocks = IRBlocks::new(vec![block]);
    let plan = plan_adaptive_split(&blocks, &AdaptiveSplitConfig::default());
    assert!(plan.shared_cores.is_empty());
    assert!(plan.reroll_loops.is_empty());
}

fn number(bits: &[bool]) -> u128 {
    let mut n = 0;
    for (k, b) in bits.iter().enumerate() {
        if *b {
            n += 1 << k;
        }
    }
    n
}

fn bits_of(c: &Constant, width: usize) -> Vec<bool> {
    (0..width)
        .map(|k| {
            if k < 128 {
                c.lo >> k & 1 == 1
            } else {
                c.hi >> (k - 128) & 1 == 1
            }
        })
        .collect()
}

/// Runs a typed program, with the leading arguments of the entry block.
fn run_ir(m: &IRBlocks<()>, types: &TypeTable, inputs: Vec<Vec<bool>>) -> Vec<Vec<bool>> {
    try_ir(m, types, inputs).unwrap()
}

/// The same, for a program that may not return.
fn try_ir(m: &IRBlocks<()>, types: &TypeTable, inputs: Vec<Vec<bool>>) -> Option<Vec<Vec<bool>>> {
    let width = |ty: TypeId| match &types.0[ty.0 as usize] {
        IRType::Block { .. } => 32,
        _ => typed_bit_width(ty, types).unwrap(),
    };
    let mut cells: HashMap<(StorageId, TypeId, u128), Vec<bool>> = HashMap::new();
    for seg in &m.pre_init {
        for (k, c) in seg.data.iter().enumerate() {
            let at = (seg.storage, seg.ty, (seg.offset + k) as u128);
            cells.insert(at, bits_of(c, width(seg.ty)));
        }
    }
    let mut block = 0;
    let mut vars = inputs;
    for _ in 0..10_000 {
        let b = &m.blocks[block];
        assert_eq!(vars.len(), b.params.len());
        for n in &b.stmts {
            let v = match &n.kind {
                Stmt::Const(c, ty) => bits_of(c, width(*ty)),
                Stmt::StorageRead { storage, ty, addr } => cells
                    .get(&(*storage, *ty, number(&vars[addr.0 as usize])))
                    .cloned()
                    .unwrap_or(vec![false; width(*ty)]),
                Stmt::StorageWrite {
                    storage,
                    src,
                    ty,
                    addr,
                } => {
                    let at = (*storage, *ty, number(&vars[addr.0 as usize]));
                    cells.insert(at, vars[src.0 as usize].clone());
                    vec![]
                }
                Stmt::Transmute { src, dst_ty, .. } => {
                    let mut bits = vars[src.0 as usize].clone();
                    bits.resize(width(*dst_ty), false);
                    bits
                }
                Stmt::Poly {
                    ty,
                    coeffs,
                    constant,
                } => {
                    let mut sum = bits_of(constant, width(*ty));
                    for (monomial, coeff) in &coeffs.terms {
                        if coeff & 1 == 1 {
                            for k in 0..sum.len() {
                                sum[k] ^= monomial.iter().all(|v| vars[v.0 as usize][k]);
                            }
                        }
                    }
                    sum
                }
                Stmt::Rol { src, n, .. } => {
                    let mut bits = vars[src.0 as usize].clone();
                    bits.rotate_right(*n);
                    bits
                }
                Stmt::Ror { src, n, .. } => {
                    let mut bits = vars[src.0 as usize].clone();
                    bits.rotate_left(*n);
                    bits
                }
                Stmt::Merge { parts, .. } => {
                    parts.iter().flat_map(|p| vars[p.0 as usize].clone()).collect()
                }
                Stmt::Shuffle { result_bits, .. } => result_bits
                    .iter()
                    .map(|(k, v)| vars[v.0 as usize][*k as usize])
                    .collect(),
                Stmt::OracleCall { args, .. } => {
                    args.iter().flat_map(|a| vars[a.0 as usize].clone()).collect()
                }
                Stmt::OracleOutput { call, idx, ty } => {
                    let lo = 3 * number(&vars[call.0 as usize]) + 7 * *idx as u128 + 1;
                    bits_of(&Constant { hi: 0, lo }, width(*ty))
                }
                other => panic!("{:?}", other),
            };
            vars.push(v);
        }
        let target = match &b.terminator {
            IRTerminator::Jmp { target } => target,
            IRTerminator::JumpCond {
                condition,
                then_target,
                else_target,
            } => {
                if vars[condition.0 as usize][0] {
                    then_target
                } else {
                    else_target
                }
            }
            IRTerminator::JumpTable { index, cases } => {
                let i = number(&vars[index.0 as usize]);
                &cases.iter().find(|c| c.0.lo == i)?.1
            }
        };
        let args: Vec<Vec<bool>> = target.args.iter().map(|a| vars[a.0 as usize].clone()).collect();
        match &target.dest {
            IRBlockTargetId::Return => return Some(args),
            IRBlockTargetId::Block(next) => block = next.0 as usize,
            IRBlockTargetId::Dyn(v) => block = number(&vars[v.0 as usize]) as usize,
        }
        vars = args;
    }
    None
}

/// Runs a boolean program.
fn run_bir(m: &BIrBlocks<()>, inputs: Vec<bool>) -> Vec<bool> {
    let mut cells: HashMap<(StorageId, LaneId, u128), bool> = HashMap::new();
    for seg in &m.pre_init {
        for (k, b) in seg.data.iter().enumerate() {
            cells.insert((seg.storage, seg.lane, seg.offset as u128 + k as u128), *b);
        }
    }
    let mut block = 0;
    let mut vars = inputs;
    for _ in 0..10_000 {
        let b = &m.blocks[block];
        assert_eq!(vars.len(), b.params as usize);
        for n in &b.stmts {
            let at = |v: &IRVarId| vars[v.0 as usize];
            let addr = |a: &Vec<IRVarId>| number(&a.iter().map(|v| at(v)).collect::<Vec<bool>>());
            let v = match &n.kind {
                BIrStmt::Zero => false,
                BIrStmt::One => true,
                BIrStmt::And(x, y) => at(x) & at(y),
                BIrStmt::Or(x, y) => at(x) | at(y),
                BIrStmt::Xor(x, y) => at(x) ^ at(y),
                BIrStmt::Not(x) => !at(x),
                BIrStmt::StorageRead {
                    storage,
                    lane,
                    addr: a,
                } => cells.get(&(*storage, *lane, addr(a))).copied().unwrap_or(false),
                BIrStmt::StorageWrite {
                    storage,
                    lane,
                    src,
                    addr: a,
                } => {
                    cells.insert((*storage, *lane, addr(a)), at(src));
                    false
                }
                other => panic!("{:?}", other),
            };
            vars.push(v);
        }
        let target = match &b.terminator {
            BIrTerminator::Jmp(target) => target,
            BIrTerminator::CondJmp {
                val,
                then_target,
                else_target,
            } => {
                if vars[val.0 as usize] {
                    then_target
                } else {
                    else_target
                }
            }
        };
        let args: Vec<bool> = target.args.iter().map(|a| vars[a.0 as usize]).collect();
        match &target.block {
            IRBlockTargetId::Return => return args,
            IRBlockTargetId::Block(next) => block = next.0 as usize,
            IRBlockTargetId::Dyn(_) => panic!("dynamic"),
        }
        vars = args;
    }
    panic!("no end");
}

fn go(block: u32, args: Vec<u32>) -> IRBranchTarget {
    IRBranchTarget::new(
        IRBlockTargetId::Block(IRBlockId(block)),
        args.into_iter().map(IRVarId).collect(),
    )
}

fn leave(args: Vec<u32>) -> IRBranchTarget {
    IRBranchTarget::new(
        IRBlockTargetId::Return,
        args.into_iter().map(IRVarId).collect(),
    )
}

fn bit_types() -> (TypeTable, TypeId, TypeId) {
    let mut types = TypeTable::new();
    let bit = types.intern(IRType::Primitive(PrimType::Bit));
    let word = types.intern(IRType::Primitive(PrimType::_8));
    (types, bit, word)
}

fn nodes(stmts: Vec<Stmt>) -> Vec<Node<Stmt, ()>> {
    stmts.into_iter().map(|s| Node::new(s, (), None)).collect()
}

/// `(a, b) -> a`, through two blocks.
fn two_block_ir() -> IRBlocks<()> {
    let bit = TypeId(0);
    IRBlocks::new(vec![
        IRBlock {
            params: vec![bit, bit],
            stmts: vec![],
            terminator: IRTerminator::Jmp {
                target: go(1, vec![0]),
            },
        },
        IRBlock {
            params: vec![bit],
            stmts: vec![],
            terminator: IRTerminator::Jmp {
                target: leave(vec![0]),
            },
        },
    ])
}

/// `(c, x) -> x ^ k` with a constant that depends on `c`, through a branch, a
/// table and a shared return.
fn branching_ir(bit: TypeId, word: TypeId) -> IRBlocks<()> {
    let xor = |a: u32, b: u32| {
        let mut coeffs = PolyCoeffs::new();
        coeffs.insert(vec![IRVarId(a)], 1);
        coeffs.insert(vec![IRVarId(b)], 1);
        Stmt::Poly {
            ty: word,
            coeffs,
            constant: Constant { hi: 0, lo: 0 },
        }
    };
    let arm = |k: u128| IRBlock {
        params: vec![word],
        stmts: nodes(vec![Stmt::Const(Constant { hi: 0, lo: k }, word), xor(0, 1)]),
        terminator: IRTerminator::Jmp {
            target: go(3, vec![2]),
        },
    };
    IRBlocks::new(vec![
        IRBlock {
            params: vec![bit, word],
            stmts: vec![],
            terminator: IRTerminator::JumpCond {
                condition: IRVarId(0),
                then_target: go(1, vec![1]),
                else_target: go(2, vec![1]),
            },
        },
        arm(0x5a),
        arm(0x17),
        IRBlock {
            params: vec![word],
            stmts: vec![],
            terminator: IRTerminator::JumpTable {
                index: IRVarId(0),
                cases: (0..256u128)
                    .map(|k| {
                        (
                            Constant { hi: 0, lo: k },
                            if k == 0 { go(1, vec![0]) } else { leave(vec![0]) },
                        )
                    })
                    .collect(),
            },
        },
    ])
}

fn check_ir(m: &IRBlocks<()>, cfg: &VirtualizeConfig, inputs: Vec<Vec<Vec<bool>>>) {
    let (mut types, _, _) = bit_types();
    let out = virtualize_ir(m, &mut types, cfg);
    assert_eq!(out.blocks_in, m.blocks.len());
    assert!(validate_ir_storage_access(&out.blocks, &out.storage_access).is_ok());
    for input in inputs {
        let mut with_keys: Vec<Vec<bool>> = Vec::new();
        for (c, ty) in &out.key_params {
            with_keys.push(bits_of(c, typed_bit_width(*ty, &types).unwrap()));
        }
        with_keys.extend(input.clone());
        assert_eq!(
            run_ir(&out.blocks, &types, with_keys),
            run_ir(m, &types, input)
        );
    }
}

fn two_bits() -> Vec<Vec<Vec<bool>>> {
    let mut out = vec![];
    for a in [false, true] {
        for b in [false, true] {
            out.push(vec![vec![a], vec![b]]);
        }
    }
    out
}

fn a_bit_and_a_word() -> Vec<Vec<Vec<bool>>> {
    let mut out = vec![];
    for c in [false, true] {
        for x in [0u128, 1, 0x17, 0x5a, 0xff] {
            out.push(vec![vec![c], bits_of(&Constant { hi: 0, lo: x }, 8)]);
        }
    }
    out
}

#[test]
fn virtualized_programs_give_the_same_results() {
    let (_, bit, word) = bit_types();
    check_ir(&two_block_ir(), &VirtualizeConfig::default(), two_bits());
    check_ir(
        &branching_ir(bit, word),
        &VirtualizeConfig::default(),
        a_bit_and_a_word(),
    );
}

#[test]
fn direct_dispatch_gives_the_same_results() {
    let (_, bit, word) = bit_types();
    let cfg = VirtualizeConfig {
        direct_dispatch: true,
        ..VirtualizeConfig::default()
    };
    check_ir(&two_block_ir(), &cfg, two_bits());
    check_ir(&branching_ir(bit, word), &cfg, a_bit_and_a_word());
}

#[test]
fn adaptive_split_gives_the_same_results() {
    let (_, bit, word) = bit_types();
    let cfg = VirtualizeConfig {
        adaptive_split: AdaptiveSplitConfig {
            enabled: true,
            ..AdaptiveSplitConfig::default()
        },
        ..VirtualizeConfig::default()
    };
    check_ir(&two_block_ir(), &cfg, two_bits());
    check_ir(&branching_ir(bit, word), &cfg, a_bit_and_a_word());
}

/// `x -> y`, through two blocks with the same statements in their middle, a
/// write and a read of a storage among them.
fn shared_core_ir(word: TypeId) -> IRBlocks<()> {
    let store = StorageId(9);
    let xor = |a: u32, b: u32| {
        let mut coeffs = PolyCoeffs::new();
        coeffs.insert(vec![IRVarId(a)], 1);
        coeffs.insert(vec![IRVarId(b)], 1);
        Stmt::Poly {
            ty: word,
            coeffs,
            constant: Constant { hi: 0, lo: 3 },
        }
    };
    let block = |k: u128, last: u128, target: IRBranchTarget| IRBlock {
        params: vec![word],
        stmts: nodes(vec![
            Stmt::Const(Constant { hi: 0, lo: k }, word),
            xor(0, 1),
            Stmt::StorageWrite {
                storage: store,
                src: IRVarId(2),
                ty: word,
                addr: IRVarId(2),
            },
            Stmt::Const(Constant { hi: 0, lo: 0x21 }, word),
            xor(2, 4),
            Stmt::StorageRead {
                storage: store,
                ty: word,
                addr: IRVarId(5),
            },
            xor(5, 6),
            Stmt::Const(Constant { hi: 0, lo: last }, word),
            xor(7, 8),
        ]),
        terminator: IRTerminator::Jmp { target },
    };
    IRBlocks::new(vec![
        block(0x11, 0x40, go(1, vec![9])),
        block(0x5e, 0x02, leave(vec![9, 6])),
    ])
}

/// `x -> (x ^ 3, x ^ 13, x ^ 23, 21)`, through a block of three rounds.
fn repeating_ir(word: TypeId) -> IRBlocks<()> {
    let mut stmts = vec![];
    for k in 0..3u128 {
        let mut coeffs = PolyCoeffs::new();
        coeffs.insert(vec![IRVarId(0)], 1);
        stmts.push(Stmt::Const(
            Constant {
                hi: 0,
                lo: 10 * k + 1,
            },
            word,
        ));
        stmts.push(Stmt::Poly {
            ty: word,
            coeffs,
            constant: Constant {
                hi: 0,
                lo: 10 * k + 3,
            },
        });
    }
    IRBlocks::new(vec![IRBlock {
        params: vec![word],
        stmts: nodes(stmts),
        terminator: IRTerminator::Jmp {
            target: leave(vec![2, 4, 6, 5]),
        },
    }])
}

fn words() -> Vec<Vec<Vec<bool>>> {
    [0u128, 1, 0x2c, 0x7f, 0x80, 0xff]
        .iter()
        .map(|x| vec![bits_of(&Constant { hi: 0, lo: *x }, 8)])
        .collect()
}

#[test]
fn regions_that_are_split_off_give_the_same_results() {
    for direct_dispatch in [false, true] {
        let cfg = VirtualizeConfig {
            direct_dispatch,
            adaptive_split: AdaptiveSplitConfig {
                enabled: true,
                sub_interp_entry_cost: 0,
                ..AdaptiveSplitConfig::default()
            },
            ..VirtualizeConfig::default()
        };
        let (mut types, _, word) = bit_types();
        let shared = shared_core_ir(word);
        let out = virtualize_ir(&shared, &mut types, &cfg);
        assert_eq!(out.n_appended_regions, 1);
        let table = out.bytecode.unwrap();
        assert_eq!(table.outer_block_count, 2);
        assert_eq!(table.regions.len(), 1);
        let region = &table.regions[0];
        assert_eq!(region.pc_start, 2);
        assert!(region.pc_start < region.pc_end);
        for (pc, row) in table.entries.iter().enumerate() {
            let inside = region.pc_start as usize <= pc && pc < region.pc_end as usize;
            assert_eq!(row.row_kind == BytecodeRowKind::SharedCoreStep, inside);
        }
        // The two blocks run one copy of what they share.
        assert!(out.n_handlers < table.entries.len());
        check_ir(&shared, &cfg, words());
    }
}

#[test]
fn repetitions_that_are_folded_give_the_same_results() {
    for direct_dispatch in [false, true] {
        let cfg = VirtualizeConfig {
            direct_dispatch,
            adaptive_split: AdaptiveSplitConfig {
                enabled: true,
                cross_block: false,
                sub_interp_entry_cost: 0,
                ..AdaptiveSplitConfig::default()
            },
            ..VirtualizeConfig::default()
        };
        let (mut types, _, word) = bit_types();
        let m = repeating_ir(word);
        let out = virtualize_ir(&m, &mut types, &cfg);
        assert_eq!(out.n_appended_regions, 1);
        let table = out.bytecode.unwrap();
        assert_eq!(table.outer_block_count, 1);
        assert_eq!(table.regions.len(), 1);
        assert_eq!((table.regions[0].pc_start, table.regions[0].pc_end), (1, 4));
        let kinds: Vec<BytecodeRowKind> = table.entries.iter().map(|e| e.row_kind).collect();
        assert_eq!(
            kinds,
            vec![
                BytecodeRowKind::Outer,
                BytecodeRowKind::RerollDescriptor,
                BytecodeRowKind::RerollDescriptor,
                BytecodeRowKind::RerollDescriptor,
            ]
        );
        check_ir(&m, &cfg, words());
        assert_eq!(
            run_ir(&m, &types, vec![bits_of(&Constant { hi: 0, lo: 0x40 }, 8)])
                .iter()
                .map(|w| number(w))
                .collect::<Vec<u128>>(),
            vec![0x43, 0x4d, 0x57, 21]
        );
    }
}

#[test]
fn virtualized_modules_keep_to_declared_access() {
    let (_, _, word) = bit_types();
    let m = shared_core_ir(word);
    for enabled in [false, true] {
        let mut caller = StorageTable::new();
        caller.set(StorageId(9), StorageAccess::ReadWrite);
        caller.set(StorageId(10), StorageAccess::ReadOnly);
        let (mut types, _, _) = bit_types();
        let cfg = VirtualizeConfig {
            adaptive_split: AdaptiveSplitConfig {
                enabled,
                ..AdaptiveSplitConfig::default()
            },
            storage_access: caller,
            ..VirtualizeConfig::default()
        };
        let out = virtualize_ir(&m, &mut types, &cfg);
        assert!(validate_ir_storage_access(&out.blocks, &out.storage_access).is_ok());
        assert_eq!(
            out.storage_access.access_of(cfg.bytecode_storage),
            StorageAccess::ReadOnly
        );
        assert_eq!(
            out.storage_access.access_of(StorageId(9)),
            StorageAccess::ReadWrite
        );
    }
    let (mut types, _, _) = bit_types();
    let key = CommitmentConfig {
        algorithm: SipHash48,
        commitment_storage: StorageId(0x5000_0000),
        key: vec![Constant { hi: 0, lo: 1 }, Constant { hi: 0, lo: 2 }],
        key_storage: Some(StorageId(0x5000_0001)),
    };
    let out = virtualize_ir_committed(&m, &mut types, &VirtualizeConfig::default(), &key);
    assert!(validate_ir_storage_access(&out.blocks, &out.storage_access).is_ok());
    assert_eq!(
        out.storage_access.access_of(StorageId(0x5000_0000)),
        StorageAccess::ReadOnly
    );
    assert_eq!(
        out.storage_access.access_of(StorageId(0x5000_0001)),
        StorageAccess::ReadWrite
    );
}

struct Counting {
    asked: RefCell<Vec<u32>>,
}

impl ProvenanceHandler<u32> for Counting {
    type Output = usize;

    fn map(&self, p: &u32) -> usize {
        self.asked.borrow_mut().push(*p);
        self.asked.borrow().len()
    }
}

#[test]
fn provenance_is_asked_for_from_the_first_to_the_last() {
    let (_, _, word) = bit_types();
    let block = |first: u32| IRBlock {
        params: vec![],
        stmts: (first..first + 2)
            .map(|p| Node::new(Stmt::Const(Constant { hi: 0, lo: 0 }, word), p, None))
            .collect(),
        terminator: IRTerminator::Jmp {
            target: leave(vec![0]),
        },
    };
    let handler = Counting {
        asked: RefCell::new(vec![]),
    };
    let m = IRBlocks::new(vec![block(10), block(20)]).map_prov_with_handler(&handler);
    assert_eq!(*handler.asked.borrow(), vec![10, 11, 20, 21]);
    let got: Vec<usize> = m
        .blocks
        .iter()
        .flat_map(|b| b.stmts.iter().map(|n| n.prov))
        .collect();
    assert_eq!(got, vec![1, 2, 3, 4]);
    let handler = Counting {
        asked: RefCell::new(vec![]),
    };
    let bits = BIrBlocks {
        blocks: (0..2u32)
            .map(|k| BIrBlock {
                params: 0,
                stmts: vec![
                    Node::new(BIrStmt::Zero, 2 * k, None),
                    Node::new(BIrStmt::One, 2 * k + 1, None),
                ],
                terminator: BIrTerminator::Jmp(bleave(vec![0])),
            })
            .collect(),
        pre_init: vec![],
    };
    let bits = bits.map_prov_with_handler(&handler);
    assert_eq!(*handler.asked.borrow(), vec![0, 1, 2, 3]);
    assert_eq!(bits.blocks[1].stmts[0].prov, 3);
}

#[test]
fn equal_blocks_share_a_handler() {
    let (mut types, bit, word) = bit_types();
    let out = virtualize_ir(
        &branching_ir(bit, word),
        &mut types,
        &VirtualizeConfig::default(),
    );
    assert_eq!(out.blocks_in, 4);
    assert_eq!(out.n_handlers, 3);
    assert_eq!(out.n_appended_regions, 0);
    assert_eq!(out.bytecode.unwrap().len(), 4);
}

#[test]
fn a_row_that_is_not_the_committed_one_leads_elsewhere() {
    let m = two_block_ir();
    let (mut types, _, _) = bit_types();
    let cfg = CommitmentConfig {
        algorithm: XorFoldHash32 { seed: 7 },
        commitment_storage: StorageId(0x5000_0000),
        key: vec![],
        key_storage: None,
    };
    let mut out = virtualize_ir_committed(&m, &mut types, &VirtualizeConfig::default(), &cfg);
    let input = vec![vec![true], vec![false]];
    assert_eq!(
        try_ir(&out.blocks, &types, input.clone()),
        Some(vec![vec![true]])
    );
    for segment in &mut out.blocks.pre_init {
        if segment.storage == StorageId(0x5000_0000) {
            segment.data[0].lo ^= 1;
        }
    }
    assert_eq!(try_ir(&out.blocks, &types, input), None);
}

#[test]
fn repeated_oracle_calls_are_merged() {
    let call = || BIrStmt::OracleCall {
        name: "f".to_string(),
        args: vec![IRVarId(0)],
        num_bits: 2,
    };
    let m = BIrBlocks {
        blocks: vec![BIrBlock {
            params: 1,
            stmts: bnodes(vec![
                call(),
                BIrStmt::OracleProjectedBit {
                    call: IRVarId(1),
                    bit: 0,
                },
                call(),
                BIrStmt::OracleProjectedBit {
                    call: IRVarId(3),
                    bit: 1,
                },
            ]),
            terminator: BIrTerminator::Jmp(bleave(vec![2, 4])),
        }],
        pre_init: vec![],
    };
    let out = virtualize_bir(&m, &VirtualizeConfig::default());
    let mut calls = 0;
    let mut asked = vec![];
    for b in &out.blocks.blocks {
        for n in &b.stmts {
            match &n.kind {
                BIrStmt::OracleCall { .. } => calls += 1,
                BIrStmt::OracleProjectedBit { call, bit } => asked.push((*call, *bit)),
                _ => {}
            }
        }
    }
    assert_eq!(calls, 1);
    assert_eq!(asked.len(), 2);
    assert_eq!(asked[0].0, asked[1].0);
    assert_eq!((asked[0].1, asked[1].1), (0, 1));
}

/// The types of `bit_types`, and those of labels and of blocks that take two
/// words.
fn label_types() -> (TypeTable, TypeId, TypeId, TypeId) {
    let (mut types, _, word) = bit_types();
    let label = u32_ty(&mut types);
    let two = types.intern(IRType::Block {
        params: vec![word, word],
    });
    (types, word, label, two)
}

#[test]
fn dynamic_destinations_follow_merged_calls() {
    let (types, word, label, two) = label_types();
    let call = || Stmt::OracleCall {
        name: "f".to_string(),
        args: vec![IRVarId(0)],
        output_tys: vec![word, word],
        result_ty: word,
    };
    let output = |call: u32, idx: usize| Stmt::OracleOutput {
        call: IRVarId(call),
        idx,
        ty: word,
    };
    let to = IRBranchTarget::new(
        IRBlockTargetId::Dyn(IRVarId(6)),
        vec![IRVarId(2), IRVarId(4)],
    );
    let m: IRBlocks<()> = IRBlocks::new(vec![
        IRBlock {
            params: vec![word],
            stmts: nodes(vec![
                call(),
                output(1, 0),
                call(),
                output(3, 1),
                Stmt::Const(Constant { hi: 0, lo: 1 }, label),
                Stmt::Transmute {
                    src: IRVarId(5),
                    src_ty: label,
                    dst_ty: two,
                },
            ]),
            terminator: IRTerminator::Jmp { target: to },
        },
        IRBlock {
            params: vec![word, word],
            stmts: vec![],
            terminator: IRTerminator::Jmp {
                target: leave(vec![1, 0]),
            },
        },
    ]);
    let merged = deduplicate_oracle_calls_in_block(&m.blocks[0]);
    assert_eq!(merged.stmts.len(), 5);
    match &merged.terminator {
        IRTerminator::Jmp { target } => {
            assert_eq!(target.dest, IRBlockTargetId::Dyn(IRVarId(5)));
            assert_eq!(target.args, vec![IRVarId(2), IRVarId(3)]);
        }
        other => panic!("{:?}", other),
    }
    for direct_dispatch in [false, true] {
        let cfg = VirtualizeConfig {
            direct_dispatch,
            ..VirtualizeConfig::default()
        };
        let (mut all, _, _, _) = label_types();
        let out = virtualize_ir(&m, &mut all, &cfg);
        for input in words() {
            let want = run_ir(&m, &types, input.clone());
            assert_eq!(run_ir(&out.blocks, &all, input), want);
        }
    }
    let five = vec![bits_of(&Constant { hi: 0, lo: 5 }, 8)];
    let got: Vec<u128> = run_ir(&m, &types, five).iter().map(|w| number(w)).collect();
    assert_eq!(got, vec![23, 16]);
}

#[test]
fn programs_committed_under_a_key_give_the_same_results() {
    let m = two_block_ir();
    for input in two_bits() {
        let (mut types, _, _) = bit_types();
        let cfg = CommitmentConfig {
            algorithm: SipHash48,
            commitment_storage: StorageId(0x5000_0000),
            key: vec![
                Constant {
                    hi: 0,
                    lo: 0x0706_0504_0302_0100,
                },
                Constant {
                    hi: 0,
                    lo: 0x0f0e_0d0c_0b0a_0908,
                },
            ],
            key_storage: Some(StorageId(0x5000_0001)),
        };
        let out = virtualize_ir_committed(&m, &mut types, &VirtualizeConfig::default(), &cfg);
        assert_eq!(out.key_params.len(), 2);
        let mut with_keys: Vec<Vec<bool>> = Vec::new();
        for (c, ty) in &out.key_params {
            with_keys.push(bits_of(c, typed_bit_width(*ty, &types).unwrap()));
        }
        with_keys.extend(input.clone());
        assert_eq!(
            run_ir(&out.blocks, &types, with_keys),
            run_ir(&m, &types, input)
        );
    }
}

#[test]
fn committed_programs_give_the_same_results() {
    let m = two_block_ir();
    for input in two_bits() {
        let (mut types, _, _) = bit_types();
        let cfg = CommitmentConfig {
            algorithm: XorFoldHash32 { seed: 7 },
            commitment_storage: StorageId(0x5000_0000),
            key: vec![],
            key_storage: None,
        };
        let out = virtualize_ir_committed(&m, &mut types, &VirtualizeConfig::default(), &cfg);
        let mut with_keys: Vec<Vec<bool>> = Vec::new();
        for (c, ty) in &out.key_params {
            with_keys.push(bits_of(c, typed_bit_width(*ty, &types).unwrap()));
        }
        with_keys.extend(input.clone());
        assert_eq!(
            run_ir(&out.blocks, &types, with_keys),
            run_ir(&m, &types, input)
        );
    }
}

fn bgo(block: u32, args: Vec<u32>) -> BIrTarget {
    BIrTarget {
        block: IRBlockTargetId::Block(IRBlockId(block)),
        args: args.into_iter().map(IRVarId).collect(),
    }
}

fn bleave(args: Vec<u32>) -> BIrTarget {
    BIrTarget {
        block: IRBlockTargetId::Return,
        args: args.into_iter().map(IRVarId).collect(),
    }
}

fn bnodes(stmts: Vec<BIrStmt>) -> Vec<Node<BIrStmt, ()>> {
    stmts.into_iter().map(|s| Node::new(s, (), None)).collect()
}

fn two_block_bir() -> BIrBlocks<()> {
    BIrBlocks {
        blocks: vec![
            BIrBlock {
                params: 2,
                stmts: vec![],
                terminator: BIrTerminator::Jmp(bgo(1, vec![0, 1])),
            },
            BIrBlock {
                params: 2,
                stmts: vec![],
                terminator: BIrTerminator::Jmp(bleave(vec![0])),
            },
        ],
        pre_init: vec![],
    }
}

fn branching_bir() -> BIrBlocks<()> {
    BIrBlocks {
        blocks: vec![
            BIrBlock {
                params: 2,
                stmts: bnodes(vec![BIrStmt::Xor(IRVarId(0), IRVarId(1))]),
                terminator: BIrTerminator::CondJmp {
                    val: IRVarId(2),
                    then_target: bgo(1, vec![1, 0]),
                    else_target: bgo(2, vec![0, 2]),
                },
            },
            BIrBlock {
                params: 2,
                stmts: bnodes(vec![BIrStmt::Not(IRVarId(0))]),
                terminator: BIrTerminator::Jmp(bgo(3, vec![2, 1])),
            },
            BIrBlock {
                params: 2,
                stmts: bnodes(vec![BIrStmt::Not(IRVarId(0))]),
                terminator: BIrTerminator::Jmp(bgo(1, vec![1, 2])),
            },
            BIrBlock {
                params: 2,
                stmts: bnodes(vec![BIrStmt::And(IRVarId(0), IRVarId(1))]),
                terminator: BIrTerminator::Jmp(bleave(vec![2, 0])),
            },
        ],
        pre_init: vec![],
    }
}

#[test]
fn virtualized_boolean_programs_give_the_same_results() {
    for m in [two_block_bir(), branching_bir()] {
        let out = virtualize_bir(&m, &VirtualizeConfig::default());
        assert!(validate_bir_storage_access(&out.blocks, &out.storage_access).is_ok());
        for a in [false, true] {
            for b in [false, true] {
                assert_eq!(run_bir(&out.blocks, vec![a, b]), run_bir(&m, vec![a, b]));
            }
        }
    }
}
