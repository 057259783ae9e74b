use volar_ir::boolar::{BIrStmt, BIrTarget, BIrTerminator, LaneId};
use volar_ir::common::{Constant, StorageId};
use volar_ir::ir::{IRBlockId, IRBlockTargetId, IRBranchTarget, IRTerminator, IRVarId};

/// Gives each variable the next number and remembers the variables seen.
fn number(mut seen: Vec<u32>, v: IRVarId) -> (Vec<u32>, Result<String, u32>) {
    if v.0 == 99 {
        return (seen, Err(v.0));
    }
    seen.push(v.0);
    let name = format!("x{}", seen.len());
    (seen, Ok(name))
}

fn v(n: u32) -> IRVarId {
    IRVarId(n)
}

#[test]
fn ends_are_translated_in_order() {
    let t = BIrTerminator::CondJmp {
        val: v(7),
        then_target: BIrTarget {
            block: IRBlockTargetId::Dyn(v(3)),
            args: vec![v(1), v(2)],
        },
        else_target: BIrTarget {
            block: IRBlockTargetId::Block(IRBlockId(5)),
            args: vec![v(4)],
        },
    };
    let (seen, r) = t.map(vec![], &number);
    assert_eq!(seen, vec![7, 3, 1, 2, 4]);
    assert_eq!(
        r.unwrap(),
        BIrTerminator::CondJmp {
            val: String::from("x1"),
            then_target: BIrTarget {
                block: IRBlockTargetId::Dyn(String::from("x2")),
                args: vec![String::from("x3"), String::from("x4")],
            },
            else_target: BIrTarget {
                block: IRBlockTargetId::Block(IRBlockId(5)),
                args: vec![String::from("x5")],
            },
        }
    );
}

#[test]
fn the_first_failure_ends_a_translation() {
    let t = IRTerminator::JumpTable {
        index: v(1),
        cases: vec![
            (
                Constant { hi: 0, lo: 0 },
                IRBranchTarget::new(IRBlockTargetId::Return, vec![v(2), v(99), v(3)]),
            ),
            (
                Constant { hi: 0, lo: 1 },
                IRBranchTarget::new(IRBlockTargetId::Return, vec![v(4)]),
            ),
        ],
    };
    let (seen, r) = t.map(vec![], &number);
    assert_eq!(seen, vec![1, 2]);
    assert_eq!(r, Err(99));
}

#[test]
fn statements_are_translated_with_their_storage() {
    let s = BIrStmt::StorageWrite {
        storage: StorageId(8),
        lane: LaneId(2),
        src: v(1),
        addr: vec![v(3), v(2)],
    };
    let stor = |seen: Vec<u32>, s: StorageId| (seen, Ok::<u64, u32>(s.0 as u64 + 1));
    let (seen, r) = s.map(vec![], &number, &stor);
    assert_eq!(seen, vec![1, 3, 2]);
    assert_eq!(
        r.unwrap(),
        BIrStmt::StorageWrite {
            storage: 9,
            lane: LaneId(2),
            src: String::from("x1"),
            addr: vec![String::from("x2"), String::from("x3")],
        }
    );
}

#[test]
fn references_point_into_the_value() {
    let mut s: BIrStmt = BIrStmt::ActionCall {
        name: String::from("a"),
        guard: v(0),
        args: vec![v(1)],
        fallback: vec![v(2), v(3)],
        num_bits: 2,
    };
    assert!(matches!(
        s.as_ref(),
        BIrStmt::ActionCall { guard: IRVarId(0), .. }
    ));
    if let BIrStmt::ActionCall {
        guard,
        fallback,
        ..
    } = s.as_mut()
    {
        *guard = v(10);
        for f in fallback {
            f.0 += 20;
        }
    }
    assert_eq!(
        s,
        BIrStmt::ActionCall {
            name: String::from("a"),
            guard: v(10),
            args: vec![v(1)],
            fallback: vec![v(22), v(23)],
            num_bits: 2,
        }
    );
    let mut t: IRTerminator = IRTerminator::Jmp {
        target: IRBranchTarget::new(IRBlockTargetId::Dyn(v(1)), vec![v(2)]),
    };
    if let IRTerminator::Jmp { target } = t.as_mut() {
        if let IRBlockTargetId::Dyn(x) = target.dest {
            x.0 = 6;
        }
    }
    assert!(matches!(
        t.as_ref(),
        IRTerminator::Jmp {
            target: IRBranchTarget {
                dest: IRBlockTargetId::Dyn(IRVarId(6)),
                ..
            }
        }
    ));
}
