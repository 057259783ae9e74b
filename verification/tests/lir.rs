use volar_ir::lir::recording::RecordingTarget;
use volar_ir::lir::saved::SavedLirModule;
use volar_ir::lir::target::{BranchTarget, IcmpPred, LirTarget, LirType};

/// Build a module with a single function:
/// ```text
/// fn add(a: u32, b: u32) -> u32 { return a + b; }
/// ```
fn build_add_module() -> SavedLirModule {
    let mut rec = RecordingTarget::new();
    let (entry, params) = rec.begin_function(
        "add",
        &[LirType::U32, LirType::U32],
        Some(LirType::U32),
    );
    rec.switch_to_block(entry);
    let a = params[0][0];
    let b = params[1][0];
    let sum = rec.add(a, b);
    rec.ret(&[sum]);
    rec.end_function();
    rec.finish()
}

/// Build a more complex module exercising branches and block params:
/// ```text
/// fn max(a: u32, b: u32) -> u32 {
///     if a >= b { return a; } else { return b; }
/// }
/// ```
fn build_max_module() -> SavedLirModule {
    let mut rec = RecordingTarget::new();
    let (entry, params) = rec.begin_function(
        "max",
        &[LirType::U32, LirType::U32],
        Some(LirType::U32),
    );
    let a = params[0][0];
    let b = params[1][0];

    let then_block = rec.create_block();
    let else_block = rec.create_block();
    let merge_block = rec.create_block();
    let result_param = rec.add_block_param(merge_block, LirType::U32);

    rec.switch_to_block(entry);
    let cond = rec.icmp(IcmpPred::Uge, a, b);
    rec.branch(
        cond,
        then_block,
        BranchTarget::args(vec![]),
        else_block,
        BranchTarget::args(vec![]),
    );

    rec.switch_to_block(then_block);
    rec.jump(merge_block, BranchTarget::args(vec![a]));

    rec.switch_to_block(else_block);
    rec.jump(merge_block, BranchTarget::args(vec![b]));

    rec.switch_to_block(merge_block);
    rec.ret(&[result_param]);

    rec.end_function();
    rec.finish()
}

fn round_trip(original: &SavedLirModule) -> SavedLirModule {
    let mut replay_rec = RecordingTarget::new();
    original.replay(&mut replay_rec);
    replay_rec.finish()
}

#[test]
fn add_module_round_trip() {
    let original = build_add_module();
    let replayed = round_trip(&original);
    assert_eq!(
        original, replayed,
        "round-tripped `add` module does not match original"
    );
}

#[test]
fn max_module_round_trip() {
    let original = build_max_module();
    let replayed = round_trip(&original);
    assert_eq!(
        original, replayed,
        "round-tripped `max` module does not match original"
    );
}

#[test]
fn empty_module_round_trip() {
    let original = SavedLirModule::default();
    let replayed = round_trip(&original);
    assert_eq!(original, replayed, "round-tripped empty module does not match");
}

fn build_add() -> SavedLirModule {
    let mut rec = RecordingTarget::new();
    let (entry, params) = rec.begin_function(
        "add",
        &[LirType::U32, LirType::U32],
        Some(LirType::U32),
    );
    rec.switch_to_block(entry);
    let sum = rec.add(params[0][0], params[1][0]);
    rec.ret(&[sum]);
    rec.end_function();
    rec.finish()
}

#[test]
fn replay_into_many_identical_targets() {
    let saved = build_add();
    let mut a = vec![RecordingTarget::new(), RecordingTarget::new(), RecordingTarget::new()];
    saved.replay_into_many(&mut a);
    let finished: Vec<SavedLirModule> = a.into_iter().map(|t| t.finish()).collect();
    assert_eq!(finished[0], finished[1]);
    assert_eq!(finished[1], finished[2]);
    assert_eq!(finished[0], saved);
}

#[test]
fn replay_pair_heterogeneous_recordings() {
    let saved = build_add();
    let mut left = RecordingTarget::new();
    let mut right = RecordingTarget::new();
    saved.replay_pair(&mut left, &mut right);
    assert_eq!(left.finish(), right.finish());
}
