use tuonelang::mir::{BasicBlock, BlockId, Const, IntKind, Operand, Terminator, Trap};
use tuonelang::opt::unreachable_blocks::terminator_targets;
use tuonelang::structural::{check_signature, check_targets, StructFault};

fn block(terminator: Terminator) -> BasicBlock<u8> {
    BasicBlock { statements: vec![], terminator }
}

fn zero() -> Operand {
    Operand::Const(Const::Int(0, IntKind::I64))
}

#[test]
fn a_sound_signature_has_no_faults() {
    let blocks = vec![block(Terminator::Return(zero()))];
    assert_eq!(check_signature(2, 3, &blocks), vec![]);
}

#[test]
fn too_many_parameters_and_no_blocks_are_both_reported() {
    let blocks: Vec<BasicBlock<u8>> = vec![];
    assert_eq!(
        check_signature(4, 3, &blocks),
        vec![StructFault::TooManyParams { params: 4, locals: 3 }, StructFault::NoBlocks]
    );
}

#[test]
fn targets_in_range_pass() {
    let blocks = vec![
        block(Terminator::Branch { cond: zero(), then_block: BlockId(1), else_block: BlockId(0) }),
        block(Terminator::Trap(Trap::Unreachable)),
    ];
    assert_eq!(check_targets(&blocks), vec![]);
}

#[test]
fn missing_targets_are_reported_in_order() {
    let blocks = vec![
        block(Terminator::Branch { cond: zero(), then_block: BlockId(5), else_block: BlockId(2) }),
        block(Terminator::Assert { cond: zero(), trap: Trap::Unreachable, target: BlockId(1) }),
    ];
    assert_eq!(
        check_targets(&blocks),
        vec![StructFault::MissingTarget { block: 0, target: 5 }, StructFault::MissingTarget { block: 0, target: 2 }]
    );
}

#[test]
fn every_repeated_arm_value_is_reported() {
    let blocks = vec![
        block(Terminator::Switch {
            discr: zero(),
            arms: vec![(1, BlockId(0)), (-2, BlockId(0)), (1, BlockId(0)), (1, BlockId(3))],
            otherwise: BlockId(0),
        }),
    ];
    assert_eq!(
        check_targets(&blocks),
        vec![
            StructFault::MissingTarget { block: 0, target: 3 },
            StructFault::DuplicateArm { block: 0, value: 1 },
            StructFault::DuplicateArm { block: 0, value: 1 },
        ]
    );
}

#[test]
fn structural_messages_and_codes() {
    let f = StructFault::MissingTarget { block: 2, target: 9 };
    assert_eq!(f.message("main"), "fn `main`: bb2's terminator jumps to bb9 which does not exist");
    assert_eq!(f.code(), 1);
    let d = StructFault::DuplicateArm { block: 0, value: -7 };
    assert_eq!(d.message("f"), "fn `f`: bb0's switch has a duplicated arm value -7");
    assert_eq!(d.code(), 8);
    let p = StructFault::TooManyParams { params: 3, locals: 1 };
    assert_eq!(p.message("g"), "fn `g`: 3 parameter modes but only 1 locals");
    assert_eq!(p.code(), 7);
    assert_eq!(StructFault::NoBlocks.message("h"), "fn `h`: a function body has no basic blocks");
    assert_eq!(StructFault::NoBlocks.code(), 7);
    let min = StructFault::DuplicateArm { block: 1, value: i128::MIN };
    assert_eq!(min.message("m"), format!("fn `m`: bb1's switch has a duplicated arm value {}", i128::MIN));
}

#[test]
fn a_body_without_target_faults_names_only_existing_blocks() {
    let blocks = vec![
        block(Terminator::Goto(BlockId(1))),
        block(Terminator::Switch { discr: zero(), arms: vec![(0, BlockId(0)), (1, BlockId(2))], otherwise: BlockId(1) }),
        block(Terminator::Return(zero())),
    ];
    assert!(check_targets(&blocks).is_empty());
    for b in &blocks {
        for t in terminator_targets(&b.terminator) {
            assert!((t as usize) < blocks.len());
        }
    }
}
