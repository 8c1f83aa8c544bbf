use tuonelang::dataflow::{
    apply_statement, check_dataflow, dataflow_if_sound, ever_defined, exit_set, locals_in_range, predecessors,
    solve_init, statement_locals_in_range, targets_exist, FlowFault,
};
use tuonelang::mir::{
    Arg, BasicBlock, BlockId, Callee, Const, EffectOp, HeapMutOp, IntKind, LocalId, Operand, Place, Projection,
    Rvalue, Statement, Terminator,
};

fn place(local: u32) -> Place {
    Place { local: LocalId(local), projection: vec![] }
}

fn field(local: u32) -> Place {
    Place { local: LocalId(local), projection: vec![Projection::Field(0)] }
}

fn assign(dest: u32, rvalue: Rvalue) -> Statement {
    Statement::Assign { place: place(dest), rvalue }
}

fn one() -> Operand {
    Operand::Const(Const::Int(1, IntKind::I64))
}

fn set(bits: &[bool]) -> Vec<u32> {
    bits.iter().enumerate().filter(|(_, b)| **b).map(|(i, _)| i as u32).collect()
}

/// bb0: `_1 = copy _0`; branch to bb1 or bb2.
/// bb1: `_2 = move _1`; goto bb3.  bb2: drop `_1`; goto bb3.
/// bb3: return.  bb4 (unreachable): goto bb3.
fn diamond() -> Vec<BasicBlock<Statement>> {
    vec![
        BasicBlock {
            statements: vec![assign(1, Rvalue::Use(Operand::Copy(place(0))))],
            terminator: Terminator::Branch {
                cond: Operand::Copy(place(0)),
                then_block: BlockId(1),
                else_block: BlockId(2),
            },
        },
        BasicBlock {
            statements: vec![assign(2, Rvalue::Use(Operand::Move(place(1))))],
            terminator: Terminator::Goto(BlockId(3)),
        },
        BasicBlock { statements: vec![Statement::Drop { place: place(1) }], terminator: Terminator::Goto(BlockId(3)) },
        BasicBlock { statements: vec![], terminator: Terminator::Return(Operand::Copy(place(0))) },
        BasicBlock { statements: vec![], terminator: Terminator::Goto(BlockId(3)) },
    ]
}

#[test]
fn a_move_consumes_and_an_assignment_defines() {
    let mut init = vec![true, true, false];
    apply_statement(&assign(2, Rvalue::Use(Operand::Move(place(1)))), &mut init);
    assert_eq!(set(&init), vec![0, 2]);
}

#[test]
fn a_field_move_leaves_the_local_initialized() {
    let mut init = vec![true, true, false];
    apply_statement(&assign(2, Rvalue::Use(Operand::Move(field(1)))), &mut init);
    assert_eq!(set(&init), vec![0, 1, 2]);
}

#[test]
fn a_field_assignment_defines_nothing() {
    let mut init = vec![true, false, false];
    apply_statement(&Statement::Assign { place: field(1), rvalue: Rvalue::Use(one()) }, &mut init);
    assert_eq!(set(&init), vec![0]);
}

#[test]
fn a_call_consumes_take_arguments_and_defines_mut_borrows_and_dest() {
    let mut init = vec![true, true, false, false];
    let call = Statement::Call {
        dest: place(3),
        callee: Callee::Direct(7),
        args: vec![Arg::Value(Operand::Move(place(0))), Arg::Borrow(place(1)), Arg::BorrowMut(place(2))],
    };
    apply_statement(&call, &mut init);
    assert_eq!(set(&init), vec![1, 2, 3]);
}

#[test]
fn an_indirect_callee_moved_is_consumed() {
    let mut init = vec![true, true];
    let call = Statement::Call { dest: place(1), callee: Callee::Indirect(Operand::Move(place(0))), args: vec![] };
    apply_statement(&call, &mut init);
    assert_eq!(set(&init), vec![1]);
}

#[test]
fn effects_and_heap_mutations_define_their_places() {
    let mut init = vec![false, false, false, true];
    let effect = Statement::Effect { op: EffectOp::ReadByte, args: vec![Arg::Value(one())], dest: place(0) };
    apply_statement(&effect, &mut init);
    let mutate = Statement::HeapMutate {
        op: HeapMutOp::PushByte,
        target: place(1),
        args: vec![Operand::Move(place(3))],
        dest: place(2),
    };
    apply_statement(&mutate, &mut init);
    assert_eq!(set(&init), vec![0, 1, 2]);
}

#[test]
fn a_drop_uninitializes() {
    let mut init = vec![true, true];
    apply_statement(&Statement::Drop { place: place(1) }, &mut init);
    assert_eq!(set(&init), vec![0]);
}

#[test]
fn aggregate_and_binary_moves_are_consumed_in_order() {
    let mut init = vec![true, true, true, false];
    let agg = Rvalue::Aggregate {
        kind: tuonelang::mir::AggregateKind::Range,
        fields: vec![Operand::Move(place(0)), Operand::Copy(place(1))],
    };
    apply_statement(&assign(3, agg), &mut init);
    assert_eq!(set(&init), vec![1, 2, 3]);
    let bin = Rvalue::Binary { op: tuonelang::mir::BinOp::Add, lhs: Operand::Move(place(1)), rhs: Operand::Move(place(2)) };
    apply_statement(&assign(0, bin), &mut init);
    assert_eq!(set(&init), vec![0, 3]);
}

#[test]
fn exit_set_applies_statements_in_order() {
    let block = BasicBlock {
        statements: vec![
            assign(1, Rvalue::Use(one())),
            assign(2, Rvalue::Use(Operand::Move(place(1)))),
            Statement::Drop { place: place(0) },
        ],
        terminator: Terminator::Goto(BlockId(0)),
    };
    let exit = exit_set(&block, &vec![true, false, false]);
    assert_eq!(set(&exit), vec![2]);
}

#[test]
fn ever_defined_holds_parameters_and_written_locals() {
    let ever = ever_defined(&diamond(), 1, 4);
    assert_eq!(ever.len(), 4);
    assert_eq!(set(&ever), vec![0, 1, 2]);
}

#[test]
fn predecessors_are_listed_in_block_order() {
    let blocks = diamond();
    assert_eq!(predecessors(&blocks, 3), vec![1, 2, 4]);
    assert_eq!(predecessors(&blocks, 0), Vec::<usize>::new());
    assert_eq!(predecessors(&blocks, 1), vec![0]);
}

#[test]
fn entry_sets_of_a_diamond_intersect_the_branches() {
    let entry = solve_init(&diamond(), 1, 3);
    assert_eq!(entry.len(), 5);
    assert_eq!(set(entry[0].as_ref().unwrap()), vec![0]);
    assert_eq!(set(entry[1].as_ref().unwrap()), vec![0, 1]);
    assert_eq!(set(entry[2].as_ref().unwrap()), vec![0, 1]);
    assert_eq!(set(entry[3].as_ref().unwrap()), vec![0]);
    assert!(entry[4].is_none());
}

#[test]
fn a_loop_keeps_what_every_iteration_leaves_initialized() {
    let blocks = vec![
        BasicBlock { statements: vec![assign(1, Rvalue::Use(one()))], terminator: Terminator::Goto(BlockId(1)) },
        BasicBlock {
            statements: vec![assign(2, Rvalue::Use(Operand::Copy(place(1))))],
            terminator: Terminator::Branch {
                cond: Operand::Copy(place(0)),
                then_block: BlockId(1),
                else_block: BlockId(2),
            },
        },
        BasicBlock { statements: vec![], terminator: Terminator::Return(Operand::Copy(place(2))) },
    ];
    let entry = solve_init(&blocks, 1, 3);
    assert_eq!(set(entry[0].as_ref().unwrap()), vec![0]);
    assert_eq!(set(entry[1].as_ref().unwrap()), vec![0, 1]);
    assert_eq!(set(entry[2].as_ref().unwrap()), vec![0, 1, 2]);
}

#[test]
fn a_back_edge_into_the_entry_narrows_the_parameters() {
    let blocks = vec![
        BasicBlock { statements: vec![], terminator: Terminator::Goto(BlockId(1)) },
        BasicBlock {
            statements: vec![Statement::Drop { place: place(1) }],
            terminator: Terminator::Branch {
                cond: Operand::Copy(place(0)),
                then_block: BlockId(0),
                else_block: BlockId(2),
            },
        },
        BasicBlock { statements: vec![], terminator: Terminator::Return(Operand::Copy(place(0))) },
    ];
    let entry = solve_init(&blocks, 2, 2);
    assert_eq!(set(entry[0].as_ref().unwrap()), vec![0]);
    assert_eq!(set(entry[1].as_ref().unwrap()), vec![0]);
    assert_eq!(set(entry[2].as_ref().unwrap()), vec![0]);
}

#[test]
fn no_blocks_give_no_entry_sets() {
    assert!(solve_init(&Vec::new(), 0, 0).is_empty());
}

#[test]
fn a_clean_function_has_no_faults() {
    assert_eq!(check_dataflow(&diamond(), 1, 3), vec![]);
}

#[test]
fn reading_a_moved_parameter_is_a_use_after_move() {
    let blocks = vec![BasicBlock {
        statements: vec![assign(1, Rvalue::Use(Operand::Move(place(0))))],
        terminator: Terminator::Return(Operand::Copy(place(0))),
    }];
    assert_eq!(check_dataflow(&blocks, 1, 2), vec![FlowFault::UseMoved { block: 0, local: 0 }]);
}

#[test]
fn reading_a_never_defined_local_is_a_use_before_init() {
    let blocks = vec![BasicBlock { statements: vec![], terminator: Terminator::Return(Operand::Copy(place(2))) }];
    assert_eq!(check_dataflow(&blocks, 1, 3), vec![FlowFault::UseUninit { block: 0, local: 2 }]);
}

#[test]
fn a_local_defined_on_one_branch_is_not_initialized_after_the_join() {
    let blocks = vec![
        BasicBlock {
            statements: vec![],
            terminator: Terminator::Branch {
                cond: Operand::Copy(place(0)),
                then_block: BlockId(1),
                else_block: BlockId(2),
            },
        },
        BasicBlock { statements: vec![assign(1, Rvalue::Use(one()))], terminator: Terminator::Goto(BlockId(3)) },
        BasicBlock { statements: vec![], terminator: Terminator::Goto(BlockId(3)) },
        BasicBlock { statements: vec![], terminator: Terminator::Return(Operand::Copy(place(1))) },
    ];
    assert_eq!(check_dataflow(&blocks, 1, 2), vec![FlowFault::UseMoved { block: 3, local: 1 }]);
}

#[test]
fn a_call_that_borrows_and_moves_one_local_is_reported_once() {
    let call = Statement::Call {
        dest: place(3),
        callee: Callee::Direct(0),
        args: vec![
            Arg::Borrow(place(2)),
            Arg::Value(Operand::Move(place(2))),
            Arg::BorrowMut(place(0)),
            Arg::Value(Operand::Move(place(0))),
            Arg::Borrow(place(1)),
        ],
    };
    let blocks = vec![BasicBlock { statements: vec![call], terminator: Terminator::Return(Operand::Copy(place(3))) }];
    assert_eq!(
        check_dataflow(&blocks, 3, 4),
        vec![FlowFault::BorrowAndMove { block: 0, local: 0 }, FlowFault::BorrowAndMove { block: 0, local: 2 }]
    );
}

#[test]
fn unreachable_blocks_are_not_checked() {
    let blocks = vec![
        BasicBlock { statements: vec![], terminator: Terminator::Return(Operand::Copy(place(0))) },
        BasicBlock { statements: vec![], terminator: Terminator::Return(Operand::Copy(place(1))) },
    ];
    assert_eq!(check_dataflow(&blocks, 1, 2), vec![]);
}

#[test]
fn fault_messages_and_codes() {
    let moved = FlowFault::UseMoved { block: 3, local: 1 };
    assert_eq!(moved.message("f"), "fn `f`: bb3 reads _1 after it was moved out");
    assert_eq!(moved.code(), 5);
    let uninit = FlowFault::UseUninit { block: 0, local: 12 };
    assert_eq!(uninit.message("main"), "fn `main`: bb0 reads _12 which is not initialized on every path");
    assert_eq!(uninit.code(), 4);
    let both = FlowFault::BorrowAndMove { block: 10, local: 2 };
    assert_eq!(both.message("g"), "fn `g`: bb10 both borrows and moves _2 in one call");
    assert_eq!(both.code(), 9);
}

#[test]
fn initialized_locals_are_parameters_or_defined() {
    let blocks = diamond();
    let entry = solve_init(&blocks, 1, 3);
    let ever = ever_defined(&blocks, 1, 3);
    for e in entry.iter().flatten() {
        for local in set(e) {
            assert!(ever[local as usize], "_{local} is initialized but never defined");
        }
    }
}

#[test]
fn the_range_tests_find_undeclared_locals_and_missing_blocks() {
    assert!(statement_locals_in_range(&assign(2, Rvalue::Use(Operand::Move(place(1)))), 3));
    assert!(!statement_locals_in_range(&assign(3, Rvalue::Use(Operand::Move(place(1)))), 3));
    assert!(!statement_locals_in_range(&Statement::Drop { place: place(5) }, 3));
    assert!(locals_in_range(&diamond(), 3));
    assert!(!locals_in_range(&diamond(), 2));
    assert!(targets_exist(&diamond()));
    let dangling = vec![BasicBlock { statements: vec![], terminator: Terminator::Goto(BlockId(1)) }];
    assert!(!targets_exist(&dangling));
}

#[test]
fn the_guarded_check_runs_only_on_sound_bodies() {
    assert_eq!(dataflow_if_sound(&diamond(), 1, 3), Some(vec![]));
    assert_eq!(dataflow_if_sound(&diamond(), 1, 2), None);
    assert_eq!(dataflow_if_sound(&diamond(), 4, 3), None);
    let dangling = vec![BasicBlock { statements: vec![], terminator: Terminator::Goto(BlockId(7)) }];
    assert_eq!(dataflow_if_sound(&dangling, 0, 1), None);
    let blocks = vec![BasicBlock {
        statements: vec![assign(1, Rvalue::Use(Operand::Move(place(0)))), assign(1, Rvalue::Use(Operand::Copy(place(0))))],
        terminator: Terminator::Return(Operand::Copy(place(1))),
    }];
    assert_eq!(dataflow_if_sound(&blocks, 1, 2), Some(check_dataflow(&blocks, 1, 2)));
    assert_eq!(dataflow_if_sound(&blocks, 1, 2), Some(vec![FlowFault::UseMoved { block: 0, local: 0 }]));
}
