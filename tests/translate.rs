use bfjit::bfir::{optimize, translate, Error, Op as IrOp};
use bfjit::vm::Op;

#[test]
fn coalesced_increments_match_split_source() {
    let whole = translate(b"+++").unwrap();
    let mut split_source = b"++".to_vec();
    split_source.extend_from_slice(b"+");
    let split = translate(&split_source).unwrap();
    assert_eq!(whole, vec![Op::Add { constant: 3 }, Op::Done]);
    assert_eq!(whole, split);
}

#[test]
fn shifts_coalesce_and_cancel() {
    assert_eq!(
        translate(b">><").unwrap(),
        vec![Op::Shift { shift_amount: 1 }, Op::Done]
    );
}

#[test]
fn increments_wrap_when_coalesced() {
    let source = vec![b'+'; 256];
    assert_eq!(translate(&source).unwrap(), vec![Op::Add { constant: 0 }, Op::Done]);
    let source = vec![b'+'; 130];
    assert_eq!(
        translate(&source).unwrap(),
        vec![Op::Add { constant: -126 }, Op::Done]
    );
}

#[test]
fn other_bytes_are_ignored() {
    assert_eq!(
        translate(b"a+ b\n.").unwrap(),
        vec![Op::Add { constant: 1 }, Op::Write, Op::Done]
    );
    assert_eq!(translate(b"").unwrap(), vec![Op::Done]);
}

#[test]
fn zeroing_loop_becomes_assign() {
    assert_eq!(translate(b"[-]").unwrap(), vec![Op::Assign { constant: 0 }, Op::Done]);
    assert_eq!(translate(b"[+]").unwrap(), vec![Op::Assign { constant: 0 }, Op::Done]);
}

#[test]
fn zeroing_loop_fuses_with_following_add() {
    assert_eq!(
        translate(b"[-]+++").unwrap(),
        vec![Op::Assign { constant: 3 }, Op::Done]
    );
}

#[test]
fn loop_with_zero_delta_is_kept() {
    assert_eq!(
        translate(b"[+-]").unwrap(),
        vec![
            Op::JumpIfZero { offset: 3 },
            Op::Add { constant: 0 },
            Op::JumpIfNonZero { offset: 1 },
            Op::Done
        ]
    );
}

#[test]
fn loops_resolve_to_jumps_past_their_partner() {
    assert_eq!(
        translate(b"++++[->++<]").unwrap(),
        vec![
            Op::Add { constant: 4 },
            Op::JumpIfZero { offset: 7 },
            Op::Add { constant: -1 },
            Op::Shift { shift_amount: 1 },
            Op::Add { constant: 2 },
            Op::Shift { shift_amount: -1 },
            Op::JumpIfNonZero { offset: 2 },
            Op::Done
        ]
    );
}

#[test]
fn nested_loops_resolve() {
    assert_eq!(
        translate(b"[>[.]]").unwrap(),
        vec![
            Op::JumpIfZero { offset: 6 },
            Op::Shift { shift_amount: 1 },
            Op::JumpIfZero { offset: 5 },
            Op::Write,
            Op::JumpIfNonZero { offset: 3 },
            Op::JumpIfNonZero { offset: 1 },
            Op::Done
        ]
    );
}

#[test]
fn excess_close_is_mismatched_end() {
    assert_eq!(translate(b"]").unwrap_err(), Error::MismatchedLoopEnd);
    assert_eq!(translate(b"[]]").unwrap_err(), Error::MismatchedLoopEnd);
    assert_eq!(translate(b"][").unwrap_err(), Error::MismatchedLoopEnd);
}

#[test]
fn excess_open_is_mismatched_begin() {
    assert_eq!(translate(b"[").unwrap_err(), Error::MismatchedLoopBegin);
    assert_eq!(translate(b"[[]").unwrap_err(), Error::MismatchedLoopBegin);
}

#[test]
fn balanced_source_ends_in_one_done() {
    let program = translate(b"+[>+[-<]>.]<").unwrap();
    assert_eq!(program.last(), Some(&Op::Done));
    assert_eq!(program.iter().filter(|op| **op == Op::Done).count(), 1);
}

#[test]
fn assign_then_add_fuses() {
    let input = vec![
        IrOp::Concrete(Op::Assign { constant: 5 }),
        IrOp::Concrete(Op::Add { constant: 3 }),
    ];
    assert_eq!(optimize(&input), vec![IrOp::Concrete(Op::Assign { constant: 8 })]);
}

#[test]
fn assign_then_add_fuses_with_wraparound() {
    let input = vec![
        IrOp::Concrete(Op::Assign { constant: 250u8 as i8 }),
        IrOp::Concrete(Op::Add { constant: 10 }),
    ];
    assert_eq!(optimize(&input), vec![IrOp::Concrete(Op::Assign { constant: 4 })]);
}

#[test]
fn optimizer_leaves_longer_loops() {
    let input = vec![
        IrOp::LoopBegin,
        IrOp::Concrete(Op::Add { constant: -1 }),
        IrOp::Concrete(Op::Write),
        IrOp::LoopEnd,
    ];
    assert_eq!(optimize(&input), input);
}

#[test]
fn long_runs_of_moves_keep_their_direction() {
    let mut source = vec![b'>'; 128];
    source.push(b'+');
    assert_eq!(
        translate(&source).unwrap(),
        vec![
            Op::Shift { shift_amount: 127 },
            Op::Shift { shift_amount: 1 },
            Op::Add { constant: 1 },
            Op::Done
        ]
    );
    let source = vec![b'<'; 300];
    assert_eq!(
        translate(&source).unwrap(),
        vec![
            Op::Shift { shift_amount: -128 },
            Op::Shift { shift_amount: -128 },
            Op::Shift { shift_amount: -44 },
            Op::Done
        ]
    );
}

#[test]
fn long_runs_of_increments_wrap_like_cells() {
    let source = vec![b'+'; 300];
    assert_eq!(translate(&source).unwrap(), vec![Op::Add { constant: 44 }, Op::Done]);
}
