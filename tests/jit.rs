use bfjit::bfir::translate;
use bfjit::jit::{lower, CodeGenError, Lowered};
use bfjit::vm::Op;

#[test]
fn straight_line_program_lowers_in_order() {
    let program = translate(b"+>[-]<.").unwrap();
    assert_eq!(
        lower(&program),
        Ok(vec![
            Lowered::AddCell { constant: 1 },
            Lowered::MoveCursor { amount: 1 },
            Lowered::StoreCell { constant: 0 },
            Lowered::MoveCursor { amount: -1 },
            Lowered::PutCell,
            Lowered::Return,
        ])
    );
}

#[test]
fn loop_creates_seals_and_switches_blocks() {
    let program = translate(b"[>]").unwrap();
    assert_eq!(
        lower(&program),
        Ok(vec![
            Lowered::CreateBlock,
            Lowered::CreateBlock,
            Lowered::BranchIfZero { block: 0 },
            Lowered::Jump { block: 1 },
            Lowered::SwitchToBlock { block: 1 },
            Lowered::MoveCursor { amount: 1 },
            Lowered::BranchIfNonZero { block: 1 },
            Lowered::Jump { block: 0 },
            Lowered::SealBlock { block: 1 },
            Lowered::SealBlock { block: 0 },
            Lowered::SwitchToBlock { block: 0 },
            Lowered::Return,
        ])
    );
}

#[test]
fn read_has_no_lowering() {
    let program = translate(b",").unwrap();
    assert_eq!(lower(&program), Err(CodeGenError::UnimplementedRead));
}

#[test]
fn backward_jump_without_forward_one_is_rejected() {
    let program = vec![Op::JumpIfNonZero { offset: 0 }, Op::Done];
    assert_eq!(lower(&program), Err(CodeGenError::UnmatchedLoop));
}

#[test]
fn translated_nested_loops_lower_with_blocks_created_first() {
    let program = translate(b"++[>+[-<]>.]<[->+<]").unwrap();
    let plan = lower(&program).unwrap();
    let mut created = 0usize;
    for step in &plan {
        match *step {
            Lowered::CreateBlock => created += 1,
            Lowered::BranchIfZero { block }
            | Lowered::BranchIfNonZero { block }
            | Lowered::Jump { block }
            | Lowered::SealBlock { block }
            | Lowered::SwitchToBlock { block } => assert!(block < created),
            _ => {}
        }
    }
    assert_eq!(plan.last(), Some(&Lowered::Return));
}
