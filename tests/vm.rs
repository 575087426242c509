use bfjit::bfir::translate;
use bfjit::vm::{Event, Op, Vm, VmError};

fn machine(source: &[u8], tape: Vec<u8>) -> Vm {
    Vm::new(translate(source).unwrap(), tape)
}

#[test]
fn multiplication_loop_leaves_zero_and_eight() {
    let mut vm = machine(b"++++[->++<]", vec![0; 4]);
    let mut output = Vec::new();
    assert_eq!(vm.run(1000, &mut output), Ok(true));
    assert_eq!(vm.tape[0], 0);
    assert_eq!(vm.tape[1], 8);
    assert!(output.is_empty());
}

#[test]
fn multiplication_loop_on_two_cells() {
    let mut vm = machine(b"++++[->++<]", vec![0; 2]);
    let mut output = Vec::new();
    assert_eq!(vm.run(1000, &mut output), Ok(true));
    assert_eq!(vm.tape, vec![0, 8]);
}

#[test]
fn unchecked_run_matches_checked_run() {
    let mut checked = machine(b"++++[->++<]>>+++.", vec![0; 4]);
    let mut unchecked = machine(b"++++[->++<]>>+++.", vec![0; 4]);
    let mut out_checked = Vec::new();
    let mut out_unchecked = Vec::new();
    assert_eq!(checked.run(1000, &mut out_checked), Ok(true));
    assert_eq!(unchecked.run_unchecked(1000, &mut out_unchecked), Ok(true));
    assert_eq!(checked.tape, unchecked.tape);
    assert_eq!(out_checked, out_unchecked);
    assert_eq!(out_checked, vec![3]);
}

#[test]
fn zeroing_loop_clears_any_cell() {
    for start in [0u8, 1, 2, 7, 128, 200, 255] {
        let mut vm = machine(b"[-]", vec![start, 9]);
        let mut output = Vec::new();
        assert_eq!(vm.run(10, &mut output), Ok(true));
        assert_eq!(vm.tape, vec![0, 9]);
    }
}

#[test]
fn write_emits_the_cell() {
    let mut vm = machine(b"+++.>++.", vec![0; 2]);
    let mut output = Vec::new();
    assert_eq!(vm.run(100, &mut output), Ok(true));
    assert_eq!(output, vec![3, 2]);
}

#[test]
fn cells_wrap_around() {
    let mut vm = machine(b"-", vec![0]);
    let mut output = Vec::new();
    assert_eq!(vm.run(10, &mut output), Ok(true));
    assert_eq!(vm.tape, vec![255]);
}

#[test]
fn read_is_fatal_in_checked_run() {
    let mut vm = machine(b",", vec![0; 4]);
    let mut output = Vec::new();
    assert_eq!(vm.run(10, &mut output), Err(VmError::UnimplementedRead));
}

#[test]
fn read_is_fatal_in_unchecked_run() {
    let mut vm = machine(b",", vec![0; 4]);
    let mut output = Vec::new();
    assert_eq!(vm.run_unchecked(10, &mut output), Err(VmError::UnimplementedRead));
}

#[test]
fn moving_left_of_the_tape_is_out_of_bounds() {
    let mut vm = machine(b"+<+", vec![0; 3]);
    let mut output = Vec::new();
    assert_eq!(vm.run(10, &mut output), Err(VmError::TapeOutOfBounds));
    assert_eq!(vm.tape, vec![1, 0, 0]);
    assert_eq!(vm.program_pointer, 1);
    assert_eq!(vm.tape_pointer, 0);
}

#[test]
fn moving_right_of_the_tape_is_out_of_bounds() {
    let mut vm = machine(b">>+", vec![0; 2]);
    let mut output = Vec::new();
    assert_eq!(vm.run(10, &mut output), Err(VmError::TapeOutOfBounds));
    assert_eq!(vm.tape, vec![0, 0]);
}

#[test]
fn empty_tape_is_out_of_bounds_on_access() {
    let mut vm = machine(b"+", Vec::new());
    let mut output = Vec::new();
    assert_eq!(vm.run(10, &mut output), Err(VmError::TapeOutOfBounds));
}

#[test]
fn run_stops_when_fuel_runs_out() {
    let mut vm = machine(b"+[]", vec![0]);
    let mut output = Vec::new();
    assert_eq!(vm.run(50, &mut output), Ok(false));
    assert_eq!(vm.tape, vec![1]);
}

#[test]
fn single_steps_report_events() {
    let mut vm = Vm::new(
        vec![Op::Assign { constant: 65 }, Op::Write, Op::Done],
        vec![0],
    );
    assert_eq!(vm.step(), Ok(Event::Continued));
    assert_eq!(vm.step(), Ok(Event::Wrote(65)));
    assert_eq!(vm.step(), Ok(Event::Halted));
    assert_eq!(vm.step(), Ok(Event::Halted));
    assert_eq!(vm.program_pointer, 2);
}

#[test]
fn long_run_of_moves_reaches_far_cell() {
    let mut source = vec![b'>'; 128];
    source.push(b'+');
    let mut vm = machine(&source, vec![0; 30000]);
    let mut output = Vec::new();
    assert_eq!(vm.run(100, &mut output), Ok(true));
    assert_eq!(vm.tape[128], 1);
    assert_eq!(vm.tape.iter().map(|c| *c as u32).sum::<u32>(), 1);
}

#[test]
fn multiplication_loop_leaves_other_cells_zero() {
    let mut vm = machine(b"++++[->++<]", vec![0; 10]);
    let mut output = Vec::new();
    assert_eq!(vm.run(1000, &mut output), Ok(true));
    assert_eq!(vm.tape, vec![0, 8, 0, 0, 0, 0, 0, 0, 0, 0]);
}
