use vstd::prelude::*;

verus! {

/// One instruction of a resolved program.
#[derive(Clone, Copy, Debug, PartialEq, Eq, Structural)]
pub enum Op {
    Add { constant: i8 },
    Assign { constant: i8 },
    Shift { shift_amount: i8 },
    Write,
    Read,
    JumpIfZero { offset: usize },
    JumpIfNonZero { offset: usize },
    Done,
}

#[derive(Clone, Copy, Debug, PartialEq, Eq, Structural)]
pub enum VmError {
    /// The cursor left the tape, or a cell was read outside it.
    TapeOutOfBounds,
    /// The input command is not supported: reaching it ends the run.
    UnimplementedRead,
}

/// What one executed instruction did, besides changing the machine state.
#[derive(Clone, Copy, Debug, PartialEq, Eq, Structural)]
pub enum Event {
    Continued,
    Wrote(u8),
    Halted,
}

pub open spec fn jump_in_range(op: Op, n: nat) -> bool {
    match op {
        Op::JumpIfZero { offset } => offset < n,
        Op::JumpIfNonZero { offset } => offset < n,
        _ => true,
    }
}

/// A program ends in its only `Done`, and every jump lands inside it.
pub open spec fn well_formed(p: Seq<Op>) -> bool {
    &&& p.len() > 0
    &&& p.last() == Op::Done
    &&& forall|i: int| 0 <= i < p.len() - 1 ==> p[i] != Op::Done
    &&& forall|i: int| 0 <= i < p.len() ==> jump_in_range(#[trigger] p[i], p.len())
}

/// The abstract machine state: tape contents, program counter and cursor.
pub struct State {
    pub tape: Seq<u8>,
    pub pc: int,
    pub cursor: int,
}

pub enum Transition {
    Next(State, Option<u8>),
    Halted,
    Fault(VmError),
}

pub open spec fn in_tape(s: State, i: int) -> bool {
    0 <= i < s.tape.len()
}

pub open spec fn moved(s: State, pc: int, cursor: int) -> State {
    State { tape: s.tape, pc, cursor }
}

pub open spec fn stored(s: State, value: u8) -> State {
    State { tape: s.tape.update(s.cursor, value), pc: s.pc + 1, cursor: s.cursor }
}

/// The effect of executing the instruction at the program counter, with
/// every tape access checked against the tape's bounds. A shift is checked
/// when it happens: the cursor never leaves the tape, so its arithmetic never
/// wraps, and a shift that would take it off faults without changing anything.
pub open spec fn step(p: Seq<Op>, s: State) -> Transition {
    let here = in_tape(s, s.cursor);
    let next = s.pc + 1;
    match p[s.pc] {
        Op::Add { constant } => if here {
            Transition::Next(stored(s, s.tape[s.cursor].wrapping_add(constant as u8)), None)
        } else {
            Transition::Fault(VmError::TapeOutOfBounds)
        },
        Op::Assign { constant } => if here {
            Transition::Next(stored(s, constant as u8), None)
        } else {
            Transition::Fault(VmError::TapeOutOfBounds)
        },
        Op::Shift { shift_amount } => if in_tape(s, s.cursor + shift_amount) {
            Transition::Next(moved(s, next, s.cursor + shift_amount), None)
        } else {
            Transition::Fault(VmError::TapeOutOfBounds)
        },
        Op::Write => if here {
            Transition::Next(moved(s, next, s.cursor), Some(s.tape[s.cursor]))
        } else {
            Transition::Fault(VmError::TapeOutOfBounds)
        },
        Op::Read => Transition::Fault(VmError::UnimplementedRead),
        Op::JumpIfZero { offset } => if here {
            Transition::Next(
                moved(s, if s.tape[s.cursor] == 0 { offset as int } else { next }, s.cursor),
                None,
            )
        } else {
            Transition::Fault(VmError::TapeOutOfBounds)
        },
        Op::JumpIfNonZero { offset } => if here {
            Transition::Next(
                moved(s, if s.tape[s.cursor] != 0 { offset as int } else { next }, s.cursor),
                None,
            )
        } else {
            Transition::Fault(VmError::TapeOutOfBounds)
        },
        Op::Done => Transition::Halted,
    }
}

pub open spec fn written(o: Option<u8>) -> Seq<u8> {
    match o {
        Some(b) => seq![b],
        None => Seq::empty(),
    }
}

/// At most `fuel` steps from `s`: the final state, the bytes written, and
/// `Ok(true)` when `Done` was reached, `Ok(false)` when the fuel ran out.
pub open spec fn run(p: Seq<Op>, s: State, fuel: nat) -> (State, Seq<u8>, Result<bool, VmError>)
    decreases fuel,
{
    if fuel == 0 {
        (s, Seq::empty(), Ok(false))
    } else {
        match step(p, s) {
            Transition::Halted => (s, Seq::empty(), Ok(true)),
            Transition::Fault(e) => (s, Seq::empty(), Err(e)),
            Transition::Next(t, o) => {
                let rest = run(p, t, (fuel - 1) as nat);
                (rest.0, written(o) + rest.1, rest.2)
            },
        }
    }
}

pub open spec fn event_of(o: Option<u8>) -> Event {
    match o {
        Some(b) => Event::Wrote(b),
        None => Event::Continued,
    }
}

pub open spec fn jumps_if_zero_to(op: Op, target: int) -> bool {
    match op {
        Op::JumpIfZero { offset } => offset == target,
        _ => false,
    }
}

pub open spec fn jumps_if_nonzero_to(op: Op, target: int) -> bool {
    match op {
        Op::JumpIfNonZero { offset } => offset == target,
        _ => false,
    }
}

/// The jump at `j` and the one just before its target point one past each
/// other, the forward one first.
pub open spec fn jump_paired(p: Seq<Op>, j: int) -> bool {
    match p[j] {
        Op::JumpIfZero { offset } => j + 2 <= offset <= p.len() && jumps_if_nonzero_to(
            p[offset - 1],
            j + 1,
        ),
        Op::JumpIfNonZero { offset } => 1 <= offset <= j && jumps_if_zero_to(p[offset - 1], j + 1),
        _ => true,
    }
}

/// Every loop's two jumps point one past each other.
pub open spec fn loops_paired(p: Seq<Op>) -> bool {
    forall|j: int| 0 <= j < p.len() ==> #[trigger] jump_paired(p, j)
}

/// A step from a valid program counter of a well-formed program keeps the
/// program counter valid and the tape's length.
pub proof fn lemma_step_stays_in_program(p: Seq<Op>, s: State)
    requires
        well_formed(p),
        0 <= s.pc < p.len(),
    ensures
        step(p, s) matches Transition::Next(t, _) ==> 0 <= t.pc < p.len() && t.tape.len()
            == s.tape.len(),
        p[s.pc] != Op::Done ==> s.pc + 1 < p.len(),
{
    let op = p[s.pc];
    assert(jump_in_range(op, p.len()));
    if s.pc == p.len() - 1 {
        assert(op == Op::Done);
    }
}

/// A shift whose target lies outside the tape stops the checked machine
/// with `TapeOutOfBounds`, before any later instruction, and changes nothing.
pub proof fn lemma_shift_out_of_tape_faults(p: Seq<Op>, s: State, fuel: nat)
    requires
        0 <= s.pc < p.len(),
        fuel > 0,
        p[s.pc] matches Op::Shift { shift_amount } && !in_tape(s, s.cursor + shift_amount),
    ensures
        run(p, s, fuel) == (s, Seq::<u8>::empty(), Err::<bool, VmError>(VmError::TapeOutOfBounds)),
{
}

/// An interpreter over an owned program and tape.
pub struct Vm {
    pub program: Vec<Op>,
    pub tape: Vec<u8>,
    pub program_pointer: usize,
    pub tape_pointer: usize,
}

impl Vm {
    pub open spec fn state(&self) -> State {
        State { tape: self.tape@, pc: self.program_pointer as int, cursor: self.tape_pointer as int }
    }

    pub open spec fn wf(&self) -> bool {
        well_formed(self.program@) && self.program_pointer < self.program@.len()
    }

    /// A machine at the start of `program`, with its cursor on the first cell.
    pub fn new(program: Vec<Op>, tape: Vec<u8>) -> (r: Vm)
        ensures
            r.program == program,
            r.tape == tape,
            r.program_pointer == 0,
            r.tape_pointer == 0,
    {
        Vm { program, tape, program_pointer: 0, tape_pointer: 0 }
    }

    fn tape_get(&self, index: usize) -> (r: Result<u8, VmError>)
        ensures
            index < self.tape@.len() ==> r == Ok::<u8, VmError>(self.tape@[index as int]),
            index >= self.tape@.len() ==> r == Err::<u8, VmError>(VmError::TapeOutOfBounds),
    {
        if index < self.tape.len() {
            Ok(self.tape[index])
        } else {
            Err(VmError::TapeOutOfBounds)
        }
    }

    fn tape_set(&mut self, index: usize, value: u8) -> (r: Result<(), VmError>)
        ensures
            final(self).program == old(self).program,
            final(self).program_pointer == old(self).program_pointer,
            final(self).tape_pointer == old(self).tape_pointer,
            index < old(self).tape@.len() ==> r == Ok::<(), VmError>(()) && final(self).tape@
                == old(self).tape@.update(index as int, value),
            index >= old(self).tape@.len() ==> r == Err::<(), VmError>(VmError::TapeOutOfBounds)
                && final(self).tape@ == old(self).tape@,
    {
        if index < self.tape.len() {
            self.tape.set(index, value);
            Ok(())
        } else {
            Err(VmError::TapeOutOfBounds)
        }
    }
    /// Moves the cursor by `amount` when the result stays on the tape.
    fn shifted(&self, amount: i8) -> (r: Result<usize, VmError>)
        ensures
            in_tape(self.state(), self.tape_pointer + amount) ==> (r matches Ok(c) && c
                == self.tape_pointer + amount),
            !in_tape(self.state(), self.tape_pointer + amount) ==> r == Err::<usize, VmError>(
                VmError::TapeOutOfBounds,
            ),
    {
        let len = self.tape.len();
        let cursor = self.tape_pointer;
        if amount >= 0 {
            let distance = amount as usize;
            assert(distance == amount);
            if cursor < len && distance < len - cursor {
                Ok(cursor + distance)
            } else {
                Err(VmError::TapeOutOfBounds)
            }
        } else {
            let distance = (0 - (amount as i16)) as usize;
            assert(distance == -amount);
            if distance <= cursor && cursor - distance < len {
                Ok(cursor - distance)
            } else {
                Err(VmError::TapeOutOfBounds)
            }
        }
    }

    /// Executes the instruction at the program counter, checking every tape
    /// access. On a fault nothing changes.
    pub fn step(&mut self) -> (r: Result<Event, VmError>)
        requires
            old(self).wf(),
        ensures
            final(self).wf(),
            final(self).program == old(self).program,
            match step(old(self).program@, old(self).state()) {
                Transition::Next(t, o) => r == Ok::<Event, VmError>(event_of(o))
                    && final(self).state() == t,
                Transition::Halted => r == Ok::<Event, VmError>(Event::Halted)
                    && final(self).state() == old(self).state(),
                Transition::Fault(e) => r == Err::<Event, VmError>(e)
                    && final(self).state() == old(self).state(),
            },
    {
        proof {
            lemma_step_stays_in_program(self.program@, self.state());
        }
        let pc = self.program_pointer;
        let cursor = self.tape_pointer;
        let op = self.program[pc];
        let len = self.program.len();
        assert(op != Op::Done ==> pc + 1 < len);
        match op {
            Op::Add { constant } => {
                let value = self.tape_get(cursor)?;
                self.tape_set(cursor, value.wrapping_add(#[verifier::truncate] (constant as u8)))?;
                self.program_pointer = pc + 1;
                Ok(Event::Continued)
            },
            Op::Assign { constant } => {
                self.tape_set(cursor, #[verifier::truncate] (constant as u8))?;
                self.program_pointer = pc + 1;
                Ok(Event::Continued)
            },
            Op::Shift { shift_amount } => {
                let target = self.shifted(shift_amount)?;
                self.tape_pointer = target;
                self.program_pointer = pc + 1;
                Ok(Event::Continued)
            },
            Op::Write => {
                let value = self.tape_get(cursor)?;
                self.program_pointer = pc + 1;
                Ok(Event::Wrote(value))
            },
            Op::Read => Err(VmError::UnimplementedRead),
            Op::JumpIfZero { offset } => {
                let value = self.tape_get(cursor)?;
                self.program_pointer = if value == 0 { offset } else { pc + 1 };
                Ok(Event::Continued)
            },
            Op::JumpIfNonZero { offset } => {
                let value = self.tape_get(cursor)?;
                self.program_pointer = if value != 0 { offset } else { pc + 1 };
                Ok(Event::Continued)
            },
            Op::Done => Ok(Event::Halted),
        }
    }
    /// Runs at most `fuel` checked steps, appending each written byte to
    /// `output`. Returns `Ok(true)` once `Done` is reached and `Ok(false)`
    /// when the fuel runs out first; a fault stops the run at the faulting
    /// instruction.
    pub fn run(&mut self, fuel: usize, output: &mut Vec<u8>) -> (r: Result<bool, VmError>)
        requires
            old(self).wf(),
        ensures
            final(self).wf(),
            final(self).program@ == old(self).program@,
            ({
                let res = run(old(self).program@, old(self).state(), fuel as nat);
                &&& final(self).state() == res.0
                &&& final(output)@ == old(output)@ + res.1
                &&& r == res.2
            }),
    {
        let ghost p = self.program@;
        let ghost s0 = self.state();
        let ghost out0 = output@;
        let ghost mut acc: Seq<u8> = Seq::empty();
        let mut i: usize = 0;
        while i < fuel
            invariant
                i <= fuel,
                self.wf(),
                self.program@ == p,
                p == old(self).program@,
                s0 == old(self).state(),
                out0 == old(output)@,
                output@ == out0 + acc,
                ({
                    let whole = run(p, s0, fuel as nat);
                    let rest = run(p, self.state(), (fuel - i) as nat);
                    whole == (rest.0, acc + rest.1, rest.2)
                }),
            decreases fuel - i,
        {
            let ghost before = self.state();
            proof {
                assert(run(p, before, (fuel - i) as nat) == match step(p, before) {
                    Transition::Halted => (before, Seq::<u8>::empty(), Ok::<bool, VmError>(true)),
                    Transition::Fault(e) => (before, Seq::<u8>::empty(), Err(e)),
                    Transition::Next(t, o) => {
                        let rest = run(p, t, (fuel - i - 1) as nat);
                        (rest.0, written(o) + rest.1, rest.2)
                    },
                });
            }
            match self.step() {
                Ok(Event::Halted) => {
                    assert(acc + Seq::<u8>::empty() =~= acc);
                    return Ok(true);
                },
                Ok(Event::Wrote(b)) => {
                    output.push(b);
                    proof {
                        let rest = run(p, self.state(), (fuel - i - 1) as nat);
                        assert(acc + (seq![b] + rest.1) =~= acc.push(b) + rest.1);
                        acc = acc.push(b);
                    }
                },
                Ok(Event::Continued) => {
                    proof {
                        let rest = run(p, self.state(), (fuel - i - 1) as nat);
                        assert(Seq::<u8>::empty() + rest.1 =~= rest.1);
                    }
                },
                Err(e) => {
                    assert(acc + Seq::<u8>::empty() =~= acc);
                    return Err(e);
                },
            }
            i = i + 1;
        }
        assert(acc + Seq::<u8>::empty() =~= acc);
        Ok(false)
    }

    /// Executes the instruction at the program counter without testing tape
    /// bounds; the caller guarantees that the instruction stays on the tape.
    pub fn step_unchecked(&mut self) -> (r: Result<Event, VmError>)
        requires
            old(self).wf(),
            !(step(old(self).program@, old(self).state()) matches Transition::Fault(
                VmError::TapeOutOfBounds,
            )),
        ensures
            final(self).wf(),
            final(self).program@ == old(self).program@,
            match step(old(self).program@, old(self).state()) {
                Transition::Next(t, o) => r == Ok::<Event, VmError>(event_of(o))
                    && final(self).state() == t,
                Transition::Halted => r == Ok::<Event, VmError>(Event::Halted)
                    && final(self).state() == old(self).state(),
                Transition::Fault(e) => r == Err::<Event, VmError>(e)
                    && final(self).state() == old(self).state(),
            },
    {
        proof {
            lemma_step_stays_in_program(self.program@, self.state());
        }
        let pc = self.program_pointer;
        let cursor = self.tape_pointer;
        let op = self.program[pc];
        let len = self.program.len();
        assert(op != Op::Done ==> pc + 1 < len);
        match op {
            Op::Add { constant } => {
                let value = self.tape[cursor].wrapping_add(#[verifier::truncate] (constant as u8));
                self.tape.set(cursor, value);
                self.program_pointer = pc + 1;
                Ok(Event::Continued)
            },
            Op::Assign { constant } => {
                self.tape.set(cursor, #[verifier::truncate] (constant as u8));
                self.program_pointer = pc + 1;
                Ok(Event::Continued)
            },
            Op::Shift { shift_amount } => {
                let tape_len = self.tape.len();
                if shift_amount >= 0 {
                    self.tape_pointer = cursor + shift_amount as usize;
                } else {
                    self.tape_pointer = cursor - (0 - (shift_amount as i16)) as usize;
                }
                self.program_pointer = pc + 1;
                Ok(Event::Continued)
            },
            Op::Write => {
                self.program_pointer = pc + 1;
                Ok(Event::Wrote(self.tape[cursor]))
            },
            Op::Read => Err(VmError::UnimplementedRead),
            Op::JumpIfZero { offset } => {
                self.program_pointer = if self.tape[cursor] == 0 { offset } else { pc + 1 };
                Ok(Event::Continued)
            },
            Op::JumpIfNonZero { offset } => {
                self.program_pointer = if self.tape[cursor] != 0 { offset } else { pc + 1 };
                Ok(Event::Continued)
            },
            Op::Done => Ok(Event::Halted),
        }
    }

    /// Runs as `run` does, without testing tape bounds: the caller
    /// guarantees that the checked run would not leave the tape.
    pub fn run_unchecked(&mut self, fuel: usize, output: &mut Vec<u8>) -> (r: Result<bool, VmError>)
        requires
            old(self).wf(),
            run(old(self).program@, old(self).state(), fuel as nat).2 != Err::<bool, VmError>(
                VmError::TapeOutOfBounds,
            ),
        ensures
            final(self).wf(),
            final(self).program@ == old(self).program@,
            ({
                let res = run(old(self).program@, old(self).state(), fuel as nat);
                &&& final(self).state() == res.0
                &&& final(output)@ == old(output)@ + res.1
                &&& r == res.2
            }),
    {
        let ghost p = self.program@;
        let ghost s0 = self.state();
        let ghost out0 = output@;
        let ghost mut acc: Seq<u8> = Seq::empty();
        let mut i: usize = 0;
        while i < fuel
            invariant
                i <= fuel,
                self.wf(),
                self.program@ == p,
                p == old(self).program@,
                s0 == old(self).state(),
                out0 == old(output)@,
                run(p, s0, fuel as nat).2 != Err::<bool, VmError>(VmError::TapeOutOfBounds),
                output@ == out0 + acc,
                ({
                    let whole = run(p, s0, fuel as nat);
                    let rest = run(p, self.state(), (fuel - i) as nat);
                    whole == (rest.0, acc + rest.1, rest.2)
                }),
            decreases fuel - i,
        {
            let ghost before = self.state();
            proof {
                assert(run(p, before, (fuel - i) as nat) == match step(p, before) {
                    Transition::Halted => (before, Seq::<u8>::empty(), Ok::<bool, VmError>(true)),
                    Transition::Fault(e) => (before, Seq::<u8>::empty(), Err(e)),
                    Transition::Next(t, o) => {
                        let rest = run(p, t, (fuel - i - 1) as nat);
                        (rest.0, written(o) + rest.1, rest.2)
                    },
                });
            }
            match self.step_unchecked() {
                Ok(Event::Halted) => {
                    assert(acc + Seq::<u8>::empty() =~= acc);
                    return Ok(true);
                },
                Ok(Event::Wrote(b)) => {
                    output.push(b);
                    proof {
                        let rest = run(p, self.state(), (fuel - i - 1) as nat);
                        assert(acc + (seq![b] + rest.1) =~= acc.push(b) + rest.1);
                        acc = acc.push(b);
                    }
                },
                Ok(Event::Continued) => {
                    proof {
                        let rest = run(p, self.state(), (fuel - i - 1) as nat);
                        assert(Seq::<u8>::empty() + rest.1 =~= rest.1);
                    }
                },
                Err(e) => {
                    assert(acc + Seq::<u8>::empty() =~= acc);
                    return Err(e);
                },
            }
            i = i + 1;
        }
        assert(acc + Seq::<u8>::empty() =~= acc);
        Ok(false)
    }
}

} // verus!
