use crate::bfir;
use crate::vm;
use vstd::prelude::*;

verus! {

/// One step of native code generation, in the order a code generator
/// performs them. Blocks are numbered in the order they are created; the
/// entry block, which holds the cursor's initial value, is not numbered.
#[derive(Clone, Copy, Debug, PartialEq, Eq, Structural)]
pub enum Lowered {
    /// Load the cell under the cursor, add the constant, store it back.
    AddCell { constant: i8 },
    /// Store the constant into the cell under the cursor.
    StoreCell { constant: i8 },
    /// Add the amount to the cursor variable.
    MoveCursor { amount: i8 },
    /// Load the cell under the cursor and pass it to the byte-output routine.
    PutCell,
    /// Create the next block.
    CreateBlock,
    /// Branch to `block` when the cell under the cursor is zero.
    BranchIfZero { block: usize },
    /// Branch to `block` when the cell under the cursor is not zero.
    BranchIfNonZero { block: usize },
    Jump { block: usize },
    /// Declare that `block` has all its predecessors.
    SealBlock { block: usize },
    SwitchToBlock { block: usize },
    /// Return from the function and finish its body.
    Return,
}

#[derive(Clone, Copy, Debug, PartialEq, Eq, Structural)]
pub enum CodeGenError {
    /// The input command has no native lowering.
    UnimplementedRead,
    /// A backward jump whose loop blocks were never created by a forward one.
    UnmatchedLoop,
}

/// The block keyed by `key` in `map`, created (with the next number) when
/// the key has none yet: the new map, the block, the new plan and block count.
pub open spec fn block_for(map: Seq<Option<usize>>, key: int, count: nat, out: Seq<Lowered>) -> (
    Seq<Option<usize>>,
    usize,
    Seq<Lowered>,
    nat,
) {
    match map[key] {
        Some(b) => (map, b, out, count),
        None => (map.update(key, Some(count as usize)), count as usize, out.push(Lowered::CreateBlock), count + 1),
    }
}

/// The plan for `p` from index `i`. `body` maps the index after a forward
/// jump to its loop-body block, `exit` maps a forward jump's target to its
/// after-loop block.
pub open spec fn lower_from(
    p: Seq<vm::Op>,
    i: int,
    body: Seq<Option<usize>>,
    exit: Seq<Option<usize>>,
    count: nat,
    out: Seq<Lowered>,
) -> Result<Seq<Lowered>, CodeGenError>
    decreases p.len() - i,
{
    if i < 0 || i >= p.len() {
        Ok(out)
    } else {
        match p[i] {
            vm::Op::Add { constant } => lower_from(p, i + 1, body, exit, count, out.push(Lowered::AddCell { constant })),
            vm::Op::Assign { constant } => lower_from(p, i + 1, body, exit, count, out.push(Lowered::StoreCell { constant })),
            vm::Op::Shift { shift_amount } => lower_from(p, i + 1, body, exit, count, out.push(Lowered::MoveCursor { amount: shift_amount })),
            vm::Op::Write => lower_from(p, i + 1, body, exit, count, out.push(Lowered::PutCell)),
            vm::Op::Read => Err(CodeGenError::UnimplementedRead),
            vm::Op::JumpIfZero { offset } => {
                if offset > p.len() {
                    Err(CodeGenError::UnmatchedLoop)
                } else {
                    let e = block_for(exit, offset as int, count, out);
                    let b = block_for(body, i + 1, e.3, e.2);
                    lower_from(p, i + 1, b.0, e.0, b.3, b.2.push(Lowered::BranchIfZero { block: e.1 }).push(
                        Lowered::Jump { block: b.1 }).push(Lowered::SwitchToBlock { block: b.1 }))
                }
            },
            vm::Op::JumpIfNonZero { offset } => {
                if offset > p.len() {
                    Err(CodeGenError::UnmatchedLoop)
                } else {
                    match (exit[i + 1], body[offset as int]) {
                        (Some(e), Some(b)) => lower_from(p, i + 1, body, exit, count, out.push(
                            Lowered::BranchIfNonZero { block: b }).push(Lowered::Jump { block: e }).push(
                            Lowered::SealBlock { block: b }).push(Lowered::SealBlock { block: e }).push(
                            Lowered::SwitchToBlock { block: e })),
                        _ => Err(CodeGenError::UnmatchedLoop),
                    }
                }
            },
            vm::Op::Done => lower_from(p, i + 1, body, exit, count, out.push(Lowered::Return)),
        }
    }
}

pub open spec fn no_blocks(n: nat) -> Seq<Option<usize>> {
    Seq::new(n, |j: int| None::<usize>)
}

/// The code-generation plan of a whole program.
pub open spec fn lowered(p: Seq<vm::Op>) -> Result<Seq<Lowered>, CodeGenError> {
    lower_from(p, 0, no_blocks(p.len() + 1), no_blocks(p.len() + 1), 0, Seq::empty())
}

/// The block that a step refers to, if any.
pub open spec fn block_ref(l: Lowered) -> Option<usize> {
    match l {
        Lowered::BranchIfZero { block } => Some(block),
        Lowered::BranchIfNonZero { block } => Some(block),
        Lowered::Jump { block } => Some(block),
        Lowered::SealBlock { block } => Some(block),
        Lowered::SwitchToBlock { block } => Some(block),
        _ => None,
    }
}

/// The number of blocks a plan creates.
pub open spec fn created(out: Seq<Lowered>) -> nat
    decreases out.len(),
{
    if out.len() == 0 {
        0
    } else {
        created(out.drop_last()) + if out.last() == Lowered::CreateBlock { 1nat } else { 0nat }
    }
}

/// Every block a plan refers to was created by an earlier step.
pub open spec fn blocks_created_first(out: Seq<Lowered>) -> bool {
    forall|j: int|
        0 <= j < out.len() ==> (#[trigger] block_ref(out[j]) matches Some(k) ==> k < created(
            out.take(j),
        ))
}

pub open spec fn entries_below(map: Seq<Option<usize>>, count: nat) -> bool {
    forall|j: int| 0 <= j < map.len() ==> (#[trigger] map[j] matches Some(b) ==> b < count)
}

fn push_step(out: &mut Vec<Lowered>, x: Lowered)
    requires
        blocks_created_first(old(out)@),
        block_ref(x) matches Some(k) ==> k < created(old(out)@),
    ensures
        final(out)@ == old(out)@.push(x),
        blocks_created_first(final(out)@),
        created(final(out)@) == created(old(out)@) + if x == Lowered::CreateBlock { 1nat } else { 0nat },
{
    let ghost before = out@;
    out.push(x);
    proof {
        assert(out@.drop_last() =~= before);
        assert forall|j: int| 0 <= j < out@.len() implies (#[trigger] block_ref(out@[j]) matches Some(k)
            ==> k < created(out@.take(j))) by {
            if j < before.len() {
                assert(out@.take(j) =~= before.take(j));
                assert(out@[j] == before[j]);
            } else {
                assert(out@.take(j) =~= before);
            }
        }
    }
}

/// Every forward jump before `i` has its after-loop and loop-body blocks.
pub open spec fn loop_blocks_ready(
    p: Seq<vm::Op>,
    i: int,
    body: Seq<Option<usize>>,
    exit: Seq<Option<usize>>,
) -> bool {
    forall|x: int|
        0 <= x < i ==> (#[trigger] p[x] matches vm::Op::JumpIfZero { offset } ==> (exit[offset as int] is Some
            && body[x + 1] is Some))
}

proof fn lemma_lower_from_ok(
    p: Seq<vm::Op>,
    i: int,
    body: Seq<Option<usize>>,
    exit: Seq<Option<usize>>,
    count: nat,
    out: Seq<Lowered>,
)
    requires
        0 <= i <= p.len(),
        vm::well_formed(p),
        vm::loops_paired(p),
        forall|j: int| 0 <= j < p.len() ==> #[trigger] p[j] != vm::Op::Read,
        body.len() == p.len() + 1,
        exit.len() == p.len() + 1,
        loop_blocks_ready(p, i, body, exit),
    ensures
        lower_from(p, i, body, exit, count, out) is Ok,
    decreases p.len() - i,
{
    if i < p.len() {
        assert(vm::jump_paired(p, i));
        assert(p[i] != vm::Op::Read);
        match p[i] {
            vm::Op::JumpIfZero { offset } => {
                let e = block_for(exit, offset as int, count, out);
                let b = block_for(body, i + 1, e.3, e.2);
                assert forall|x: int| 0 <= x < i + 1 implies (#[trigger] p[x] matches vm::Op::JumpIfZero {
                    offset,
                } ==> (e.0[offset as int] is Some && b.0[x + 1] is Some)) by {
                    if x < i {
                        assert(loop_blocks_ready(p, i, body, exit));
                    }
                }
                lemma_lower_from_ok(p, i + 1, b.0, e.0, b.3, b.2.push(Lowered::BranchIfZero { block: e.1 }).push(
                    Lowered::Jump { block: b.1 }).push(Lowered::SwitchToBlock { block: b.1 }));
            },
            vm::Op::JumpIfNonZero { offset } => {
                assert(vm::jumps_if_zero_to(p[offset - 1], i + 1));
                assert(p[offset - 1] matches vm::Op::JumpIfZero { .. });
                lemma_lower_from_ok(p, i + 1, body, exit, count, out.push(
                    Lowered::BranchIfNonZero { block: body[offset as int]->Some_0 }).push(
                    Lowered::Jump { block: exit[i + 1]->Some_0 }).push(
                    Lowered::SealBlock { block: body[offset as int]->Some_0 }).push(
                    Lowered::SealBlock { block: exit[i + 1]->Some_0 }).push(
                    Lowered::SwitchToBlock { block: exit[i + 1]->Some_0 }));
            },
            vm::Op::Add { constant } => {
                lemma_lower_from_ok(p, i + 1, body, exit, count, out.push(Lowered::AddCell { constant }));
            },
            vm::Op::Assign { constant } => {
                lemma_lower_from_ok(p, i + 1, body, exit, count, out.push(Lowered::StoreCell { constant }));
            },
            vm::Op::Shift { shift_amount } => {
                lemma_lower_from_ok(p, i + 1, body, exit, count, out.push(Lowered::MoveCursor { amount: shift_amount }));
            },
            vm::Op::Write => {
                lemma_lower_from_ok(p, i + 1, body, exit, count, out.push(Lowered::PutCell));
            },
            vm::Op::Done => {
                lemma_lower_from_ok(p, i + 1, body, exit, count, out.push(Lowered::Return));
            },
            vm::Op::Read => {},
        }
    }
}

/// A well-formed program whose loops are paired, and which has no input
/// command, lowers without error: each backward jump finds the blocks that
/// its forward partner created.
pub proof fn lemma_paired_program_lowers(p: Seq<vm::Op>)
    requires
        vm::well_formed(p),
        vm::loops_paired(p),
        forall|j: int| 0 <= j < p.len() ==> #[trigger] p[j] != vm::Op::Read,
    ensures
        lowered(p) is Ok,
{
    lemma_lower_from_ok(p, 0, no_blocks(p.len() + 1), no_blocks(p.len() + 1), 0, Seq::empty());
}

/// The bare input command translates to `Read` then `Done`; the interpreter
/// stops on it with `UnimplementedRead` whatever the tape holds, and it has
/// no native lowering.
pub proof fn lemma_input_is_fatal(tape: Seq<u8>, cursor: int, fuel: nat)
    requires
        fuel > 0,
    ensures
        bfir::translation(seq![bfir::INPUT]) == Ok::<Seq<vm::Op>, bfir::Error>(
            seq![vm::Op::Read, vm::Op::Done],
        ),
        vm::run(seq![vm::Op::Read, vm::Op::Done], vm::State { tape, pc: 0, cursor }, fuel).2 == Err::<
            bool,
            vm::VmError,
        >(vm::VmError::UnimplementedRead),
        lowered(seq![vm::Op::Read, vm::Op::Done]) == Err::<Seq<Lowered>, CodeGenError>(
            CodeGenError::UnimplementedRead,
        ),
{
    let s = seq![bfir::INPUT];
    assert(s.drop_last() =~= Seq::<u8>::empty());
    assert(bfir::symbolic(s.drop_last()) =~= Seq::<bfir::Op>::empty());
    assert(s.last() == bfir::INPUT);
    let r = bfir::Op::Concrete(vm::Op::Read);
    assert(bfir::emit(Seq::<bfir::Op>::empty(), bfir::INPUT) =~= seq![r]);
    assert(bfir::symbolic(s) =~= seq![r]);
    assert(bfir::optimize_from(seq![r], 1, seq![r]) == seq![r]);
    assert(bfir::append_fused(Seq::<bfir::Op>::empty(), r) =~= seq![r]);
    assert(bfir::optimized(seq![r]) == seq![r]);
    assert(bfir::resolve_from(seq![r], 1, Seq::empty()) == Ok::<Seq<bfir::Op>, bfir::Error>(seq![r]));
    assert(bfir::finished(seq![r]) =~= seq![vm::Op::Read, vm::Op::Done]);
}

fn empty_map(n: usize) -> (r: Vec<Option<usize>>)
    ensures
        r@ == no_blocks(n as nat),
{
    let mut m: Vec<Option<usize>> = Vec::new();
    while m.len() < n
        invariant
            m@.len() <= n,
            forall|j: int| 0 <= j < m@.len() ==> m@[j] == None::<usize>,
        decreases n - m@.len(),
    {
        m.push(None);
    }
    assert(m@ =~= no_blocks(n as nat));
    m
}

fn block_for_key(map: &mut Vec<Option<usize>>, key: usize, count: &mut usize, out: &mut Vec<Lowered>) -> (r: usize)
    requires
        key < old(map)@.len(),
        *old(count) < usize::MAX,
        blocks_created_first(old(out)@),
        created(old(out)@) == *old(count),
        entries_below(old(map)@, *old(count) as nat),
    ensures
        blocks_created_first(final(out)@),
        created(final(out)@) == *final(count),
        entries_below(final(map)@, *final(count) as nat),
        r < *final(count),
        *old(count) <= *final(count),
        ({
            let e = block_for(old(map)@, key as int, *old(count) as nat, old(out)@);
            &&& final(map)@ == e.0
            &&& r == e.1
            &&& final(out)@ == e.2
            &&& *final(count) == e.3
        }),
{
    match map[key] {
        Some(b) => b,
        None => {
            let b = *count;
            map.set(key, Some(b));
            push_step(out, Lowered::CreateBlock);
            *count = b + 1;
            b
        },
    }
}

/// Lowers a resolved program to the steps a native code generator takes:
/// straight-line instructions become cell and cursor operations, a forward
/// jump creates (or reuses) its after-loop and loop-body blocks, branches and
/// enters the body, and the matching backward jump branches back, falls
/// through to the after-loop block and seals both. Every block the plan
/// refers to is created by an earlier step of it.
pub fn lower(program: &Vec<vm::Op>) -> (r: Result<Vec<Lowered>, CodeGenError>)
    requires
        program@.len() < usize::MAX / 4,
    ensures
        match lowered(program@) {
            Ok(plan) => r matches Ok(v) && v@ == plan && blocks_created_first(plan),
            Err(e) => r == Err::<Vec<Lowered>, CodeGenError>(e),
        },
{
    let len = program.len();
    let mut body_blocks = empty_map(len + 1);
    let mut exit_blocks = empty_map(len + 1);
    let mut count: usize = 0;
    let mut out: Vec<Lowered> = Vec::new();
    let mut program_pointer: usize = 0;
    while program_pointer < len
        invariant
            program_pointer <= len,
            len == program@.len(),
            len < usize::MAX / 4,
            body_blocks@.len() == len + 1,
            exit_blocks@.len() == len + 1,
            count <= 2 * program_pointer,
            blocks_created_first(out@),
            created(out@) == count,
            entries_below(body_blocks@, count as nat),
            entries_below(exit_blocks@, count as nat),
            lower_from(program@, program_pointer as int, body_blocks@, exit_blocks@, count as nat, out@)
                == lowered(program@),
        decreases len - program_pointer,
    {
        let next = program_pointer + 1;
        match program[program_pointer] {
            vm::Op::Add { constant } => push_step(&mut out, Lowered::AddCell { constant }),
            vm::Op::Assign { constant } => push_step(&mut out, Lowered::StoreCell { constant }),
            vm::Op::Shift { shift_amount } => push_step(&mut out, Lowered::MoveCursor { amount: shift_amount }),
            vm::Op::Write => push_step(&mut out, Lowered::PutCell),
            vm::Op::Read => {
                return Err(CodeGenError::UnimplementedRead);
            },
            vm::Op::JumpIfZero { offset } => {
                if offset > len {
                    return Err(CodeGenError::UnmatchedLoop);
                }
                let exit = block_for_key(&mut exit_blocks, offset, &mut count, &mut out);
                let body = block_for_key(&mut body_blocks, next, &mut count, &mut out);
                push_step(&mut out, Lowered::BranchIfZero { block: exit });
                push_step(&mut out, Lowered::Jump { block: body });
                push_step(&mut out, Lowered::SwitchToBlock { block: body });
            },
            vm::Op::JumpIfNonZero { offset } => {
                if offset > len {
                    return Err(CodeGenError::UnmatchedLoop);
                }
                match (exit_blocks[next], body_blocks[offset]) {
                    (Some(exit), Some(body)) => {
                        push_step(&mut out, Lowered::BranchIfNonZero { block: body });
                        push_step(&mut out, Lowered::Jump { block: exit });
                        push_step(&mut out, Lowered::SealBlock { block: body });
                        push_step(&mut out, Lowered::SealBlock { block: exit });
                        push_step(&mut out, Lowered::SwitchToBlock { block: exit });
                    },
                    _ => {
                        return Err(CodeGenError::UnmatchedLoop);
                    },
                }
            },
            vm::Op::Done => push_step(&mut out, Lowered::Return),
        }
        program_pointer = next;
    }
    Ok(out)
}

} // verus!
