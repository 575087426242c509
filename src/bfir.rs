use crate::vm;
use vstd::prelude::*;

verus! {

/// An instruction during translation: a resolved instruction or a loop
/// bracket not yet turned into a jump.
#[derive(Clone, Copy, Debug, PartialEq, Eq, Structural)]
pub enum Op {
    Concrete(vm::Op),
    LoopBegin,
    LoopEnd,
}

#[derive(Clone, Copy, Debug, PartialEq, Eq, Structural)]
pub enum Error {
    /// A loop was opened and never closed.
    MismatchedLoopBegin,
    /// A loop was closed without having been opened.
    MismatchedLoopEnd,
}

/// The command bytes of the source language: `+ - > < . , [ ]`.
pub const INCREMENT: u8 = 43;
pub const DECREMENT: u8 = 45;
pub const MOVE_RIGHT: u8 = 62;
pub const MOVE_LEFT: u8 = 60;
pub const OUTPUT: u8 = 46;
pub const INPUT: u8 = 44;
pub const LOOP_OPEN: u8 = 91;
pub const LOOP_CLOSE: u8 = 93;

/// `ops` with `value` added: summed into a trailing `Add`, or appended.
pub open spec fn with_add(ops: Seq<Op>, value: i8) -> Seq<Op> {
    let appended = ops.push(Op::Concrete(vm::Op::Add { constant: value }));
    if ops.len() > 0 {
        match ops.last() {
            Op::Concrete(vm::Op::Add { constant }) => ops.update(
                ops.len() - 1,
                Op::Concrete(vm::Op::Add { constant: constant.wrapping_add(value) }),
            ),
            _ => appended,
        }
    } else {
        appended
    }
}

/// `ops` with a cursor move of `value`: summed into a trailing `Shift` when
/// the sum fits in an `i8`, appended otherwise, so the net move is kept.
pub open spec fn with_shift(ops: Seq<Op>, value: i8) -> Seq<Op> {
    let appended = ops.push(Op::Concrete(vm::Op::Shift { shift_amount: value }));
    if ops.len() > 0 {
        match ops.last() {
            Op::Concrete(vm::Op::Shift { shift_amount }) => if i8::MIN <= shift_amount + value
                <= i8::MAX {
                ops.update(
                    ops.len() - 1,
                    Op::Concrete(vm::Op::Shift { shift_amount: (shift_amount + value) as i8 }),
                )
            } else {
                appended
            },
            _ => appended,
        }
    } else {
        appended
    }
}

/// The instructions after reading one more source byte.
pub open spec fn emit(ops: Seq<Op>, byte: u8) -> Seq<Op> {
    if byte == INCREMENT {
        with_add(ops, 1i8)
    } else if byte == DECREMENT {
        with_add(ops, -1i8)
    } else if byte == MOVE_RIGHT {
        with_shift(ops, 1i8)
    } else if byte == MOVE_LEFT {
        with_shift(ops, -1i8)
    } else if byte == OUTPUT {
        ops.push(Op::Concrete(vm::Op::Write))
    } else if byte == INPUT {
        ops.push(Op::Concrete(vm::Op::Read))
    } else if byte == LOOP_OPEN {
        ops.push(Op::LoopBegin)
    } else if byte == LOOP_CLOSE {
        ops.push(Op::LoopEnd)
    } else {
        ops
    }
}

/// The coalesced instructions of a source text, before any rewriting.
pub open spec fn symbolic(source: Seq<u8>) -> Seq<Op>
    decreases source.len(),
{
    if source.len() == 0 {
        Seq::empty()
    } else {
        emit(symbolic(source.drop_last()), source.last())
    }
}

pub open spec fn is_nonzero_add(op: Op) -> bool {
    match op {
        Op::Concrete(vm::Op::Add { constant }) => constant != 0,
        _ => false,
    }
}

/// A loop whose body is a single nonzero `Add` starts at `i`.
pub open spec fn zeroing_loop_at(p: Seq<Op>, i: int) -> bool {
    &&& 0 <= i
    &&& i + 3 <= p.len()
    &&& p[i] == Op::LoopBegin
    &&& p[i + 2] == Op::LoopEnd
    &&& is_nonzero_add(p[i + 1])
}

/// `out` with `op` appended, an `Add` after a trailing `Assign` fused into it.
pub open spec fn append_fused(out: Seq<Op>, op: Op) -> Seq<Op> {
    if out.len() > 0 {
        match (out.last(), op) {
            (
                Op::Concrete(vm::Op::Assign { constant: a }),
                Op::Concrete(vm::Op::Add { constant: b }),
            ) => out.update(
                out.len() - 1,
                Op::Concrete(vm::Op::Assign { constant: a.wrapping_add(b) }),
            ),
            _ => out.push(op),
        }
    } else {
        out.push(op)
    }
}

/// The peephole pass from index `i` of `p`, having produced `out` so far.
pub open spec fn optimize_from(p: Seq<Op>, i: int, out: Seq<Op>) -> Seq<Op>
    decreases p.len() - i,
{
    if i < 0 || i >= p.len() {
        out
    } else if zeroing_loop_at(p, i) {
        optimize_from(p, i + 3, out.push(Op::Concrete(vm::Op::Assign { constant: 0 })))
    } else {
        optimize_from(p, i + 1, append_fused(out, p[i]))
    }
}

pub open spec fn optimized(p: Seq<Op>) -> Seq<Op> {
    optimize_from(p, 0, Seq::empty())
}

/// One left-to-right peephole pass: a loop whose body is one nonzero `Add`
/// becomes `Assign(0)`, and an `Add` right after an `Assign` is folded into it.
pub fn optimize(program: &Vec<Op>) -> (r: Vec<Op>)
    ensures
        r@ == optimized(program@),
{
    let len = program.len();
    let mut out: Vec<Op> = Vec::new();
    let mut i: usize = 0;
    while i < len
        invariant
            i <= len,
            len == program@.len(),
            optimize_from(program@, i as int, out@) == optimized(program@),
        decreases len - i,
    {
        let zeroing = len - i >= 3 && program[i] == Op::LoopBegin && program[i + 2] == Op::LoopEnd
            && match program[i + 1] {
            Op::Concrete(vm::Op::Add { constant }) => constant != 0,
            _ => false,
        };
        if zeroing {
            out.push(Op::Concrete(vm::Op::Assign { constant: 0 }));
            i = i + 3;
        } else {
            let op = program[i];
            let n = out.len();
            let mut fused = false;
            if n > 0 {
                match (out[n - 1], op) {
                    (Op::Concrete(vm::Op::Assign { constant: a }), Op::Concrete(vm::Op::Add { constant: b })) => {
                        out.set(n - 1, Op::Concrete(vm::Op::Assign { constant: a.wrapping_add(b) }));
                        fused = true;
                    },
                    _ => {},
                }
            }
            if !fused {
                out.push(op);
            }
            i = i + 1;
        }
    }
    out
}

/// Every pending opening lies before `i`.
pub open spec fn stack_below(stack: Seq<usize>, i: int) -> bool {
    forall|k: int| 0 <= k < stack.len() ==> #[trigger] stack[k] < i
}

/// Loop resolution from index `i`, with the unmatched loop openings of the
/// part already read on `stack`: each closing bracket is matched with the
/// latest unmatched opening, the opening becoming a jump past the closing
/// one when the cell is zero, and the closing one a jump back past the
/// opening when it is not.
pub open spec fn resolve_from(p: Seq<Op>, i: int, stack: Seq<usize>) -> Result<Seq<Op>, Error>
    decreases p.len() - i when stack_below(stack, i)
{
    if i < 0 || i >= p.len() {
        if stack.len() == 0 {
            Ok(p)
        } else {
            Err(Error::MismatchedLoopBegin)
        }
    } else if p[i] == Op::LoopBegin {
        resolve_from(p, i + 1, stack.push(i as usize))
    } else if p[i] == Op::LoopEnd {
        if stack.len() == 0 {
            Err(Error::MismatchedLoopEnd)
        } else {
            let b = stack.last();
            let q = p.update(
                b as int,
                Op::Concrete(vm::Op::JumpIfZero { offset: (i + 1) as usize }),
            ).update(i, Op::Concrete(vm::Op::JumpIfNonZero { offset: (b + 1) as usize }));
            resolve_from(q, i + 1, stack.drop_last())
        }
    } else {
        resolve_from(p, i + 1, stack)
    }
}

pub open spec fn resolved(p: Seq<Op>) -> Result<Seq<Op>, Error> {
    resolve_from(p, 0, Seq::empty())
}

/// An instruction as emitted from source or rewritten by the peephole
/// pass: neither a jump nor `Done`.
pub open spec fn plain(op: Op) -> bool {
    match op {
        Op::Concrete(vm::Op::Done) => false,
        Op::Concrete(vm::Op::JumpIfZero { .. }) => false,
        Op::Concrete(vm::Op::JumpIfNonZero { .. }) => false,
        _ => true,
    }
}

/// A resolved instruction of a program of `n` instructions before its
/// `Done`: no bracket is left and no jump goes past that `Done`.
pub open spec fn settled(op: Op, n: nat) -> bool {
    match op {
        Op::Concrete(vm::Op::Done) => false,
        Op::Concrete(vm::Op::JumpIfZero { offset }) => offset <= n,
        Op::Concrete(vm::Op::JumpIfNonZero { offset }) => offset <= n,
        Op::Concrete(_) => true,
        _ => false,
    }
}

pub open spec fn all_plain(p: Seq<Op>) -> bool {
    forall|j: int| 0 <= j < p.len() ==> plain(#[trigger] p[j])
}

pub open spec fn concrete_of(op: Op) -> vm::Op {
    match op {
        Op::Concrete(c) => c,
        _ => vm::Op::Done,
    }
}

/// The resolved instructions of `q` followed by `Done`.
pub open spec fn finished(q: Seq<Op>) -> Seq<vm::Op> {
    q.map_values(|op: Op| concrete_of(op)).push(vm::Op::Done)
}

/// The whole translation of a source text.
pub open spec fn translation(source: Seq<u8>) -> Result<Seq<vm::Op>, Error> {
    match resolved(optimized(symbolic(source))) {
        Ok(q) => Ok(finished(q)),
        Err(e) => Err(e),
    }
}

pub(crate) proof fn lemma_symbolic_plain(source: Seq<u8>)
    ensures
        all_plain(symbolic(source)),
    decreases source.len(),
{
    if source.len() > 0 {
        lemma_symbolic_plain(source.drop_last());
        let ops = symbolic(source.drop_last());
        let r = symbolic(source);
        assert forall|j: int| 0 <= j < r.len() implies plain(#[trigger] r[j]) by {
            if j < ops.len() && ops.len() > 0 && j == ops.len() - 1 {
            } else if j < ops.len() {
                assert(plain(ops[j]));
            }
        }
    }
}

pub(crate) proof fn lemma_optimize_plain(p: Seq<Op>, i: int, out: Seq<Op>)
    requires
        all_plain(p),
        all_plain(out),
    ensures
        all_plain(optimize_from(p, i, out)),
    decreases p.len() - i,
{
    if i < 0 || i >= p.len() {
    } else if zeroing_loop_at(p, i) {
        let o = out.push(Op::Concrete(vm::Op::Assign { constant: 0 }));
        assert forall|j: int| 0 <= j < o.len() implies plain(#[trigger] o[j]) by {
            if j < out.len() {
                assert(plain(out[j]));
            }
        }
        lemma_optimize_plain(p, i + 3, o);
    } else {
        let o = append_fused(out, p[i]);
        assert(plain(p[i]));
        assert forall|j: int| 0 <= j < o.len() implies plain(#[trigger] o[j]) by {
            if j < out.len() {
                assert(plain(out[j]));
            }
        }
        lemma_optimize_plain(p, i + 1, o);
    }
}


/// Resolved instructions followed by `Done` form a well-formed program.
pub(crate) proof fn lemma_finished_well_formed(q: Seq<Op>)
    requires
        forall|j: int| 0 <= j < q.len() ==> settled(#[trigger] q[j], q.len()),
    ensures
        vm::well_formed(finished(q)),
{
    let f = finished(q);
    assert forall|j: int| 0 <= j < f.len() implies vm::jump_in_range(#[trigger] f[j], f.len()) by {
        if j < q.len() {
            assert(settled(q[j], q.len()));
        }
    }
    assert forall|j: int| 0 <= j < f.len() - 1 implies f[j] != vm::Op::Done by {
        assert(settled(q[j], q.len()));
    }
}

pub(crate) proof fn lemma_symbolic_len(source: Seq<u8>)
    ensures
        symbolic(source).len() <= source.len(),
    decreases source.len(),
{
    if source.len() > 0 {
        lemma_symbolic_len(source.drop_last());
    }
}

pub(crate) proof fn lemma_optimize_len(p: Seq<Op>, i: int, out: Seq<Op>)
    requires
        0 <= i <= p.len(),
    ensures
        optimize_from(p, i, out).len() <= out.len() + p.len() - i,
    decreases p.len() - i,
{
    if i < p.len() {
        if zeroing_loop_at(p, i) {
            lemma_optimize_len(p, i + 3, out.push(Op::Concrete(vm::Op::Assign { constant: 0 })));
        } else {
            lemma_optimize_len(p, i + 1, append_fused(out, p[i]));
        }
    }
}

/// The jump at `x` and its partner point one past each other, and the
/// partner lies before `n`.
pub open spec fn paired_below(p: Seq<Op>, x: int, n: int) -> bool {
    match p[x] {
        Op::Concrete(vm::Op::JumpIfZero { offset }) => x + 2 <= offset <= n && p[offset - 1]
            == Op::Concrete(vm::Op::JumpIfNonZero { offset: (x + 1) as usize }),
        Op::Concrete(vm::Op::JumpIfNonZero { offset }) => 1 <= offset <= x && p[offset - 1]
            == Op::Concrete(vm::Op::JumpIfZero { offset: (x + 1) as usize }),
        _ => true,
    }
}

/// The pending openings lie before `i`, hold `LoopBegin`, and increase.
pub open spec fn stack_pending(p: Seq<Op>, stack: Seq<usize>, i: int) -> bool {
    &&& forall|k: int| 0 <= k < stack.len() ==> #[trigger] stack[k] < i && p[stack[k] as int] == Op::LoopBegin
    &&& forall|k1: int, k2: int| 0 <= k1 < k2 < stack.len() ==> stack[k1] < stack[k2]
}

/// Pushing the opening at `i` keeps the pending openings in order.
proof fn lemma_stack_push(p: Seq<Op>, stack: Seq<usize>, i: int)
    requires
        0 <= i < p.len(),
        p.len() <= usize::MAX,
        p[i] == Op::LoopBegin,
        stack_pending(p, stack, i),
    ensures
        stack_pending(p, stack.push(i as usize), i + 1),
        stack.push(i as usize)[stack.len() as int] == i,
        forall|k: int| 0 <= k < stack.len() ==> stack.push(i as usize)[k] == stack[k],
{
    let s2 = stack.push(i as usize);
    assert forall|k: int| 0 <= k < s2.len() implies #[trigger] s2[k] < i + 1 && p[s2[k] as int]
        == Op::LoopBegin by {
        if k < stack.len() {
            assert(s2[k] == stack[k]);
        }
    }
    assert forall|k1: int, k2: int| 0 <= k1 < k2 < s2.len() implies s2[k1] < s2[k2] by {
        assert(s2[k1] == stack[k1]);
        if k2 < stack.len() {
            assert(s2[k2] == stack[k2]);
        }
    }
}

/// Popping the latest opening `b` at the closing `i`, and rewriting both
/// into jumps `q`, leaves the remaining openings pending in `q`.
proof fn lemma_stack_pop(p: Seq<Op>, q: Seq<Op>, stack: Seq<usize>, i: int)
    requires
        0 <= i < p.len(),
        stack.len() > 0,
        stack_pending(p, stack, i),
        q.len() == p.len(),
        forall|j: int| 0 <= j < p.len() && j != stack.last() && j != i ==> q[j] == p[j],
    ensures
        stack_pending(q, stack.drop_last(), i + 1),
        stack.last() < i,
        forall|k: int| 0 <= k < stack.len() - 1 ==> stack.drop_last()[k] == stack[k] && stack[k]
            < stack.last(),
{
    let s2 = stack.drop_last();
    assert(stack[stack.len() - 1] < i);
    assert forall|k: int| 0 <= k < s2.len() implies #[trigger] s2[k] < i + 1 && q[s2[k] as int]
        == Op::LoopBegin by {
        assert(s2[k] == stack[k]);
        assert(stack[k] < stack.last());
    }
    assert forall|k1: int, k2: int| 0 <= k1 < k2 < s2.len() implies s2[k1] < s2[k2] by {
        assert(s2[k1] == stack[k1] && s2[k2] == stack[k2]);
    }
}

/// Loop resolution leaves no bracket, keeps every jump within the
/// program's `Done`, and pairs each loop's two jumps.
pub(crate) proof fn lemma_resolve_sound(p: Seq<Op>, i: int, stack: Seq<usize>)
    requires
        0 <= i <= p.len(),
        p.len() <= usize::MAX,
        forall|j: int|
            0 <= j < i ==> settled(#[trigger] p[j], p.len()) || (p[j] == Op::LoopBegin && exists|k: int|
                0 <= k < stack.len() && stack[k] == j),
        forall|x: int| 0 <= x < i ==> #[trigger] paired_below(p, x, i),
        forall|j: int| i <= j < p.len() ==> plain(#[trigger] p[j]),
        stack_pending(p, stack, i),
    ensures
        resolve_from(p, i, stack) matches Ok(q) ==> q.len() == p.len() && (forall|j: int|
            0 <= j < q.len() ==> settled(#[trigger] q[j], q.len())) && forall|x: int|
            0 <= x < q.len() ==> #[trigger] paired_below(q, x, q.len() as int),
    decreases p.len() - i,
{
    if i >= p.len() {
        if stack.len() == 0 {
            assert forall|j: int| 0 <= j < p.len() implies settled(#[trigger] p[j], p.len()) by {
                if !settled(p[j], p.len()) {
                    let k = choose|k: int| 0 <= k < stack.len() && stack[k] == j;
                }
            }
        }
    } else if p[i] == Op::LoopBegin {
        let s2 = stack.push(i as usize);
        lemma_stack_push(p, stack, i);
        assert forall|j: int|
            0 <= j < i + 1 implies settled(#[trigger] p[j], p.len()) || (p[j] == Op::LoopBegin
            && exists|k: int| 0 <= k < s2.len() && s2[k] == j) by {
            if j < i && !settled(p[j], p.len()) {
                let k = choose|k: int| 0 <= k < stack.len() && stack[k] == j;
                assert(s2[k] == j);
            }
        }
        assert forall|x: int| 0 <= x < i + 1 implies #[trigger] paired_below(p, x, i + 1) by {
            if x < i {
                assert(paired_below(p, x, i));
            }
        }
        lemma_resolve_sound(p, i + 1, s2);
    } else if p[i] == Op::LoopEnd {
        if stack.len() > 0 {
            let b = stack.last();
            assert(stack[stack.len() - 1] < i);
            let q = p.update(
                b as int,
                Op::Concrete(vm::Op::JumpIfZero { offset: (i + 1) as usize }),
            ).update(i, Op::Concrete(vm::Op::JumpIfNonZero { offset: (b + 1) as usize }));
            let s2 = stack.drop_last();
            lemma_stack_pop(p, q, stack, i);
            assert forall|j: int|
                0 <= j < i + 1 implies settled(#[trigger] q[j], q.len()) || (q[j] == Op::LoopBegin
                && exists|k: int| 0 <= k < s2.len() && s2[k] == j) by {
                if j < i && j != b && !settled(p[j], p.len()) {
                    let k = choose|k: int| 0 <= k < stack.len() && stack[k] == j;
                    assert(k != stack.len() - 1);
                    assert(s2[k] == j);
                }
            }
            assert forall|x: int| 0 <= x < i + 1 implies #[trigger] paired_below(q, x, i + 1) by {
                if x < i && x != b {
                    assert(paired_below(p, x, i));
                    assert(q[x] == p[x]);
                    match p[x] {
                        Op::Concrete(vm::Op::JumpIfZero { offset }) => {
                            assert(q[offset - 1] == p[offset - 1]);
                        },
                        Op::Concrete(vm::Op::JumpIfNonZero { offset }) => {
                            assert(q[offset - 1] == p[offset - 1]);
                        },
                        _ => {},
                    }
                }
            }
            assert forall|j: int| i + 1 <= j < q.len() implies plain(#[trigger] q[j]) by {
                assert(plain(p[j]));
            }
            lemma_resolve_sound(q, i + 1, s2);
        }
    } else {
        assert(plain(p[i]));
        assert forall|x: int| 0 <= x < i + 1 implies #[trigger] paired_below(p, x, i + 1) by {
            if x < i {
                assert(paired_below(p, x, i));
            }
        }
        lemma_resolve_sound(p, i + 1, stack);
    }
}

/// The loops of resolved instructions stay paired once `Done` is appended.
pub(crate) proof fn lemma_finished_paired(q: Seq<Op>)
    requires
        q.len() <= usize::MAX,
        forall|x: int| 0 <= x < q.len() ==> #[trigger] paired_below(q, x, q.len() as int),
    ensures
        vm::loops_paired(finished(q)),
{
    let f = finished(q);
    assert forall|j: int| 0 <= j < f.len() implies #[trigger] vm::jump_paired(f, j) by {
        if j < q.len() {
            assert(paired_below(q, j, q.len() as int));
            assert(f[j] == concrete_of(q[j]));
            match q[j] {
                Op::Concrete(vm::Op::JumpIfZero { offset }) => {
                    assert(f[offset - 1] == concrete_of(q[offset - 1]));
                },
                Op::Concrete(vm::Op::JumpIfNonZero { offset }) => {
                    assert(f[offset - 1] == concrete_of(q[offset - 1]));
                },
                _ => {},
            }
        }
    }
}

/// The translator's working state: the instructions emitted so far.
struct Builder {
    program: Vec<Op>,
}

impl Builder {
    fn new() -> (r: Builder)
        ensures
            r.program@ == Seq::<Op>::empty(),
    {
        Builder { program: Vec::new() }
    }

    fn emit_add(&mut self, value: i8)
        ensures
            final(self).program@ == with_add(old(self).program@, value),
    {
        let n = self.program.len();
        if n > 0 {
            match self.program[n - 1] {
                Op::Concrete(vm::Op::Add { constant }) => {
                    self.program.set(n - 1, Op::Concrete(vm::Op::Add { constant: constant.wrapping_add(value) }));
                    return;
                },
                _ => {},
            }
        }
        self.program.push(Op::Concrete(vm::Op::Add { constant: value }));
    }

    fn emit_shift(&mut self, value: i8)
        ensures
            final(self).program@ == with_shift(old(self).program@, value),
    {
        let n = self.program.len();
        if n > 0 {
            match self.program[n - 1] {
                Op::Concrete(vm::Op::Shift { shift_amount }) => {
                    let sum = shift_amount as i16 + value as i16;
                    if i8::MIN as i16 <= sum && sum <= i8::MAX as i16 {
                        self.program.set(n - 1, Op::Concrete(vm::Op::Shift { shift_amount: sum as i8 }));
                        return;
                    }
                },
                _ => {},
            }
        }
        self.program.push(Op::Concrete(vm::Op::Shift { shift_amount: value }));
    }

    fn optimize(&mut self)
        ensures
            final(self).program@ == optimized(old(self).program@),
    {
        self.program = optimize(&self.program);
    }
    fn concretize_loops(&mut self) -> (r: Result<(), Error>)
        ensures
            match resolved(old(self).program@) {
                Ok(q) => r == Ok::<(), Error>(()) && final(self).program@ == q,
                Err(e) => r == Err::<(), Error>(e),
            },
    {
        let ghost p0 = self.program@;
        let len = self.program.len();
        let mut offset_stack: Vec<usize> = Vec::new();
        let mut program_pointer: usize = 0;
        while program_pointer < len
            invariant
                program_pointer <= len,
                len == self.program@.len(),
                p0 == old(self).program@,
                resolve_from(self.program@, program_pointer as int, offset_stack@) == resolved(p0),
                forall|k: int| 0 <= k < offset_stack@.len() ==> #[trigger] offset_stack@[k] < program_pointer,
            decreases len - program_pointer,
        {
            let op = self.program[program_pointer];
            if op == Op::LoopBegin {
                offset_stack.push(program_pointer);
            } else if op == Op::LoopEnd {
                let ghost before = offset_stack@;
                match offset_stack.pop() {
                    None => {
                        return Err(Error::MismatchedLoopEnd);
                    },
                    Some(matching_begin) => {
                        assert(before[before.len() - 1] < program_pointer);
                        assert(offset_stack@ =~= before.drop_last());
                        self.program.set(
                            matching_begin,
                            Op::Concrete(vm::Op::JumpIfZero { offset: program_pointer + 1 }),
                        );
                        self.program.set(
                            program_pointer,
                            Op::Concrete(vm::Op::JumpIfNonZero { offset: matching_begin + 1 }),
                        );
                    },
                }
            }
            program_pointer = program_pointer + 1;
        }
        if offset_stack.len() > 0 {
            Err(Error::MismatchedLoopBegin)
        } else {
            Ok(())
        }
    }

    fn finalized_program(self) -> (r: Result<Vec<vm::Op>, Error>)
        requires
            all_plain(self.program@),
        ensures
            match resolved(optimized(self.program@)) {
                Ok(q) => r matches Ok(prog) && prog@ == finished(q) && vm::well_formed(prog@)
                    && vm::loops_paired(prog@),
                Err(e) => r == Err::<Vec<vm::Op>, Error>(e),
            },
    {
        let mut ir = self;
        let ghost p0 = ir.program@;
        ir.optimize();
        proof {
            lemma_optimize_plain(p0, 0, Seq::empty());
        }
        let ghost opt = ir.program@;
        let len = ir.program.len();
        ir.concretize_loops()?;
        proof {
            lemma_resolve_sound(opt, 0, Seq::empty());
        }
        let ghost q = ir.program@;
        let mut out: Vec<vm::Op> = Vec::new();
        let mut i: usize = 0;
        while i < len
            invariant
                i <= len,
                len == q.len(),
                ir.program@ == q,
                forall|j: int| 0 <= j < q.len() ==> settled(#[trigger] q[j], q.len()),
                out@ == q.take(i as int).map_values(|op: Op| concrete_of(op)),
            decreases len - i,
        {
            match ir.program[i] {
                Op::Concrete(ins) => {
                    out.push(ins);
                },
                _ => {
                    assert(settled(q[i as int], q.len()));
                },
            }
            assert(q.take(i + 1).map_values(|op: Op| concrete_of(op)) =~= q.take(i as int).map_values(
                |op: Op| concrete_of(op),
            ).push(concrete_of(q[i as int])));
            i = i + 1;
        }
        out.push(vm::Op::Done);
        assert(q.take(len as int) =~= q);
        assert(out@ =~= finished(q));
        proof {
            lemma_finished_well_formed(q);
            lemma_finished_paired(q);
        }
        Ok(out)
    }
}

/// Translates source text into a resolved program ending in `Done`.
/// Bytes other than the eight commands are ignored.
pub fn translate(source: &[u8]) -> (r: Result<Vec<vm::Op>, Error>)
    ensures
        match translation(source@) {
            Ok(prog) => r matches Ok(v) && v@ == prog && vm::well_formed(v@) && vm::loops_paired(v@),
            Err(e) => r == Err::<Vec<vm::Op>, Error>(e),
        },
{
    let mut ir = Builder::new();
    let mut program_pointer: usize = 0;
    while program_pointer < source.len()
        invariant
            program_pointer <= source@.len(),
            ir.program@ == symbolic(source@.take(program_pointer as int)),
        decreases source@.len() - program_pointer,
    {
        let ins = source[program_pointer];
        assert(source@.take(program_pointer + 1).drop_last() =~= source@.take(program_pointer as int));
        if ins == INCREMENT {
            ir.emit_add(1);
        } else if ins == DECREMENT {
            ir.emit_add(-1);
        } else if ins == MOVE_RIGHT {
            ir.emit_shift(1);
        } else if ins == MOVE_LEFT {
            ir.emit_shift(-1);
        } else if ins == OUTPUT {
            ir.program.push(Op::Concrete(vm::Op::Write));
        } else if ins == INPUT {
            ir.program.push(Op::Concrete(vm::Op::Read));
        } else if ins == LOOP_OPEN {
            ir.program.push(Op::LoopBegin);
        } else if ins == LOOP_CLOSE {
            ir.program.push(Op::LoopEnd);
        }
        program_pointer = program_pointer + 1;
    }
    assert(source@.take(source@.len() as int) =~= source@);
    proof {
        lemma_symbolic_plain(source@);
    }
    ir.finalized_program()
}

/// An `Assign` directly followed by an `Add` is folded into one `Assign`
/// of the wrapped sum.
pub proof fn lemma_assign_add_fuses(a: i8, b: i8)
    ensures
        optimized(
            seq![
                Op::Concrete(vm::Op::Assign { constant: a }),
                Op::Concrete(vm::Op::Add { constant: b }),
            ],
        ) == seq![Op::Concrete(vm::Op::Assign { constant: a.wrapping_add(b) })],
{
    let p = seq![
        Op::Concrete(vm::Op::Assign { constant: a }),
        Op::Concrete(vm::Op::Add { constant: b }),
    ];
    let o1 = append_fused(Seq::empty(), p[0]);
    assert(o1 =~= seq![p[0]]);
    let o2 = append_fused(o1, p[1]);
    assert(o2 =~= seq![Op::Concrete(vm::Op::Assign { constant: a.wrapping_add(b) })]);
    assert(optimize_from(p, 2, o2) == o2);
    assert(optimize_from(p, 1, o1) == o2);
}

/// The decrement loop translates to a single `Assign(0)`, and running it
/// sets the cell under the cursor to zero whatever it held.
pub proof fn lemma_decrement_loop_clears_cell(tape: Seq<u8>, cursor: int)
    requires
        0 <= cursor < tape.len(),
    ensures
        translation(seq![LOOP_OPEN, DECREMENT, LOOP_CLOSE]) == Ok::<
            Seq<vm::Op>,
            Error,
        >(seq![vm::Op::Assign { constant: 0 }, vm::Op::Done]),
        vm::run(
            seq![vm::Op::Assign { constant: 0 }, vm::Op::Done],
            vm::State { tape, pc: 0, cursor },
            2,
        ) == (
            vm::State { tape: tape.update(cursor, 0), pc: 1, cursor },
            Seq::<u8>::empty(),
            Ok::<bool, vm::VmError>(true),
        ),
{
    let s = seq![LOOP_OPEN, DECREMENT, LOOP_CLOSE];
    let begin = seq![Op::LoopBegin];
    let s1 = seq![LOOP_OPEN];
    assert(s1.drop_last() =~= Seq::<u8>::empty());
    assert(symbolic(s1.drop_last()) =~= Seq::<Op>::empty());
    assert(emit(Seq::<Op>::empty(), LOOP_OPEN) =~= begin);
    assert(symbolic(s1) =~= begin);
    let two = begin.push(Op::Concrete(vm::Op::Add { constant: -1i8 }));
    let s2 = seq![LOOP_OPEN, DECREMENT];
    assert(s2.drop_last() =~= s1);
    assert(emit(begin, DECREMENT) =~= two);
    assert(symbolic(s2) =~= two);
    let p = two.push(Op::LoopEnd);
    assert(s.drop_last() =~= s2);
    assert(emit(two, LOOP_CLOSE) =~= p);
    assert(symbolic(s) =~= p);
    let z = Op::Concrete(vm::Op::Assign { constant: 0 });
    assert(zeroing_loop_at(p, 0));
    assert(optimize_from(p, 3, seq![z]) == seq![z]);
    assert(optimized(p) == seq![z]);
    assert(resolve_from(seq![z], 1, Seq::empty()) == Ok::<Seq<Op>, Error>(seq![z]));
    assert(resolved(seq![z]) == Ok::<Seq<Op>, Error>(seq![z]));
    assert(finished(seq![z]) =~= seq![vm::Op::Assign { constant: 0 }, vm::Op::Done]);
    let prog = seq![vm::Op::Assign { constant: 0 }, vm::Op::Done];
    let s0 = vm::State { tape, pc: 0, cursor };
    let s1 = vm::State { tape: tape.update(cursor, 0), pc: 1, cursor };
    assert(vm::step(prog, s0) == vm::Transition::Next(s1, None));
    assert(vm::run(prog, s1, 1) == (s1, Seq::<u8>::empty(), Ok::<bool, vm::VmError>(true)));
    assert(Seq::<u8>::empty() + Seq::<u8>::empty() =~= Seq::<u8>::empty());
}

} // verus!
