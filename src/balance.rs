use crate::bfir;
use vstd::prelude::*;

verus! {

/// The bracket of a source byte: `true` opens, `false` closes.
pub open spec fn byte_bracket(b: u8) -> Seq<bool> {
    if b == bfir::LOOP_OPEN {
        seq![true]
    } else if b == bfir::LOOP_CLOSE {
        seq![false]
    } else {
        Seq::empty()
    }
}

/// The brackets of a source text, in order, other bytes dropped.
pub open spec fn source_brackets(s: Seq<u8>) -> Seq<bool>
    decreases s.len(),
{
    if s.len() == 0 {
        Seq::empty()
    } else {
        source_brackets(s.drop_last()) + byte_bracket(s.last())
    }
}

pub open spec fn op_bracket(op: bfir::Op) -> Seq<bool> {
    match op {
        bfir::Op::LoopBegin => seq![true],
        bfir::Op::LoopEnd => seq![false],
        _ => Seq::empty(),
    }
}

/// The loop markers of an instruction sequence, in order.
pub open spec fn op_brackets(p: Seq<bfir::Op>) -> Seq<bool>
    decreases p.len(),
{
    if p.len() == 0 {
        Seq::empty()
    } else {
        op_brackets(p.drop_last()) + op_bracket(p.last())
    }
}

/// Openings minus closings.
pub open spec fn depth(w: Seq<bool>) -> int
    decreases w.len(),
{
    if w.len() == 0 {
        0
    } else {
        (if w[0] { 1int } else { -1int }) + depth(w.subrange(1, w.len() as int))
    }
}

/// Some prefix of the source closes more loops than it opened.
pub open spec fn has_excess_close(s: Seq<u8>) -> bool {
    let w = source_brackets(s);
    exists|k: int| 0 <= k <= w.len() && depth(#[trigger] w.take(k)) < 0
}

/// Every prefix closes at most the loops it opened, and the whole closes all.
pub open spec fn is_balanced(s: Seq<u8>) -> bool {
    !has_excess_close(s) && depth(source_brackets(s)) == 0
}

/// No prefix closes too many loops, but some loop is never closed.
pub open spec fn has_excess_open(s: Seq<u8>) -> bool {
    !has_excess_close(s) && depth(source_brackets(s)) > 0
}

/// Matching brackets left to right with `d` loops already open.
pub open spec fn scan(w: Seq<bool>, d: nat) -> Result<(), bfir::Error>
    decreases w.len(),
{
    if w.len() == 0 {
        if d == 0 {
            Ok(())
        } else {
            Err(bfir::Error::MismatchedLoopBegin)
        }
    } else if w[0] {
        scan(w.subrange(1, w.len() as int), d + 1)
    } else if d == 0 {
        Err(bfir::Error::MismatchedLoopEnd)
    } else {
        scan(w.subrange(1, w.len() as int), (d - 1) as nat)
    }
}

pub open spec fn outcome<T>(r: Result<T, bfir::Error>) -> Result<(), bfir::Error> {
    match r {
        Ok(_) => Ok(()),
        Err(e) => Err(e),
    }
}

proof fn lemma_scan_depth(w: Seq<bool>, d: nat)
    ensures
        scan(w, d) == if exists|k: int| 0 <= k <= w.len() && d + depth(#[trigger] w.take(k)) < 0 {
            Err::<(), bfir::Error>(bfir::Error::MismatchedLoopEnd)
        } else if d + depth(w) == 0 {
            Ok::<(), bfir::Error>(())
        } else {
            Err::<(), bfir::Error>(bfir::Error::MismatchedLoopBegin)
        },
    decreases w.len(),
{
    if w.len() == 0 {
        assert forall|k: int| 0 <= k <= w.len() implies d + depth(#[trigger] w.take(k)) >= 0 by {
            assert(w.take(k).len() == 0);
        }
    } else {
        let r = w.subrange(1, w.len() as int);
        let v: int = if w[0] { 1 } else { -1 };
        assert forall|k: int| 1 <= k <= w.len() implies depth(#[trigger] w.take(k)) == v + depth(
            r.take(k - 1),
        ) by {
            assert(w.take(k).subrange(1, k) =~= r.take(k - 1));
        }
        assert(depth(w.take(0)) == 0) by {
            assert(w.take(0).len() == 0);
        }
        if !w[0] && d == 0 {
            assert(d + depth(w.take(1)) < 0) by {
                assert(r.take(0).len() == 0);
            }
        } else {
            let d2: nat = if w[0] { d + 1 } else { (d - 1) as nat };
            lemma_scan_depth(r, d2);
            if exists|k: int| 0 <= k <= r.len() && d2 + depth(#[trigger] r.take(k)) < 0 {
                let k = choose|k: int| 0 <= k <= r.len() && d2 + depth(#[trigger] r.take(k)) < 0;
                assert(d + depth(w.take(k + 1)) < 0);
            } else {
                assert forall|k: int| 0 <= k <= w.len() implies d + depth(#[trigger] w.take(k)) >= 0 by {
                    if k >= 1 {
                        assert(d2 + depth(r.take(k - 1)) >= 0);
                    }
                }
            }
        }
    }
}

proof fn lemma_cancel(u: Seq<bool>, v: Seq<bool>, d: nat)
    ensures
        scan(u + seq![true, false] + v, d) == scan(u + v, d),
    decreases u.len(),
{
    let x = u + seq![true, false] + v;
    if u.len() == 0 {
        assert(x.subrange(1, x.len() as int) =~= seq![false] + v);
        assert(x[0]);
        let y = seq![false] + v;
        assert(!y[0]);
        assert(y.subrange(1, y.len() as int) =~= v);
        assert(scan(y, d + 1) == scan(v, d));
        assert(u + v =~= v);
    } else {
        let t = u.subrange(1, u.len() as int);
        assert(x.subrange(1, x.len() as int) =~= t + seq![true, false] + v);
        let uv = u + v;
        assert(uv.subrange(1, uv.len() as int) =~= t + v);
        assert(x[0] == u[0] && uv[0] == u[0]);
        if u[0] {
            lemma_cancel(t, v, d + 1);
        } else if d > 0 {
            lemma_cancel(t, v, (d - 1) as nat);
        }
    }
}

proof fn lemma_op_brackets_concat(a: Seq<bfir::Op>, b: Seq<bfir::Op>)
    ensures
        op_brackets(a + b) == op_brackets(a) + op_brackets(b),
    decreases b.len(),
{
    if b.len() == 0 {
        assert(a + b =~= a);
        assert(op_brackets(a) + op_brackets(b) =~= op_brackets(a));
    } else {
        assert((a + b).drop_last() =~= a + b.drop_last());
        lemma_op_brackets_concat(a, b.drop_last());
        assert(op_brackets(a + b) =~= op_brackets(a) + op_brackets(b));
    }
}

proof fn lemma_op_brackets_push(a: Seq<bfir::Op>, o: bfir::Op)
    ensures
        op_brackets(a.push(o)) == op_brackets(a) + op_bracket(o),
{
    assert(a.push(o).drop_last() =~= a);
}

proof fn lemma_op_brackets_replace_last(a: Seq<bfir::Op>, o: bfir::Op)
    requires
        a.len() > 0,
        op_bracket(o) == op_bracket(a.last()),
    ensures
        op_brackets(a.update(a.len() - 1, o)) == op_brackets(a),
{
    assert(a.update(a.len() - 1, o).drop_last() =~= a.drop_last());
}

proof fn lemma_emit_brackets(ops: Seq<bfir::Op>, b: u8)
    ensures
        op_brackets(bfir::emit(ops, b)) == op_brackets(ops) + byte_bracket(b),
{
    let add1 = bfir::Op::Concrete(crate::vm::Op::Add { constant: 1 });
    if b == bfir::INCREMENT || b == bfir::DECREMENT || b == bfir::MOVE_RIGHT || b == bfir::MOVE_LEFT {
        let r = bfir::emit(ops, b);
        if r.len() == ops.len() + 1 {
            lemma_op_brackets_push(ops, r.last());
            assert(r =~= ops.push(r.last()));
        } else {
            lemma_op_brackets_replace_last(ops, r.last());
            assert(r =~= ops.update(ops.len() - 1, r.last()));
        }
        assert(op_brackets(ops) + byte_bracket(b) =~= op_brackets(ops));
    } else if b == bfir::OUTPUT || b == bfir::INPUT || b == bfir::LOOP_OPEN || b == bfir::LOOP_CLOSE {
        let r = bfir::emit(ops, b);
        lemma_op_brackets_push(ops, r.last());
        assert(r =~= ops.push(r.last()));
        assert(op_bracket(r.last()) == byte_bracket(b));
    } else {
        assert(op_brackets(ops) + byte_bracket(b) =~= op_brackets(ops));
    }
}

proof fn lemma_symbolic_brackets(s: Seq<u8>)
    ensures
        op_brackets(bfir::symbolic(s)) == source_brackets(s),
    decreases s.len(),
{
    if s.len() > 0 {
        lemma_symbolic_brackets(s.drop_last());
        lemma_emit_brackets(bfir::symbolic(s.drop_last()), s.last());
    }
}

proof fn lemma_op_brackets_single(a: bfir::Op)
    ensures
        op_brackets(seq![a]) == op_bracket(a),
{
    lemma_op_brackets_push(Seq::empty(), a);
    assert(Seq::<bfir::Op>::empty().push(a) =~= seq![a]);
    assert(Seq::<bool>::empty() + op_bracket(a) =~= op_bracket(a));
}

proof fn lemma_op_brackets_split(p: Seq<bfir::Op>, i: int, j: int)
    requires
        0 <= i <= j <= p.len(),
    ensures
        op_brackets(p.subrange(i, p.len() as int)) == op_brackets(p.subrange(i, j)) + op_brackets(
            p.subrange(j, p.len() as int),
        ),
{
    assert(p.subrange(i, p.len() as int) =~= p.subrange(i, j) + p.subrange(j, p.len() as int));
    lemma_op_brackets_concat(p.subrange(i, j), p.subrange(j, p.len() as int));
}

proof fn lemma_append_fused_brackets(out: Seq<bfir::Op>, o: bfir::Op)
    ensures
        op_brackets(bfir::append_fused(out, o)) == op_brackets(out) + op_bracket(o),
{
    let r = bfir::append_fused(out, o);
    if r.len() == out.len() + 1 {
        assert(r =~= out.push(o));
        lemma_op_brackets_push(out, o);
    } else {
        lemma_op_brackets_replace_last(out, r.last());
        assert(r =~= out.update(out.len() - 1, r.last()));
        assert(op_brackets(out) + op_bracket(o) =~= op_brackets(out));
    }
}

proof fn lemma_optimize_brackets(p: Seq<bfir::Op>, i: int, out: Seq<bfir::Op>)
    requires
        0 <= i <= p.len(),
    ensures
        scan(op_brackets(bfir::optimize_from(p, i, out)), 0) == scan(
            op_brackets(out) + op_brackets(p.subrange(i, p.len() as int)),
            0,
        ),
    decreases p.len() - i,
{
    let rest = p.subrange(i, p.len() as int);
    if i == p.len() {
        assert(rest.len() == 0);
        assert(op_brackets(out) + op_brackets(rest) =~= op_brackets(out));
    } else if bfir::zeroing_loop_at(p, i) {
        let o2 = out.push(bfir::Op::Concrete(crate::vm::Op::Assign { constant: 0 }));
        lemma_op_brackets_push(out, bfir::Op::Concrete(crate::vm::Op::Assign { constant: 0 }));
        assert(op_brackets(o2) =~= op_brackets(out));
        lemma_optimize_brackets(p, i + 3, o2);
        lemma_op_brackets_split(p, i, i + 3);
        let w = p.subrange(i, i + 3);
        assert(w =~= seq![p[i]].push(p[i + 1]).push(p[i + 2]));
        lemma_op_brackets_single(p[i]);
        lemma_op_brackets_push(seq![p[i]], p[i + 1]);
        lemma_op_brackets_push(seq![p[i]].push(p[i + 1]), p[i + 2]);
        assert(op_brackets(w) =~= seq![true, false]);
        let tail = op_brackets(p.subrange(i + 3, p.len() as int));
        lemma_cancel(op_brackets(out), tail, 0);
        assert(op_brackets(out) + op_brackets(rest) =~= op_brackets(out) + seq![true, false] + tail);
    } else {
        let o2 = bfir::append_fused(out, p[i]);
        lemma_append_fused_brackets(out, p[i]);
        lemma_optimize_brackets(p, i + 1, o2);
        lemma_op_brackets_split(p, i, i + 1);
        assert(p.subrange(i, i + 1) =~= seq![p[i]]);
        lemma_op_brackets_single(p[i]);
        assert(op_brackets(o2) + op_brackets(p.subrange(i + 1, p.len() as int)) =~= op_brackets(out)
            + op_brackets(rest));
    }
}

proof fn lemma_resolve_brackets(p: Seq<bfir::Op>, i: int, stack: Seq<usize>)
    requires
        0 <= i <= p.len(),
        forall|k: int| 0 <= k < stack.len() ==> #[trigger] stack[k] < i,
    ensures
        outcome(bfir::resolve_from(p, i, stack)) == scan(
            op_brackets(p.subrange(i, p.len() as int)),
            stack.len(),
        ),
    decreases p.len() - i,
{
    let rest = p.subrange(i, p.len() as int);
    if i == p.len() {
        assert(rest.len() == 0);
    } else {
        lemma_op_brackets_split(p, i, i + 1);
        assert(p.subrange(i, i + 1) =~= seq![p[i]]);
        lemma_op_brackets_single(p[i]);
        let tail = op_brackets(p.subrange(i + 1, p.len() as int));
        let w = op_brackets(rest);
        assert(w == op_bracket(p[i]) + tail);
        if p[i] == bfir::Op::LoopBegin {
            assert(w.subrange(1, w.len() as int) =~= tail);
            let s2 = stack.push(i as usize);
            assert forall|k: int| 0 <= k < s2.len() implies #[trigger] s2[k] < i + 1 by {
                if k < stack.len() {
                    assert(s2[k] == stack[k]);
                }
            }
            lemma_resolve_brackets(p, i + 1, s2);
        } else if p[i] == bfir::Op::LoopEnd {
            assert(w.subrange(1, w.len() as int) =~= tail);
            if stack.len() > 0 {
                let b = stack.last();
                assert(stack[stack.len() - 1] < i);
                let q = p.update(
                    b as int,
                    bfir::Op::Concrete(crate::vm::Op::JumpIfZero { offset: (i + 1) as usize }),
                ).update(i, bfir::Op::Concrete(crate::vm::Op::JumpIfNonZero { offset: (b + 1) as usize }));
                let s2 = stack.drop_last();
                assert forall|k: int| 0 <= k < s2.len() implies #[trigger] s2[k] < i + 1 by {
                    assert(s2[k] == stack[k]);
                }
                lemma_resolve_brackets(q, i + 1, s2);
                assert(q.subrange(i + 1, q.len() as int) =~= p.subrange(i + 1, p.len() as int));
            }
        } else {
            assert(w =~= tail);
            lemma_resolve_brackets(p, i + 1, stack);
        }
    }
}

/// Translation succeeds exactly on sources with balanced brackets. A
/// source in which some prefix closes more loops than it opened fails with
/// `MismatchedLoopEnd`; one that leaves a loop open fails with
/// `MismatchedLoopBegin`.
pub proof fn lemma_translation_verdict(s: Seq<u8>)
    ensures
        is_balanced(s) <==> bfir::translation(s) is Ok,
        has_excess_close(s) ==> bfir::translation(s) == Err::<Seq<crate::vm::Op>, bfir::Error>(
            bfir::Error::MismatchedLoopEnd,
        ),
        has_excess_open(s) ==> bfir::translation(s) == Err::<Seq<crate::vm::Op>, bfir::Error>(
            bfir::Error::MismatchedLoopBegin,
        ),
{
    let p = bfir::symbolic(s);
    let o = bfir::optimized(p);
    lemma_resolve_brackets(o, 0, Seq::empty());
    assert(o.subrange(0, o.len() as int) =~= o);
    lemma_optimize_brackets(p, 0, Seq::empty());
    assert(p.subrange(0, p.len() as int) =~= p);
    assert(op_brackets(Seq::<bfir::Op>::empty()) + op_brackets(p) =~= op_brackets(p));
    lemma_symbolic_brackets(s);
    lemma_scan_depth(source_brackets(s), 0);
    let w = source_brackets(s);
    if has_excess_close(s) {
        let k = choose|k: int| 0 <= k <= w.len() && depth(#[trigger] w.take(k)) < 0;
        assert(0 + depth(w.take(k)) < 0);
    } else {
        assert forall|k: int| 0 <= k <= w.len() implies 0 + depth(#[trigger] w.take(k)) >= 0 by {
            assert(depth(w.take(k)) >= 0);
        }
    }
}

/// Translating a source with balanced brackets succeeds, and the program
/// ends in `Done`, which occurs nowhere else in it; its loop jumps are paired.
pub proof fn lemma_balanced_translation_finishes(s: Seq<u8>)
    requires
        is_balanced(s),
        s.len() <= usize::MAX,
    ensures
        bfir::translation(s) matches Ok(prog) && prog.len() > 0 && prog.last() == crate::vm::Op::Done
            && (forall|i: int| 0 <= i < prog.len() - 1 ==> prog[i] != crate::vm::Op::Done)
            && crate::vm::loops_paired(prog),
{
    lemma_translation_verdict(s);
    let p = bfir::symbolic(s);
    bfir::lemma_symbolic_len(s);
    bfir::lemma_symbolic_plain(s);
    bfir::lemma_optimize_len(p, 0, Seq::empty());
    bfir::lemma_optimize_plain(p, 0, Seq::empty());
    let o = bfir::optimized(p);
    bfir::lemma_resolve_sound(o, 0, Seq::empty());
    let q = bfir::resolved(o).unwrap();
    bfir::lemma_finished_well_formed(q);
    bfir::lemma_finished_paired(q);
}

} // verus!
