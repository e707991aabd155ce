//! What code means: where the machine goes in it, given what its parts leave.
//!
//! A part of a construct is an expression, a body or a pattern with code of
//! its own. What running that code comes to is not said here; for every
//! outcome it is said what the code of the whole does next.

use vstd::prelude::*;

use crate::ast::{Expr, ExprKind, If, LogicalOp, While};
use crate::bytecode::{Insn, Iseq};
use crate::compile::code;
use crate::compile::code::{Code, Jump, Lowered};
use crate::compile::extent;
use crate::compile::lower;
use crate::double::Floats;
use crate::heap::HeapModel;
use crate::interp::machine::MachineModel;
use crate::interp::object;
use crate::interp::trace;
use crate::value::{Unpacked, Value};

verus! {

// ---------------------------------------------------------------------------
// Code that the machine runs
// ---------------------------------------------------------------------------

/// Whether an instruction is a jump out of a loop that is still open: it is
/// aimed when the loop is closed.
pub open spec fn pending(c: Code, at: int) -> bool {
    exists|k: int, j: int|
        0 <= k < c.loops.len() && 0 <= j < c.loops[k].breaks.len()
            && #[trigger] c.loops[k].breaks[j] == at
}

/// Whether every jump out of an open loop is an instruction there is.
pub open spec fn sane(c: Code) -> bool {
    forall|at: int| #[trigger] pending(c, at) ==> at < c.insns.len()
}

/// Whether an instruction stands at a place and nothing is still to be done to
/// it.
#[verifier::opaque]
pub open spec fn fixed(c: Code, at: nat, insn: Insn) -> bool {
    &&& at < c.insns.len()
    &&& c.insns[at as int] == insn
    &&& !pending(c, at as int)
}

/// Whether a unit has the code that was lowered from a place on, with the jumps
/// out of open loops aimed somewhere.
pub open spec fn carries(iseq: Iseq, c: Code, from: nat) -> bool {
    &&& c.insns.len() <= iseq.insns@.len()
    &&& forall|at: nat, insn: Insn| #[trigger] fixed(c, at, insn) && from <= at ==> iseq.insns@[at as int] == insn
}

/// Whether a unit has the code that something was lowered to: the code grew
/// from `c` to `after`, which is not too long for a jump.
pub open spec fn has_code(iseq: Iseq, c: Code, after: Code) -> bool {
    &&& sane(c)
    &&& after.insns.len() <= i32::MAX
    &&& carries(iseq, after, c.here())
}

/// Whether a unit has the code of an expression, between two places.
pub open spec fn expr_at(iseq: Iseq, from: Code, expr: Expr, to: Code) -> bool {
    &&& lower::lower_expr(from, expr) == Ok::<Code, code::Unsupported>(to)
    &&& has_code(iseq, from, to)
}

/// Whether a unit has the code of statements whose value is kept, or is not.
pub open spec fn body_at(iseq: Iseq, from: Code, body: Seq<Expr>, keep: bool, to: Code) -> bool {
    &&& lower::lower_body(from, body, 0, keep) == Ok::<Code, code::Unsupported>(to)
    &&& has_code(iseq, from, to)
}

/// Whether a unit has the code of a pattern, between two places.
pub open spec fn pattern_at(iseq: Iseq, from: Code, pattern: Expr, to: Code) -> bool {
    &&& lower::lower_pattern(from, pattern) == Ok::<Code, code::Unsupported>(to)
    &&& has_code(iseq, from, to)
}

// ---------------------------------------------------------------------------
// Instructions that stay as they are
// ---------------------------------------------------------------------------

/// The instruction that is emitted stands at the next place.
pub broadcast proof fn lemma_fixed_emit(c: Code, insn: Insn)
    requires
        sane(c),
    ensures
        sane(#[trigger] c.emit(insn)),
        fixed(c.emit(insn), c.insns.len(), insn),
        c.emit(insn).insns.len() == c.insns.len() + 1,
{
    reveal(fixed);
    reveal(Code::emit);
    let next = c.emit(insn);
    assert forall|at: int| #[trigger] pending(next, at) implies pending(c, at) by {
        let (k, j) = choose|k: int, j: int|
            0 <= k < next.loops.len() && 0 <= j < next.loops[k].breaks.len()
                && #[trigger] next.loops[k].breaks[j] == at;
        assert(c.loops[k].breaks[j] == at);
    }
    if pending(next, c.insns.len() as int) {
        assert(pending(c, c.insns.len() as int));
    }
}

/// What stands somewhere stays there as code is emitted.
pub broadcast proof fn lemma_fixed_over_emit(c: Code, at: nat, insn: Insn, more: Insn)
    requires
        #[trigger] fixed(c, at, insn),
    ensures
        fixed(#[trigger] c.emit(more), at, insn),
{
    reveal(fixed);
    reveal(Code::emit);
    assert(pending(c.emit(more), at as int) ==> pending(c, at as int));
}

/// What stands somewhere stays there as a jump is aimed, but for the jump.
pub broadcast proof fn lemma_fixed_over_patch(c: Code, at: nat, insn: Insn, jump: nat, target: nat)
    requires
        #[trigger] fixed(c, at, insn),
    ensures
        fixed(
            #[trigger] c.patch(jump, target),
            at,
            if jump == at {
                code::retargeted(insn, code::displacement(at as int, target as int))
            } else {
                insn
            },
        ),
{
    reveal(fixed);
    reveal(Code::patch);
    assert(pending(c.patch(jump, target), at as int) ==> pending(c, at as int));
}

/// What stands somewhere stays there as a jump is aimed, but for the jump.
pub broadcast proof fn lemma_fixed_over_patch_here(c: Code, at: nat, insn: Insn, jump: nat)
    requires
        #[trigger] fixed(c, at, insn),
    ensures
        fixed(
            #[trigger] c.patch_here(jump),
            at,
            if jump == at {
                code::retargeted(insn, code::displacement(at as int, c.insns.len() as int))
            } else {
                insn
            },
        ),
{
    reveal(Code::patch_here);
    lemma_fixed_over_patch(c, at, insn, jump, c.here());
}

/// Aiming a jump adds none.
pub broadcast proof fn lemma_sane_patch(c: Code, jump: nat, target: nat)
    requires
        sane(c),
    ensures
        sane(#[trigger] c.patch(jump, target)),
        c.patch(jump, target).insns.len() == c.insns.len(),
{
    reveal(Code::patch);
    assert forall|at: int| #[trigger] pending(c.patch(jump, target), at) implies pending(c, at) by {
    }
}

/// Aiming a jump adds none.
pub broadcast proof fn lemma_sane_patch_here(c: Code, jump: nat)
    requires
        sane(c),
    ensures
        sane(#[trigger] c.patch_here(jump)),
        c.patch_here(jump).insns.len() == c.insns.len(),
{
    reveal(Code::patch_here);
    lemma_sane_patch(c, jump, c.here());
}

/// Whether two codes have the same instructions in the same loops.
pub open spec fn same_code(c: Code, b: Code) -> bool {
    b.insns == c.insns && b.loops == c.loops
}

pub proof fn lemma_same_code(c: Code, b: Code)
    requires
        same_code(c, b),
    ensures
        sane(c) ==> sane(b),
        forall|at: nat, insn: Insn| #[trigger] fixed(c, at, insn) ==> fixed(b, at, insn),
{
    reveal(fixed);
    assert forall|at: int| #[trigger] pending(b, at) implies pending(c, at) by {
    }
}

/// What stands somewhere stays there at another depth.
pub broadcast proof fn lemma_fixed_at_depth(c: Code, depth: nat)
    ensures
        sane(c) ==> sane(#[trigger] c.at_depth(depth)),
        c.at_depth(depth).insns.len() == c.insns.len(),
        forall|at: nat, insn: Insn| #[trigger]
            fixed(c, at, insn) ==> fixed(c.at_depth(depth), at, insn),
{
    reveal(Code::at_depth);
    lemma_same_code(c, c.at_depth(depth));
}

/// What stands somewhere is inside the code.
pub broadcast proof fn lemma_fixed_inside(c: Code, at: nat, insn: Insn)
    requires
        #[trigger] fixed(c, at, insn),
    ensures
        at < c.insns.len(),
{
    reveal(fixed);
}

/// An instruction more.
pub broadcast proof fn lemma_len_emit(c: Code, insn: Insn)
    ensures
        (#[trigger] c.emit(insn)).insns.len() == c.insns.len() + 1,
{
    reveal(Code::emit);
}

/// No instruction more.
pub broadcast proof fn lemma_len_patch(c: Code, jump: nat, target: nat)
    ensures
        (#[trigger] c.patch(jump, target)).insns.len() == c.insns.len(),
{
    reveal(Code::patch);
}

/// No instruction more.
pub broadcast proof fn lemma_len_patch_here(c: Code, jump: nat)
    ensures
        (#[trigger] c.patch_here(jump)).insns.len() == c.insns.len(),
{
    reveal(Code::patch_here);
    reveal(Code::patch);
}

/// What stands somewhere stays there as a loop is opened.
pub proof fn lemma_fixed_push_loop(c: Code)
    ensures
        c.push_loop().insns.len() == c.insns.len(),
        sane(c) ==> sane(c.push_loop()),
        forall|at: nat, insn: Insn| #[trigger]
            fixed(c, at, insn) ==> fixed(c.push_loop(), at, insn),
{
    reveal(Code::push_loop);
    reveal(fixed);
    let open = c.push_loop();
    assert forall|at: int| #[trigger] pending(open, at) implies pending(c, at) by {
        let (k, j) = choose|k: int, j: int|
            0 <= k < open.loops.len() && 0 <= j < open.loops[k].breaks.len()
                && #[trigger] open.loops[k].breaks[j] == at;
        assert(c.loops[k].breaks[j] == at);
    }
}

/// What stands somewhere stays there as a loop's `redo` is put somewhere.
pub broadcast proof fn lemma_fixed_redo_at(c: Code, target: nat)
    ensures
        (#[trigger] c.redo_at(target)).insns.len() == c.insns.len(),
        sane(c) ==> sane(c.redo_at(target)),
        forall|at: nat, insn: Insn| #[trigger]
            fixed(c, at, insn) ==> fixed(c.redo_at(target), at, insn),
{
    reveal(Code::redo_at);
    reveal(fixed);
    let next = c.redo_at(target);
    assert forall|at: int| #[trigger] pending(next, at) implies pending(c, at) by {
        let (k, j) = choose|k: int, j: int|
            0 <= k < next.loops.len() && 0 <= j < next.loops[k].breaks.len()
                && #[trigger] next.loops[k].breaks[j] == at;
        assert(c.loops[k].breaks[j] == at);
    }
}

/// What stands somewhere stays there as a loop's `next` is put somewhere.
pub broadcast proof fn lemma_fixed_next_at(c: Code, target: nat)
    ensures
        (#[trigger] c.next_at(target)).insns.len() == c.insns.len(),
        sane(c) ==> sane(c.next_at(target)),
        forall|at: nat, insn: Insn| #[trigger]
            fixed(c, at, insn) ==> fixed(c.next_at(target), at, insn),
{
    reveal(Code::next_at);
    reveal(fixed);
    let next = c.next_at(target);
    assert forall|at: int| #[trigger] pending(next, at) implies pending(c, at) by {
        let (k, j) = choose|k: int, j: int|
            0 <= k < next.loops.len() && 0 <= j < next.loops[k].breaks.len()
                && #[trigger] next.loops[k].breaks[j] == at;
        assert(c.loops[k].breaks[j] == at);
    }
}

/// Several jumps that are aimed leave everything else alone.
pub proof fn lemma_fixed_patch_all(c: Code, jumps: Seq<usize>, target: nat)
    ensures
        c.patch_all(jumps, target).insns.len() == c.insns.len(),
        c.patch_all(jumps, target).loops == c.loops,
        forall|at: nat, insn: Insn| #[trigger]
            fixed(c, at, insn) && (forall|k: int| 0 <= k < jumps.len() ==> jumps[k] != at) ==> fixed(
                c.patch_all(jumps, target),
                at,
                insn,
            ),
    decreases jumps.len(),
{
    reveal(Code::patch_all);
    if jumps.len() > 0 {
        let next = c.patch(jumps[0] as nat, target);
        reveal(Code::patch);
        lemma_fixed_patch_all(next, jumps.skip(1), target);
        assert forall|at: nat, insn: Insn| #[trigger]
            fixed(c, at, insn) && (forall|k: int| 0 <= k < jumps.len() ==> jumps[k] != at) implies fixed(
            c.patch_all(jumps, target),
            at,
            insn,
        ) by {
            lemma_fixed_over_patch(c, at, insn, jumps[0] as nat, target);
            assert forall|k: int| 0 <= k < jumps.skip(1).len() implies jumps.skip(1)[k] != at by {
                assert(jumps.skip(1)[k] == jumps[k + 1]);
            }
        }
    }
}

/// The code behind a loop, with the jumps out of it aimed there.
pub open spec fn closed_loop(inside: Code) -> Code {
    let out = inside.pop_loop().emit(Insn::PushNil);
    if inside.loops.len() == 0 {
        out
    } else {
        out.patch_all(inside.loops.last().breaks, out.here())
    }
}

/// What stands somewhere stays there as a loop is closed.
pub proof fn lemma_fixed_closed_loop(inside: Code)
    requires
        sane(inside),
    ensures
        closed_loop(inside).insns.len() == inside.insns.len() + 1,
        forall|at: nat, insn: Insn| #[trigger]
            fixed(inside, at, insn) ==> fixed(closed_loop(inside), at, insn),
        fixed(closed_loop(inside), inside.here(), Insn::PushNil),
{
    reveal(Code::pop_loop);
    let popped = inside.pop_loop();
    assert forall|at: int| #[trigger] pending(popped, at) implies pending(inside, at) by {
        let (k, j) = choose|k: int, j: int|
            0 <= k < popped.loops.len() && 0 <= j < popped.loops[k].breaks.len()
                && #[trigger] popped.loops[k].breaks[j] == at;
        assert(inside.loops[k].breaks[j] == at);
    }
    assert forall|at: nat, insn: Insn| #[trigger] fixed(inside, at, insn) implies fixed(
        popped,
        at,
        insn,
    ) by {
        reveal(fixed);
    }
    lemma_fixed_emit(popped, Insn::PushNil);
    let out = popped.emit(Insn::PushNil);
    if inside.loops.len() > 0 {
        let breaks = inside.loops.last().breaks;
        lemma_fixed_patch_all(out, breaks, out.here());
        assert forall|at: nat, insn: Insn| #[trigger] fixed(inside, at, insn) implies fixed(
            closed_loop(inside),
            at,
            insn,
        ) by {
            lemma_fixed_over_emit(popped, at, insn, Insn::PushNil);
            assert forall|k: int| 0 <= k < breaks.len() implies breaks[k] != at by {
                reveal(fixed);
                if breaks[k] == at {
                    assert(inside.loops[inside.loops.len() - 1].breaks[k] == at as int);
                    assert(pending(inside, at as int));
                }
            }
        }
        assert forall|k: int| 0 <= k < breaks.len() implies breaks[k] != inside.here() by {
            assert(inside.loops[inside.loops.len() - 1].breaks[k] == breaks[k] as int);
            assert(pending(inside, breaks[k] as int));
        }
    } else {
        assert forall|at: nat, insn: Insn| #[trigger] fixed(inside, at, insn) implies fixed(
            closed_loop(inside),
            at,
            insn,
        ) by {
            lemma_fixed_over_emit(popped, at, insn, Insn::PushNil);
        }
    }
}

/// What stands somewhere stays there.
pub broadcast group group_fixed {
    lemma_fixed_redo_at,
    lemma_fixed_next_at,
    lemma_fixed_inside,
    lemma_len_emit,
    lemma_len_patch,
    lemma_len_patch_here,
    lemma_fixed_emit,
    lemma_fixed_over_emit,
    lemma_fixed_over_patch,
    lemma_fixed_over_patch_here,
    lemma_sane_patch,
    lemma_sane_patch_here,
    lemma_fixed_at_depth,
}

/// What stands somewhere stays there as more is lowered.
pub proof fn lemma_fixed_kept(a: Code, b: Code)
    requires
        extent::kept(a, b),
        b.insns.len() <= i32::MAX,
    ensures
        a.insns.len() <= b.insns.len(),
        sane(a) ==> sane(b),
        forall|at: nat, insn: Insn| #[trigger] fixed(a, at, insn) ==> fixed(b, at, insn),
{
    reveal(extent::kept);
    reveal(fixed);
    assert forall|at: int| #[trigger] pending(b, at) && !pending(a, at) implies a.insns.len() <= at
        < b.insns.len() by {
        let (k, j) = choose|k: int, j: int|
            0 <= k < b.loops.len() && 0 <= j < b.loops[k].breaks.len()
                && #[trigger] b.loops[k].breaks[j] == at;
        assert(extent::later(
            a.loops[k].breaks,
            b.loops[k].breaks,
            a.insns.len(),
            b.insns.len(),
        ));
        if j < a.loops[k].breaks.len() {
            assert(a.loops[k].breaks[j] == at);
        }
    }
    assert forall|at: nat, insn: Insn| #[trigger] fixed(a, at, insn) implies fixed(b, at, insn) by {
        assert(a.insns[at as int] == b.insns[at as int]);
    }
}

/// What lowering an expression keeps.
pub proof fn lemma_expr_kept(from: Code, expr: Expr, to: Code)
    requires
        lower::lower_expr(from, expr) == Ok::<Code, code::Unsupported>(to),
    ensures
        from.insns.len() <= to.insns.len(),
        extent::kept(from, to),
{
    extent::lemma_kept_itself(from);
    extent::keep_expr(from, from, expr);
}

/// What lowering statements keeps.
pub proof fn lemma_body_kept(from: Code, body: Seq<Expr>, keep: bool, to: Code)
    requires
        lower::lower_body(from, body, 0, keep) == Ok::<Code, code::Unsupported>(to),
    ensures
        from.insns.len() <= to.insns.len(),
        extent::kept(from, to),
{
    extent::lemma_kept_itself(from);
    extent::keep_body(from, from, body, 0, keep);
}

/// What lowering a pattern keeps.
pub proof fn lemma_pattern_kept(from: Code, pattern: Expr, to: Code)
    requires
        lower::lower_pattern(from, pattern) == Ok::<Code, code::Unsupported>(to),
    ensures
        from.insns.len() <= to.insns.len(),
        extent::kept(from, to),
{
    extent::lemma_kept_itself(from);
    extent::keep_pattern(from, from, pattern);
}

/// A unit that has longer code has the code it grew from.
pub proof fn lemma_carries_part(iseq: Iseq, c: Code, part: Code, after: Code, from: nat)
    requires
        carries(iseq, after, c.here()),
        c.here() <= from,
        part.insns.len() <= after.insns.len(),
        forall|at: nat, insn: Insn| #[trigger]
            fixed(part, at, insn) && from <= at ==> fixed(after, at, insn),
    ensures
        carries(iseq, part, from),
{
}

// ---------------------------------------------------------------------------
// Where the machine is, and where it goes
// ---------------------------------------------------------------------------

/// Whether a state has come to a place in the frame that another is in, with
/// certain operands.
pub open spec fn comes(s: MachineModel, now: MachineModel, place: nat, stack: Seq<Value>) -> bool {
    &&& trace::same_frame(s, now)
    &&& now.top().pc == place
    &&& now.stack == stack
}

/// Whether the machine gets from a state straight to a place, with certain
/// operands and nothing else changed.
pub open spec fn leads<F: Floats>(
    floats: &F,
    m: HeapModel,
    s: MachineModel,
    place: nat,
    stack: Seq<Value>,
) -> bool {
    trace::reaches(floats, m, s, m, trace::moved(s, place, stack))
}

/// A turn that moves values or jumps, and where it goes.
pub proof fn lemma_goes<F: Floats>(
    floats: &F,
    m: HeapModel,
    s: MachineModel,
    place: nat,
    stack: Seq<Value>,
)
    requires
        s.frames.len() > 0,
        place <= usize::MAX,
        trace::next_state(s) == Some(trace::moved(s, place, stack)),
    ensures
        leads(floats, m, s, place, stack),
        comes(s, trace::moved(s, place, stack), place, stack),
{
    trace::lemma_next(floats, m, s);
}

/// A state is where it is.
pub proof fn lemma_stays<F: Floats>(floats: &F, m: HeapModel, s: MachineModel)
    requires
        s.frames.len() > 0,
    ensures
        leads(floats, m, s, s.top().pc as nat, s.stack),
{
    let here = trace::moved(s, s.top().pc as nat, s.stack);
    assert(here.frames =~= s.frames);
    assert(here =~= s);
    trace::lemma_reaches_itself(floats, m, s);
}

/// One turn more, from where something leads.
pub proof fn lemma_then<F: Floats>(
    floats: &F,
    m: HeapModel,
    s: MachineModel,
    place: nat,
    stack: Seq<Value>,
    next: nat,
    then_stack: Seq<Value>,
)
    requires
        s.frames.len() > 0,
        leads(floats, m, s, place, stack),
        next <= usize::MAX,
        trace::next_state(trace::moved(s, place, stack)) == Some(
            trace::moved(trace::moved(s, place, stack), next, then_stack),
        ),
    ensures
        leads(floats, m, s, next, then_stack),
{
    let mid = trace::moved(s, place, stack);
    lemma_goes(floats, m, mid, next, then_stack);
    lemma_leads_on(floats, m, s, place, stack, next, then_stack);
}

/// What leads somewhere from where something leads.
pub proof fn lemma_leads_on<F: Floats>(
    floats: &F,
    m: HeapModel,
    s: MachineModel,
    place: nat,
    stack: Seq<Value>,
    next: nat,
    then_stack: Seq<Value>,
)
    requires
        s.frames.len() > 0,
        leads(floats, m, s, place, stack),
        leads(floats, m, trace::moved(s, place, stack), next, then_stack),
    ensures
        leads(floats, m, s, next, then_stack),
{
    let mid = trace::moved(s, place, stack);
    assert(trace::moved(mid, next, then_stack).frames =~= trace::moved(
        s,
        next,
        then_stack,
    ).frames);
    assert(trace::moved(mid, next, then_stack) =~= trace::moved(s, next, then_stack));
    trace::lemma_reaches_on(floats, m, s, m, mid, m, trace::moved(s, next, then_stack));
}

// ---------------------------------------------------------------------------
// Control flow
// ---------------------------------------------------------------------------

/// The value of a loop that ran out.
pub open spec fn nil() -> Value {
    Value::pack(Unpacked::Nil)
}

/// What a loop does, given what its condition and its body leave: `p` and `b`
/// are where their code starts, `p_end` and `b_end` where it ends.
pub open spec fn loops<F: Floats>(
    floats: &F,
    node: While,
    after: Code,
    m: HeapModel,
    s: MachineModel,
    parts: (Code, Code, Code, Code),
) -> bool {
    let (p, p_end, b, b_end) = parts;
        &&& expr_at(s.top().iseq, p, node.predicate, p_end)
        &&& body_at(s.top().iseq, b, node.body@, false, b_end)
        &&& leads(
            floats,
            m,
            s,
            if node.post {
                b.here()
            } else {
                p.here()
            },
            s.stack,
        )
        &&& forall|mid: HeapModel, now: MachineModel, v: Value| #[trigger]
            comes(s, now, p_end.here(), s.stack.push(v)) && object::truthy(v) != node.until
                ==> #[trigger] leads(floats, mid, now, b.here(), s.stack)
        &&& forall|mid: HeapModel, now: MachineModel, v: Value| #[trigger]
            comes(s, now, p_end.here(), s.stack.push(v)) && object::truthy(v) == node.until
                ==> #[trigger] leads(floats, mid, now, after.here(), s.stack.push(nil()))
        &&& forall|mid: HeapModel, now: MachineModel| #[trigger]
            comes(s, now, b_end.here(), s.stack) ==> #[trigger] leads(
                floats,
                mid,
                now,
                p.here(),
                s.stack,
            )
}

/// A loop that asks behind its body.
#[verifier::rlimit(20)]
#[verifier::spinoff_prover]
proof fn lemma_loop_behind<F: Floats>(
    floats: &F,
    c: Code,
    node: While,
    after: Code,
    m: HeapModel,
    s: MachineModel,
) -> (parts: (Code, Code, Code, Code))
    requires
        node.post,
        lower::lower_while(c, node) == Ok::<Code, code::Unsupported>(after),
        has_code(s.top().iseq, c, after),
        s.frames.len() > 0,
        s.top().pc == c.here(),
    ensures
        loops(floats, node, after, m, s, parts),
{
    broadcast use group_fixed;

    let iseq = s.top().iseq;
    let open = c.push_loop();
    lemma_fixed_push_loop(c);
    let top = c.here();
    let b = open.redo_at(open.here());
    let b_end = lower::lower_body(b, node.body@, 0, false)->Ok_0;
    let p = b_end.next_at(b_end.here());
    let p_end = lower::lower_expr(p, node.predicate)->Ok_0;
    let back = if node.until {
        Insn::JumpUnless(0)
    } else {
        Insn::JumpIf(0)
    };
    let inside = p_end.emit(back).patch(p_end.here(), open.here());
    lemma_body_kept(b, node.body@, false, b_end);
    lemma_expr_kept(p, node.predicate, p_end);
    assert(after == closed_loop(inside));
    reveal(Code::pop_loop);
    assert(closed_loop(inside).insns.len() == inside.insns.len() + 1) by {
        lemma_fixed_patch_all(
            inside.pop_loop().emit(Insn::PushNil),
            inside.loops.last().breaks,
            inside.pop_loop().emit(Insn::PushNil).here(),
        );
    }
    lemma_fixed_kept(b, b_end);
    lemma_fixed_kept(p, p_end);
    lemma_fixed_closed_loop(inside);
    lemma_carries_part(iseq, c, b_end, after, b.here());
    lemma_carries_part(iseq, c, p_end, after, p.here());
    let by = code::displacement(p_end.here() as int, b.here() as int);
    assert(fixed(after, p_end.here(), code::retargeted(back, by)));
    assert(fixed(after, p_end.here() + 1, Insn::PushNil));
    lemma_stays(floats, m, s);
    assert forall|mid: HeapModel, now: MachineModel, v: Value| #[trigger]
        comes(s, now, p_end.here(), s.stack.push(v)) && object::truthy(v)
            != node.until implies #[trigger] leads(floats, mid, now, b.here(), s.stack) by {
        assert(s.stack.push(v).drop_last() =~= s.stack);
        lemma_goes(floats, mid, now, b.here(), s.stack);
    }
    assert forall|mid: HeapModel, now: MachineModel, v: Value| #[trigger]
        comes(s, now, p_end.here(), s.stack.push(v)) && object::truthy(v)
            == node.until implies #[trigger] leads(
        floats,
        mid,
        now,
        after.here(),
        s.stack.push(nil()),
    ) by {
        assert(s.stack.push(v).drop_last() =~= s.stack);
        lemma_goes(floats, mid, now, p_end.here() + 1, s.stack);
        lemma_then(
            floats,
            mid,
            now,
            p_end.here() + 1,
            s.stack,
            after.here(),
            s.stack.push(nil()),
        );
    }
    assert forall|mid: HeapModel, now: MachineModel| #[trigger]
        comes(s, now, b_end.here(), s.stack) implies #[trigger] leads(
        floats,
        mid,
        now,
        p.here(),
        s.stack,
    ) by {
        lemma_stays(floats, mid, now);
    }
    (p, p_end, b, b_end)
}

/// A loop that asks first.
#[verifier::rlimit(20)]
#[verifier::spinoff_prover]
proof fn lemma_loop_ahead<F: Floats>(
    floats: &F,
    c: Code,
    node: While,
    after: Code,
    m: HeapModel,
    s: MachineModel,
) -> (parts: (Code, Code, Code, Code))
    requires
        !node.post,
        lower::lower_while(c, node) == Ok::<Code, code::Unsupported>(after),
        has_code(s.top().iseq, c, after),
        s.frames.len() > 0,
        s.top().pc == c.here(),
    ensures
        loops(floats, node, after, m, s, parts),
{
    broadcast use group_fixed;

    let iseq = s.top().iseq;
    let open = c.push_loop();
    lemma_fixed_push_loop(c);
    let top = c.here();
    let p = open;
    let p_end = lower::lower_expr(p, node.predicate)->Ok_0;
    let out = p_end.here();
    let leave = if node.until {
        Insn::JumpIf(0)
    } else {
        Insn::JumpUnless(0)
    };
    let b = p_end.emit(leave).redo_at(p_end.emit(leave).here());
    let b_end = lower::lower_body(b, node.body@, 0, false)->Ok_0;
    let inside = b_end.emit(Insn::Jump(0)).patch(b_end.here(), top).patch_here(out);
    lemma_expr_kept(p, node.predicate, p_end);
    lemma_body_kept(b, node.body@, false, b_end);
    assert(after == closed_loop(inside));
    reveal(Code::pop_loop);
    assert(closed_loop(inside).insns.len() == inside.insns.len() + 1) by {
        lemma_fixed_patch_all(
            inside.pop_loop().emit(Insn::PushNil),
            inside.loops.last().breaks,
            inside.pop_loop().emit(Insn::PushNil).here(),
        );
    }
    lemma_fixed_kept(p, p_end);
    lemma_fixed_kept(b, b_end);
    lemma_fixed_closed_loop(inside);
    lemma_carries_part(iseq, c, p_end, after, p.here());
    lemma_carries_part(iseq, c, b_end, after, b.here());
    let end = inside.here();
    let leave_by = code::displacement(out as int, end as int);
    let back_by = code::displacement(b_end.here() as int, top as int);
    assert(fixed(after, out, code::retargeted(leave, leave_by)));
    assert(fixed(after, b_end.here(), Insn::Jump(back_by)));
    assert(fixed(after, end, Insn::PushNil));
    lemma_stays(floats, m, s);
    assert forall|mid: HeapModel, now: MachineModel, v: Value| #[trigger]
        comes(s, now, p_end.here(), s.stack.push(v)) && object::truthy(v)
            != node.until implies #[trigger] leads(floats, mid, now, b.here(), s.stack) by {
        assert(s.stack.push(v).drop_last() =~= s.stack);
        lemma_goes(floats, mid, now, b.here(), s.stack);
    }
    assert forall|mid: HeapModel, now: MachineModel, v: Value| #[trigger]
        comes(s, now, p_end.here(), s.stack.push(v)) && object::truthy(v)
            == node.until implies #[trigger] leads(
        floats,
        mid,
        now,
        after.here(),
        s.stack.push(nil()),
    ) by {
        assert(s.stack.push(v).drop_last() =~= s.stack);
        lemma_goes(floats, mid, now, end, s.stack);
        lemma_then(floats, mid, now, end, s.stack, after.here(), s.stack.push(nil()));
    }
    assert forall|mid: HeapModel, now: MachineModel| #[trigger]
        comes(s, now, b_end.here(), s.stack) implies #[trigger] leads(
        floats,
        mid,
        now,
        p.here(),
        s.stack,
    ) by {
        lemma_goes(floats, mid, now, p.here(), s.stack);
    }
    (p, p_end, b, b_end)
}

/// A loop goes on as long as its condition says so: `while` as long as the
/// condition is neither `nil` nor `false`, `until` as long as it is one of
/// those. The condition is asked before the first turn, or, in a loop that is
/// written behind its body, after it; it is asked again after every turn. A
/// loop that ends leaves `nil`.
pub proof fn law_a_loop_follows_its_condition<F: Floats>(
    floats: &F,
    c: Code,
    expr: Expr,
    after: Code,
    m: HeapModel,
    s: MachineModel,
) -> (parts: (Code, Code, Code, Code))
    requires
        expr.kind is While,
        expr_at(s.top().iseq, c, expr, after),
        s.frames.len() > 0,
        s.top().pc == c.here(),
    ensures
        loops(floats, *expr.kind->While_0, after, m, s, parts),
{
    let node = *expr.kind->While_0;
    if node.post {
        lemma_loop_behind(floats, c, node, after, m, s)
    } else {
        lemma_loop_ahead(floats, c, node, after, m, s)
    }
}

/// The code of a branch: statements, or `nil` where none are written.
pub open spec fn lower_arm(c: Code, body: Option<Seq<Expr>>) -> Lowered {
    match body {
        Some(body) => lower::lower_body(c, body, 0, true),
        None => Ok(c.emit(Insn::PushNil)),
    }
}

/// Whether a unit has the code of a branch, between two places.
pub open spec fn arm_at(iseq: Iseq, from: Code, body: Option<Seq<Expr>>, to: Code) -> bool {
    &&& lower_arm(from, body) == Ok::<Code, code::Unsupported>(to)
    &&& has_code(iseq, from, to)
}

/// What lowering a branch keeps.
pub proof fn lemma_arm_kept(from: Code, body: Option<Seq<Expr>>, to: Code)
    requires
        lower_arm(from, body) == Ok::<Code, code::Unsupported>(to),
    ensures
        from.insns.len() <= to.insns.len(),
        extent::kept(from, to),
{
    extent::lemma_kept_itself(from);
    match body {
        Some(body) => {
            lemma_body_kept(from, body, true, to);
        },
        None => {
            extent::lemma_kept_emit(from, from, Insn::PushNil);
        },
    }
}

/// The branch an `if` without a value for it leaves `nil` in.
pub open spec fn else_of(node: If) -> Option<Seq<Expr>> {
    match node.else_body {
        Some(body) => Some(body@),
        None => None,
    }
}

/// `if` runs its first body where the condition is neither `nil` nor `false`,
/// `unless` where it is one of those; otherwise the `else` body is run, or there
/// is `nil` where none is written. What the body that is run leaves is left.
///
/// The places are those of the condition, of the body and of the `else` body,
/// each with where its code ends.
pub proof fn law_a_condition_takes_one_branch<F: Floats>(
    floats: &F,
    c: Code,
    expr: Expr,
    after: Code,
    m: HeapModel,
    s: MachineModel,
) -> (parts: (Code, Code, Code, Code, Code, Code))
    requires
        expr.kind is If,
        expr_at(s.top().iseq, c, expr, after),
        s.frames.len() > 0,
        s.top().pc == c.here(),
    ensures
        ({
            let (p, p_end, t, t_end, e, e_end) = parts;
            let node = expr.kind->If_0;
            &&& expr_at(s.top().iseq, p, node.predicate, p_end)
            &&& arm_at(s.top().iseq, t, Some(node.then_body@), t_end)
            &&& arm_at(s.top().iseq, e, else_of(*node), e_end)
            &&& leads(floats, m, s, p.here(), s.stack)
            &&& forall|mid: HeapModel, now: MachineModel, v: Value| #[trigger]
                comes(s, now, p_end.here(), s.stack.push(v)) && object::truthy(v) != node.unless
                    ==> #[trigger] leads(floats, mid, now, t.here(), s.stack)
            &&& forall|mid: HeapModel, now: MachineModel, v: Value| #[trigger]
                comes(s, now, p_end.here(), s.stack.push(v)) && object::truthy(v) == node.unless
                    ==> #[trigger] leads(floats, mid, now, e.here(), s.stack)
            &&& node.else_body is None ==> forall|mid: HeapModel, now: MachineModel| #[trigger]
                comes(s, now, e.here(), s.stack) ==> #[trigger] leads(
                    floats,
                    mid,
                    now,
                    after.here(),
                    s.stack.push(nil()),
                )
            &&& forall|mid: HeapModel, now: MachineModel, v: Value| #[trigger]
                comes(s, now, t_end.here(), s.stack.push(v)) ==> #[trigger] leads(
                    floats,
                    mid,
                    now,
                    after.here(),
                    s.stack.push(v),
                )
            &&& forall|mid: HeapModel, now: MachineModel, v: Value| #[trigger]
                comes(s, now, e_end.here(), s.stack.push(v)) ==> #[trigger] leads(
                    floats,
                    mid,
                    now,
                    after.here(),
                    s.stack.push(v),
                )
        }),
{
    let node = *expr.kind->If_0;
    let p_end = lower::lower_expr(c, node.predicate)->Ok_0;
    let (first, second) = if node.unless {
        (else_of(node), Some(node.then_body@))
    } else {
        (Some(node.then_body@), else_of(node))
    };
    let (f, f_end, g, g_end) = lemma_two_arms(
        floats,
        c,
        node.predicate,
        first,
        second,
        after,
        m,
        s,
    );
    if node.unless {
        (c, p_end, g, g_end, f, f_end)
    } else {
        (c, p_end, f, f_end, g, g_end)
    }
}

/// A condition with a branch for either answer.
spec fn two_arms(
    c: Code,
    predicate: Expr,
    first: Option<Seq<Expr>>,
    second: Option<Seq<Expr>>,
) -> Lowered {
    match lower::lower_expr(c, predicate) {
        Ok(c) => {
            let to_else = c.here();
            let c = c.emit(Insn::JumpUnless(0));
            let before = c.depth;
            match lower_arm(c, first) {
                Ok(c) => {
                    let to_end = c.here();
                    let c = c.emit(Insn::Jump(0)).patch_here(to_else).at_depth(before);
                    match lower_arm(c, second) {
                        Ok(c) => Ok(c.patch_here(to_end)),
                        Err(u) => Err(u),
                    }
                },
                Err(u) => Err(u),
            }
        },
        Err(u) => Err(u),
    }
}

/// What a condition with a branch for either answer does.
#[verifier::rlimit(20)]
#[verifier::spinoff_prover]
proof fn lemma_two_arms<F: Floats>(
    floats: &F,
    c: Code,
    predicate: Expr,
    first: Option<Seq<Expr>>,
    second: Option<Seq<Expr>>,
    after: Code,
    m: HeapModel,
    s: MachineModel,
) -> (parts: (Code, Code, Code, Code))
    requires
        two_arms(c, predicate, first, second) == Ok::<Code, code::Unsupported>(after),
        has_code(s.top().iseq, c, after),
        s.frames.len() > 0,
        s.top().pc == c.here(),
    ensures
        ({
            let (f, f_end, g, g_end) = parts;
            let p_end = lower::lower_expr(c, predicate)->Ok_0;
            &&& expr_at(s.top().iseq, c, predicate, p_end)
            &&& arm_at(s.top().iseq, f, first, f_end)
            &&& arm_at(s.top().iseq, g, second, g_end)
            &&& leads(floats, m, s, c.here(), s.stack)
            &&& forall|mid: HeapModel, now: MachineModel, v: Value| #[trigger]
                comes(s, now, p_end.here(), s.stack.push(v)) && object::truthy(v)
                    ==> #[trigger] leads(floats, mid, now, f.here(), s.stack)
            &&& forall|mid: HeapModel, now: MachineModel, v: Value| #[trigger]
                comes(s, now, p_end.here(), s.stack.push(v)) && !object::truthy(v)
                    ==> #[trigger] leads(floats, mid, now, g.here(), s.stack)
            &&& first is None ==> forall|mid: HeapModel, now: MachineModel| #[trigger]
                comes(s, now, f.here(), s.stack) ==> #[trigger] leads(
                    floats,
                    mid,
                    now,
                    after.here(),
                    s.stack.push(nil()),
                )
            &&& second is None ==> forall|mid: HeapModel, now: MachineModel| #[trigger]
                comes(s, now, g.here(), s.stack) ==> #[trigger] leads(
                    floats,
                    mid,
                    now,
                    after.here(),
                    s.stack.push(nil()),
                )
            &&& forall|mid: HeapModel, now: MachineModel, v: Value| #[trigger]
                comes(s, now, f_end.here(), s.stack.push(v)) ==> #[trigger] leads(
                    floats,
                    mid,
                    now,
                    after.here(),
                    s.stack.push(v),
                )
            &&& forall|mid: HeapModel, now: MachineModel, v: Value| #[trigger]
                comes(s, now, g_end.here(), s.stack.push(v)) ==> #[trigger] leads(
                    floats,
                    mid,
                    now,
                    after.here(),
                    s.stack.push(v),
                )
        }),
{
    broadcast use group_fixed;

    let iseq = s.top().iseq;
    let p_end = lower::lower_expr(c, predicate)->Ok_0;
    let to_else = p_end.here();
    let f = p_end.emit(Insn::JumpUnless(0));
    let f_end = lower_arm(f, first)->Ok_0;
    let to_end = f_end.here();
    let g = f_end.emit(Insn::Jump(0)).patch_here(to_else).at_depth(f.depth);
    let g_end = lower_arm(g, second)->Ok_0;
    lemma_expr_kept(c, predicate, p_end);
    lemma_arm_kept(f, first, f_end);
    lemma_arm_kept(g, second, g_end);
    assert(after == g_end.patch_here(to_end));
    lemma_fixed_kept(c, p_end);
    lemma_fixed_kept(f, f_end);
    lemma_fixed_kept(g, g_end);
    lemma_carries_part(iseq, c, p_end, after, c.here());
    lemma_carries_part(iseq, c, f_end, after, f.here());
    lemma_carries_part(iseq, c, g_end, after, g.here());
    let else_by = code::displacement(to_else as int, g.here() as int);
    let end_by = code::displacement(to_end as int, after.here() as int);
    assert(fixed(after, to_else, Insn::JumpUnless(else_by)));
    assert(fixed(after, to_end, Insn::Jump(end_by)));
    lemma_stays(floats, m, s);
    assert forall|mid: HeapModel, now: MachineModel, v: Value| #[trigger]
        comes(s, now, p_end.here(), s.stack.push(v)) && object::truthy(v) implies #[trigger] leads(
        floats,
        mid,
        now,
        f.here(),
        s.stack,
    ) by {
        assert(s.stack.push(v).drop_last() =~= s.stack);
        lemma_goes(floats, mid, now, f.here(), s.stack);
    }
    assert forall|mid: HeapModel, now: MachineModel, v: Value| #[trigger]
        comes(s, now, p_end.here(), s.stack.push(v)) && !object::truthy(v) implies #[trigger] leads(
        floats,
        mid,
        now,
        g.here(),
        s.stack,
    ) by {
        assert(s.stack.push(v).drop_last() =~= s.stack);
        lemma_goes(floats, mid, now, g.here(), s.stack);
    }
    assert forall|mid: HeapModel, now: MachineModel, v: Value| #[trigger]
        comes(s, now, f_end.here(), s.stack.push(v)) implies #[trigger] leads(
        floats,
        mid,
        now,
        after.here(),
        s.stack.push(v),
    ) by {
        lemma_goes(floats, mid, now, after.here(), s.stack.push(v));
    }
    assert forall|mid: HeapModel, now: MachineModel, v: Value| #[trigger]
        comes(s, now, g_end.here(), s.stack.push(v)) implies #[trigger] leads(
        floats,
        mid,
        now,
        after.here(),
        s.stack.push(v),
    ) by {
        lemma_stays(floats, mid, now);
    }
    if first is None {
        assert(fixed(after, f.here(), Insn::PushNil));
        assert forall|mid: HeapModel, now: MachineModel| #[trigger]
            comes(s, now, f.here(), s.stack) implies #[trigger] leads(
            floats,
            mid,
            now,
            after.here(),
            s.stack.push(nil()),
        ) by {
            lemma_goes(floats, mid, now, to_end, s.stack.push(nil()));
            lemma_then(
                floats,
                mid,
                now,
                to_end,
                s.stack.push(nil()),
                after.here(),
                s.stack.push(nil()),
            );
        }
    }
    if second is None {
        assert(fixed(after, g.here(), Insn::PushNil));
        assert forall|mid: HeapModel, now: MachineModel| #[trigger]
            comes(s, now, g.here(), s.stack) implies #[trigger] leads(
            floats,
            mid,
            now,
            after.here(),
            s.stack.push(nil()),
        ) by {
            lemma_goes(floats, mid, now, after.here(), s.stack.push(nil()));
        }
    }
    (f, f_end, g, g_end)
}

/// `and` and `or` ask the left side first. Where that decides the answer it is
/// what is left, and the right side is not run: of `and` where it is `nil` or
/// `false`, of `or` where it is neither. Otherwise the right side is run, and
/// what it leaves is left.
pub proof fn law_a_logical_operator_is_decided_from_the_left<F: Floats>(
    floats: &F,
    c: Code,
    expr: Expr,
    after: Code,
    m: HeapModel,
    s: MachineModel,
) -> (parts: (Code, Code, Code, Code))
    requires
        expr.kind is Logical,
        expr_at(s.top().iseq, c, expr, after),
        s.frames.len() > 0,
        s.top().pc == c.here(),
    ensures
        ({
            let (l, l_end, r, r_end) = parts;
            let node = expr.kind->Logical_0;
            &&& expr_at(s.top().iseq, l, node.left, l_end)
            &&& expr_at(s.top().iseq, r, node.right, r_end)
            &&& leads(floats, m, s, l.here(), s.stack)
            &&& forall|mid: HeapModel, now: MachineModel, v: Value| #[trigger]
                comes(s, now, l_end.here(), s.stack.push(v)) && object::truthy(v) == (node.op is Or)
                    ==> #[trigger] leads(floats, mid, now, after.here(), s.stack.push(v))
            &&& forall|mid: HeapModel, now: MachineModel, v: Value| #[trigger]
                comes(s, now, l_end.here(), s.stack.push(v)) && object::truthy(v) != (node.op is Or)
                    ==> #[trigger] leads(floats, mid, now, r.here(), s.stack)
            &&& r_end.here() == after.here()
        }),
{
    broadcast use group_fixed;

    let node = expr.kind->Logical_0;
    let iseq = s.top().iseq;
    let keep = match node.op {
        LogicalOp::And => Jump::UnlessKeep,
        LogicalOp::Or => Jump::IfKeep,
    };
    let l_end = lower::lower_expr(c, node.left)->Ok_0;
    let short = l_end.here();
    let r = l_end.emit(keep.over(0)).emit(Insn::Pop);
    let r_end = lower::lower_expr(r, node.right)->Ok_0;
    lemma_expr_kept(c, node.left, l_end);
    lemma_expr_kept(r, node.right, r_end);
    assert(after == r_end.patch_here(short));
    lemma_fixed_kept(c, l_end);
    lemma_fixed_kept(r, r_end);
    lemma_carries_part(iseq, c, l_end, after, c.here());
    lemma_carries_part(iseq, c, r_end, after, r.here());
    let by = code::displacement(short as int, after.here() as int);
    assert(fixed(after, short, code::retargeted(keep.over(0), by)));
    assert(fixed(after, short + 1, Insn::Pop));
    lemma_stays(floats, m, s);
    assert forall|mid: HeapModel, now: MachineModel, v: Value| #[trigger]
        comes(s, now, l_end.here(), s.stack.push(v)) && object::truthy(v) == (
    node.op is Or) implies #[trigger] leads(floats, mid, now, after.here(), s.stack.push(v)) by {
        lemma_goes(floats, mid, now, after.here(), s.stack.push(v));
    }
    assert forall|mid: HeapModel, now: MachineModel, v: Value| #[trigger]
        comes(s, now, l_end.here(), s.stack.push(v)) && object::truthy(v) != (
    node.op is Or) implies #[trigger] leads(floats, mid, now, r.here(), s.stack) by {
        assert(s.stack.push(v).drop_last() =~= s.stack);
        lemma_goes(floats, mid, now, short + 1, s.stack.push(v));
        lemma_then(floats, mid, now, short + 1, s.stack.push(v), r.here(), s.stack);
    }
    (c, l_end, r, r_end)
}

// ---------------------------------------------------------------------------
// Patterns
// ---------------------------------------------------------------------------

/// `a | b` matches what `a` matches and what `b` matches. The left pattern is
/// run on the subject. Where it leaves true the whole has matched, and the right
/// one is not run; where it leaves false the right one is run on the same
/// subject, and the whole leaves what that leaves.
///
/// `l` and `r` are where the code of the alternatives starts, `l_end` and
/// `r_end` where it ends.
pub proof fn law_alternatives<F: Floats>(
    floats: &F,
    c: Code,
    pattern: Expr,
    after: Code,
    m: HeapModel,
    s: MachineModel,
) -> (parts: (Code, Code, Code, Code))
    requires
        pattern.kind is AltPattern,
        pattern_at(s.top().iseq, c, pattern, after),
        s.frames.len() > 0,
        s.top().pc == c.here(),
        s.stack.len() > 0,
    ensures
        ({
            let (l, l_end, r, r_end) = parts;
            let alternatives = pattern.kind->AltPattern_0;
            let rest = s.stack.drop_last();
            let subject = s.stack.last();
            &&& pattern_at(s.top().iseq, l, alternatives.left, l_end)
            &&& pattern_at(s.top().iseq, r, alternatives.right, r_end)
            &&& leads(floats, m, s, l.here(), s.stack.push(subject))
            &&& forall|mid: HeapModel, now: MachineModel, v: Value| #[trigger]
                comes(s, now, l_end.here(), s.stack.push(v)) && object::truthy(v) ==> #[trigger] leads(
                    floats,
                    mid,
                    now,
                    after.here(),
                    rest.push(object::truth(true)),
                )
            &&& forall|mid: HeapModel, now: MachineModel, v: Value| #[trigger]
                comes(s, now, l_end.here(), s.stack.push(v)) && !object::truthy(v)
                    ==> #[trigger] leads(floats, mid, now, r.here(), rest.push(subject))
            &&& r_end.here() == after.here()
        }),
{
    broadcast use group_fixed;

    let alternatives = pattern.kind->AltPattern_0;
    let iseq = s.top().iseq;
    let l = c.emit(Insn::Dup);
    let l_end = lower::lower_pattern(l, alternatives.left)->Ok_0;
    let to_right = l_end.here();
    let c1 = l_end.emit(Insn::JumpUnless(0));
    let matched = c1.depth;
    let c2 = c1.emit(Insn::Pop).emit(Insn::PushTrue);
    let to_end = c2.here();
    let r = c2.emit(Insn::Jump(0)).patch_here(to_right).at_depth(matched);
    let r_end = lower::lower_pattern(r, alternatives.right)->Ok_0;
    lemma_pattern_kept(l, alternatives.left, l_end);
    lemma_pattern_kept(r, alternatives.right, r_end);
    assert(after == r_end.patch_here(to_end));
    lemma_fixed_kept(l, l_end);
    lemma_fixed_kept(r, r_end);
    lemma_carries_part(iseq, c, l_end, after, l.here());
    lemma_carries_part(iseq, c, r_end, after, r.here());
    let rest = s.stack.drop_last();
    let subject = s.stack.last();
    assert(rest.push(subject) =~= s.stack);
    assert(fixed(after, c.here(), Insn::Dup));
    lemma_goes(floats, m, s, l.here(), s.stack.push(subject));
    let to_right_by = code::displacement(to_right as int, to_end as int + 1);
    let to_end_by = code::displacement(to_end as int, after.here() as int);
    assert(fixed(after, to_right, Insn::JumpUnless(to_right_by)));
    assert(fixed(after, to_right + 1, Insn::Pop));
    assert(fixed(after, to_right + 2, Insn::PushTrue));
    assert(fixed(after, to_end, Insn::Jump(to_end_by)));
    assert forall|mid: HeapModel, now: MachineModel, v: Value| #[trigger]
        comes(s, now, l_end.here(), s.stack.push(v)) && object::truthy(v) implies #[trigger] leads(
        floats,
        mid,
        now,
        after.here(),
        rest.push(object::truth(true)),
    ) by {
        assert(s.stack.push(v).drop_last() =~= s.stack);
        lemma_goes(floats, mid, now, to_right + 1, s.stack);
        lemma_then(floats, mid, now, to_right + 1, s.stack, to_right + 2, rest);
        let matched = rest.push(object::truth(true));
        lemma_then(floats, mid, now, to_right + 2, rest, to_end, matched);
        lemma_then(floats, mid, now, to_end, matched, after.here(), matched);
    }
    assert forall|mid: HeapModel, now: MachineModel, v: Value| #[trigger]
        comes(s, now, l_end.here(), s.stack.push(v)) && !object::truthy(v) implies #[trigger] leads(
        floats,
        mid,
        now,
        r.here(),
        rest.push(subject),
    ) by {
        assert(s.stack.push(v).drop_last() =~= s.stack);
        lemma_goes(floats, mid, now, r.here(), s.stack);
    }
    (l, l_end, r, r_end)
}

} // verus!
