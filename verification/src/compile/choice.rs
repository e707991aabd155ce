//! What patterns mean: what is taken when one matches, and when none does.

use vstd::prelude::*;

use crate::ast::{Expr, Guard, InClause, Target};
use crate::bytecode::{Insn, Iseq};
use crate::compile::code;
use crate::compile::code::Code;
use crate::compile::extent;
use crate::compile::lower;
use crate::compile::sense;
use crate::double::Floats;
use crate::heap::HeapModel;
use crate::interp::machine::MachineModel;
use crate::interp::object;
use crate::interp::trace;
use crate::value::{Unpacked, Value};

verus! {

// ---------------------------------------------------------------------------
// Alternatives
// ---------------------------------------------------------------------------

/// Whether running `a | b` leaves true when running `a` on the subject left
/// something true.
pub open spec fn either_left<F: Floats>(
    floats: &F,
    m: HeapModel,
    s: MachineModel,
    parts: (Code, Code, Code, Code),
    place: nat,
) -> bool {
    let (l, l_end, r, r_end) = parts;
    let start = trace::moved(s, l.here(), s.stack.push(s.stack.last()));
    forall|mid: HeapModel, now: MachineModel, v: Value| #[trigger]
        trace::reaches(floats, m, start, mid, now) && #[trigger] sense::comes(
            s,
            now,
            l_end.here(),
            s.stack.push(v),
        ) && object::truthy(v) ==> trace::reaches(
            floats,
            m,
            s,
            mid,
            trace::moved(now, place, s.stack.drop_last().push(object::truth(true))),
        )
}

/// Whether running `a | b` leaves what running `b` on the subject leaves when
/// running `a` on it left something that is not true.
pub open spec fn either_right<F: Floats>(
    floats: &F,
    m: HeapModel,
    s: MachineModel,
    parts: (Code, Code, Code, Code),
    place: nat,
) -> bool {
    let (l, l_end, r, r_end) = parts;
    let start = trace::moved(s, l.here(), s.stack.push(s.stack.last()));
    forall|
        mid: HeapModel,
        now: MachineModel,
        v: Value,
        after: HeapModel,
        done: MachineModel,
        w: Value,
    |
        #![trigger trace::reaches(floats, m, start, mid, now),
            sense::comes(s, now, l_end.here(), s.stack.push(v)),
            trace::reaches(floats, mid, trace::moved(now, r.here(), s.stack), after, done),
            sense::comes(s, done, r_end.here(), s.stack.drop_last().push(w))]
        trace::reaches(floats, m, start, mid, now) && sense::comes(
            s,
            now,
            l_end.here(),
            s.stack.push(v),
        ) && !object::truthy(v) && trace::reaches(
            floats,
            mid,
            trace::moved(now, r.here(), s.stack),
            after,
            done,
        ) && sense::comes(s, done, r_end.here(), s.stack.drop_last().push(w)) ==> {
            &&& trace::reaches(floats, m, s, after, done)
            &&& sense::comes(s, done, place, s.stack.drop_last().push(w))
        }
}

/// `a | b` leaves something true exactly when one of the two does: what the
/// whole leaves is true where the left pattern left something true, and is what
/// the right pattern left where it did not.
pub proof fn law_one_alternative_is_enough<F: Floats>(
    floats: &F,
    c: Code,
    pattern: Expr,
    after: Code,
    m: HeapModel,
    s: MachineModel,
) -> (parts: (Code, Code, Code, Code))
    requires
        pattern.kind is AltPattern,
        sense::pattern_at(s.top().iseq, c, pattern, after),
        s.frames.len() > 0,
        s.top().pc == c.here(),
        s.stack.len() > 0,
    ensures
        ({
            let (l, l_end, r, r_end) = parts;
            let alternatives = pattern.kind->AltPattern_0;
            &&& sense::pattern_at(s.top().iseq, l, alternatives.left, l_end)
            &&& sense::pattern_at(s.top().iseq, r, alternatives.right, r_end)
            &&& either_left(floats, m, s, parts, after.here())
            &&& either_right(floats, m, s, parts, after.here())
        }),
{
    let parts = sense::law_alternatives(floats, c, pattern, after, m, s);
    let (l, l_end, r, r_end) = parts;
    let rest = s.stack.drop_last();
    let subject = s.stack.last();
    let start = trace::moved(s, l.here(), s.stack.push(subject));
    assert(rest.push(subject) =~= s.stack);
    assert(sense::leads(floats, m, s, l.here(), s.stack.push(subject)));
    assert forall|mid: HeapModel, now: MachineModel, v: Value| #[trigger]
        trace::reaches(floats, m, start, mid, now) && #[trigger] sense::comes(
            s,
            now,
            l_end.here(),
            s.stack.push(v),
        ) && object::truthy(v) implies trace::reaches(
        floats,
        m,
        s,
        mid,
        trace::moved(now, after.here(), rest.push(object::truth(true))),
    ) by {
        let done = trace::moved(now, after.here(), rest.push(object::truth(true)));
        assert(sense::leads(floats, mid, now, after.here(), rest.push(object::truth(true))));
        trace::lemma_reaches_on(floats, m, s, m, start, mid, now);
        trace::lemma_reaches_on(floats, m, s, mid, now, mid, done);
    }
    assert forall|
        mid: HeapModel,
        now: MachineModel,
        v: Value,
        later: HeapModel,
        done: MachineModel,
        w: Value,
    |
        #![trigger trace::reaches(floats, m, start, mid, now),
            sense::comes(s, now, l_end.here(), s.stack.push(v)),
            trace::reaches(floats, mid, trace::moved(now, r.here(), s.stack), later, done),
            sense::comes(s, done, r_end.here(), rest.push(w))]
        trace::reaches(floats, m, start, mid, now) && sense::comes(
            s,
            now,
            l_end.here(),
            s.stack.push(v),
        ) && !object::truthy(v) && trace::reaches(
            floats,
            mid,
            trace::moved(now, r.here(), s.stack),
            later,
            done,
        ) && sense::comes(s, done, r_end.here(), rest.push(w)) implies {
        &&& trace::reaches(floats, m, s, later, done)
        &&& sense::comes(s, done, after.here(), rest.push(w))
    } by {
        let at_right = trace::moved(now, r.here(), s.stack);
        assert(sense::leads(floats, mid, now, r.here(), rest.push(subject)));
        trace::lemma_reaches_on(floats, m, s, m, start, mid, now);
        trace::lemma_reaches_on(floats, m, s, mid, now, mid, at_right);
        trace::lemma_reaches_on(floats, m, s, mid, at_right, later, done);
    }
    parts
}

// ---------------------------------------------------------------------------
// Captures
// ---------------------------------------------------------------------------

/// `pattern => name` binds the subject exactly when the pattern matches it. The
/// pattern is run on the subject. Where it leaves something true the subject is
/// handed to the code of the name, and behind that the whole leaves true. Where
/// it does not the whole leaves false, and the code of the name is not run.
///
/// `p` and `p_end` are where the code of the pattern starts and ends, `w` and
/// `w_end` where that of the name does.
pub proof fn law_a_capture_binds_what_matches<F: Floats>(
    floats: &F,
    c: Code,
    pattern: Expr,
    after: Code,
    m: HeapModel,
    s: MachineModel,
) -> (parts: (Code, Code, Code, Code))
    requires
        pattern.kind is CapturePattern,
        sense::pattern_at(s.top().iseq, c, pattern, after),
        s.frames.len() > 0,
        s.top().pc == c.here(),
        s.stack.len() > 0,
    ensures
        ({
            let (p, p_end, w, w_end) = parts;
            let capture = pattern.kind->CapturePattern_0;
            let rest = s.stack.drop_last();
            &&& sense::pattern_at(s.top().iseq, p, capture.value, p_end)
            &&& captures(w, capture.target, w_end)
            &&& sense::has_code(s.top().iseq, w, w_end)
            &&& sense::leads(floats, m, s, p.here(), s.stack.push(s.stack.last()))
            &&& forall|mid: HeapModel, now: MachineModel, v: Value| #[trigger]
                sense::comes(s, now, p_end.here(), s.stack.push(v)) && object::truthy(v)
                    ==> #[trigger] sense::leads(floats, mid, now, w.here(), s.stack)
            &&& forall|mid: HeapModel, now: MachineModel| #[trigger]
                sense::comes(s, now, w_end.here(), rest) ==> #[trigger] sense::leads(
                    floats,
                    mid,
                    now,
                    after.here(),
                    rest.push(object::truth(true)),
                )
            &&& forall|mid: HeapModel, now: MachineModel, v: Value| #[trigger]
                sense::comes(s, now, p_end.here(), s.stack.push(v)) && !object::truthy(v)
                    ==> #[trigger] sense::leads(
                    floats,
                    mid,
                    now,
                    after.here(),
                    rest.push(object::truth(false)),
                )
        }),
{
    let (p, p_end, w, w_end) = lemma_capture_shape(c, pattern, after);
    lemma_capture(floats, c, p, p_end, w, w_end, after, m, s);
    (p, p_end, w, w_end)
}

/// Whether code is what writing to a name is lowered to.
#[verifier::opaque]
pub open spec fn captures(from: Code, target: Target, to: Code) -> bool {
    lower::lower_place(from, target) matches Ok((ready, place)) && to == lower::write_place(
        ready,
        place,
    )
}

/// The parts a capture is lowered to.
proof fn lemma_capture_shape(c: Code, pattern: Expr, after: Code) -> (parts: (
    Code,
    Code,
    Code,
    Code,
))
    requires
        pattern.kind is CapturePattern,
        lower::lower_pattern(c, pattern) == Ok::<Code, code::Unsupported>(after),
    ensures
        ({
            let (p, p_end, w, w_end) = parts;
            let capture = pattern.kind->CapturePattern_0;
            let matched = w_end.emit(Insn::PushTrue);
            &&& p == c.emit(Insn::Dup)
            &&& lower::lower_pattern(p, capture.value) == Ok::<Code, code::Unsupported>(p_end)
            &&& extent::kept(p, p_end)
            &&& w == p_end.emit(Insn::JumpUnless(0))
            &&& captures(w, capture.target, w_end)
            &&& extent::kept(w, w_end)
            &&& after == matched.emit(Insn::Jump(0)).patch_here(p_end.here()).at_depth(
                w.depth,
            ).emit(Insn::Pop).emit(Insn::PushFalse).patch_here(matched.here())
        }),
{
    reveal(captures);
    let capture = *pattern.kind->CapturePattern_0;
    let p = c.emit(Insn::Dup);
    let p_end = lower::lower_pattern(p, capture.value)->Ok_0;
    let w = p_end.emit(Insn::JumpUnless(0));
    assert(lower::lower_capture(c, capture) == Ok::<Code, code::Unsupported>(after));
    let (ready, place) = lower::lower_place(w, capture.target)->Ok_0;
    let w_end = lower::write_place(ready, place);
    sense::lemma_pattern_kept(p, capture.value, p_end);
    extent::lemma_kept_itself(w);
    extent::keep_place(w, w, capture.target);
    extent::keep_write_place(w, ready, place);
    (p, p_end, w, w_end)
}

/// The code of a capture, run by the machine.
proof fn lemma_capture<F: Floats>(
    floats: &F,
    c: Code,
    p: Code,
    p_end: Code,
    w: Code,
    w_end: Code,
    after: Code,
    m: HeapModel,
    s: MachineModel,
)
    requires
        s.frames.len() > 0,
        s.top().pc == c.here(),
        s.stack.len() > 0,
        sense::has_code(s.top().iseq, c, after),
        p == c.emit(Insn::Dup),
        extent::kept(p, p_end),
        w == p_end.emit(Insn::JumpUnless(0)),
        extent::kept(w, w_end),
        ({
            let matched = w_end.emit(Insn::PushTrue);
            after == matched.emit(Insn::Jump(0)).patch_here(p_end.here()).at_depth(w.depth).emit(
                Insn::Pop,
            ).emit(Insn::PushFalse).patch_here(matched.here())
        }),
    ensures
        ({
            let rest = s.stack.drop_last();
            &&& sense::has_code(s.top().iseq, p, p_end)
            &&& sense::has_code(s.top().iseq, w, w_end)
            &&& sense::leads(floats, m, s, p.here(), s.stack.push(s.stack.last()))
            &&& forall|mid: HeapModel, now: MachineModel, v: Value| #[trigger]
                sense::comes(s, now, p_end.here(), s.stack.push(v)) && object::truthy(v)
                    ==> #[trigger] sense::leads(floats, mid, now, w.here(), s.stack)
            &&& forall|mid: HeapModel, now: MachineModel| #[trigger]
                sense::comes(s, now, w_end.here(), rest) ==> #[trigger] sense::leads(
                    floats,
                    mid,
                    now,
                    after.here(),
                    rest.push(object::truth(true)),
                )
            &&& forall|mid: HeapModel, now: MachineModel, v: Value| #[trigger]
                sense::comes(s, now, p_end.here(), s.stack.push(v)) && !object::truthy(v)
                    ==> #[trigger] sense::leads(
                    floats,
                    mid,
                    now,
                    after.here(),
                    rest.push(object::truth(false)),
                )
        }),
{
    broadcast use sense::group_fixed;

    let iseq = s.top().iseq;
    let to_fail = p_end.here();
    let matched = w_end.emit(Insn::PushTrue);
    let to_end = matched.here();
    let rest = s.stack.drop_last();
    let subject = s.stack.last();
    extent::lemma_kept_len(p, p_end);
    extent::lemma_kept_len(w, w_end);
    sense::lemma_fixed_kept(p, p_end);
    sense::lemma_fixed_kept(w, w_end);
    sense::lemma_carries_part(iseq, c, p_end, after, p.here());
    sense::lemma_carries_part(iseq, c, w_end, after, w.here());
    assert(rest.push(subject) =~= s.stack);
    assert(sense::fixed(after, c.here(), Insn::Dup));
    sense::lemma_goes(floats, m, s, p.here(), s.stack.push(subject));
    let failed = to_end + 1;
    let fail_by = code::displacement(to_fail as int, failed as int);
    let end_by = code::displacement(to_end as int, after.here() as int);
    assert(sense::fixed(after, to_fail, Insn::JumpUnless(fail_by)));
    assert(sense::fixed(after, w_end.here(), Insn::PushTrue));
    assert(sense::fixed(after, to_end, Insn::Jump(end_by)));
    assert(sense::fixed(after, failed, Insn::Pop));
    assert(sense::fixed(after, failed + 1, Insn::PushFalse));
    assert forall|mid: HeapModel, now: MachineModel, v: Value| #[trigger]
        sense::comes(s, now, p_end.here(), s.stack.push(v)) && object::truthy(
            v,
        ) implies #[trigger] sense::leads(floats, mid, now, w.here(), s.stack) by {
        assert(s.stack.push(v).drop_last() =~= s.stack);
        sense::lemma_goes(floats, mid, now, w.here(), s.stack);
    }
    assert forall|mid: HeapModel, now: MachineModel| #[trigger]
        sense::comes(s, now, w_end.here(), rest) implies #[trigger] sense::leads(
        floats,
        mid,
        now,
        after.here(),
        rest.push(object::truth(true)),
    ) by {
        let answer = rest.push(object::truth(true));
        sense::lemma_goes(floats, mid, now, to_end, answer);
        sense::lemma_then(floats, mid, now, to_end, answer, after.here(), answer);
    }
    assert forall|mid: HeapModel, now: MachineModel, v: Value| #[trigger]
        sense::comes(s, now, p_end.here(), s.stack.push(v)) && !object::truthy(
            v,
        ) implies #[trigger] sense::leads(
        floats,
        mid,
        now,
        after.here(),
        rest.push(object::truth(false)),
    ) by {
        assert(s.stack.push(v).drop_last() =~= s.stack);
        sense::lemma_goes(floats, mid, now, failed, s.stack);
        sense::lemma_then(floats, mid, now, failed, s.stack, failed + 1, rest);
        sense::lemma_then(
            floats,
            mid,
            now,
            failed + 1,
            rest,
            after.here(),
            rest.push(object::truth(false)),
        );
    }
}

// ---------------------------------------------------------------------------
// One pattern
// ---------------------------------------------------------------------------

/// `value in pattern` leaves what the pattern leaves on the value.
pub proof fn law_a_match_leaves_its_answer(c: Code, expr: Expr, after: Code, s: MachineModel) -> (parts: (
    Code,
    Code,
    Code,
))
    requires
        expr.kind is MatchPattern,
        !expr.kind->MatchPattern_0.raises,
        sense::expr_at(s.top().iseq, c, expr, after),
    ensures
        ({
            let (v_end, p, p_end) = parts;
            let node = expr.kind->MatchPattern_0;
            &&& sense::expr_at(s.top().iseq, c, node.value, v_end)
            &&& sense::pattern_at(s.top().iseq, p, node.pattern, p_end)
            &&& p.here() == v_end.here()
            &&& p_end.here() == after.here()
        }),
{
    let node = *expr.kind->MatchPattern_0;
    let v_end = lower::lower_expr(c, node.value)->Ok_0;
    let p = v_end.with_pattern_key(None);
    let p_end = lower::lower_pattern(p, node.pattern)->Ok_0;
    reveal(Code::with_pattern_key);
    sense::lemma_expr_kept(c, node.value, v_end);
    sense::lemma_pattern_kept(p, node.pattern, p_end);
    assert(after == p_end.with_pattern_key(v_end.pattern_key));
    sense::lemma_fixed_kept(c, v_end);
    sense::lemma_same_code(v_end, p);
    sense::lemma_fixed_kept(p, p_end);
    sense::lemma_same_code(p_end, after);
    sense::lemma_carries_part(s.top().iseq, c, v_end, after, c.here());
    sense::lemma_carries_part(s.top().iseq, c, p_end, after, p.here());
    (v_end, p, p_end)
}

/// `value => pattern` leaves `nil` when the pattern leaves something true on the
/// value, and fails when it does not: the code of the failure is run then, and
/// only then.
///
/// `v_end` is where the code of the value ends, `p` and `p_end` where that of
/// the pattern starts and ends, and `f` where that of the failure starts.
pub proof fn law_a_match_that_must_hold<F: Floats>(
    floats: &F,
    c: Code,
    expr: Expr,
    after: Code,
    s: MachineModel,
) -> (parts: (Code, Code, Code, Code))
    requires
        expr.kind is MatchPattern,
        expr.kind->MatchPattern_0.raises,
        sense::expr_at(s.top().iseq, c, expr, after),
        s.frames.len() > 0,
    ensures
        ({
            let (v_end, p, p_end, f) = parts;
            let node = expr.kind->MatchPattern_0;
            let subject = lower::pattern_slot(v_end, "subject"@);
            let failed = lower::pattern_failure(f, subject);
            &&& sense::expr_at(s.top().iseq, c, node.value, v_end)
            &&& sense::pattern_at(s.top().iseq, p, node.pattern, p_end)
            &&& sense::has_code(s.top().iseq, f, failed)
            &&& f.here() <= failed.here() < after.here()
            &&& s.top().iseq.insns@[v_end.here() as int] == Insn::SetLocal(subject, 0)
            &&& s.top().iseq.insns@[p.here() - 1] == Insn::GetLocal(subject, 0)
            &&& forall|mid: HeapModel, now: MachineModel, v: Value| #[trigger]
                sense::comes(s, now, p_end.here(), s.stack.push(v)) && object::truthy(v)
                    ==> #[trigger] sense::leads(
                    floats,
                    mid,
                    now,
                    after.here(),
                    s.stack.push(Value::pack(Unpacked::Nil)),
                )
            &&& forall|mid: HeapModel, now: MachineModel, v: Value| #[trigger]
                sense::comes(s, now, p_end.here(), s.stack.push(v)) && !object::truthy(v)
                    ==> #[trigger] sense::leads(floats, mid, now, f.here(), s.stack)
        }),
{
    let node = *expr.kind->MatchPattern_0;
    let v_end = lower::lower_expr(c, node.value)->Ok_0;
    let subject = lower::pattern_slot(v_end, "subject"@);
    let slotted = lower::with_pattern_slot(v_end, "subject"@);
    let held = slotted.emit(Insn::SetLocal(subject, 0));
    let keyed = lower::open_key(held, true);
    let p = keyed.emit(Insn::GetLocal(subject, 0));
    let p_end = lower::lower_pattern(p, node.pattern)->Ok_0;
    let f = p_end.emit(Insn::JumpIf(0));
    let failed = lower::pattern_failure(f, subject);
    sense::lemma_expr_kept(c, node.value, v_end);
    sense::lemma_pattern_kept(p, node.pattern, p_end);
    assert(extent::kept(f, failed)) by {
        extent::lemma_kept_itself(f);
        extent::keep_pattern_failure(f, f, subject);
    }
    assert(extent::kept(v_end, slotted) && slotted.here() == v_end.here()) by {
        extent::lemma_kept_itself(v_end);
        extent::lemma_kept_slot(v_end, v_end, lower::pattern_local(v_end, "subject"@));
        reveal(Code::slot);
    }
    assert(extent::kept(held, keyed)) by {
        extent::lemma_kept_itself(held);
        extent::keep_open_key(held, held, true);
    }
    lemma_match(
        floats,
        c,
        v_end,
        slotted,
        keyed,
        p,
        p_end,
        f,
        failed,
        subject,
        v_end.pattern_key,
        after,
        s,
    );
    (v_end, p, p_end, f)
}

/// The code of such a match, run by the machine.
proof fn lemma_match<F: Floats>(
    floats: &F,
    c: Code,
    v_end: Code,
    slotted: Code,
    keyed: Code,
    p: Code,
    p_end: Code,
    f: Code,
    failed: Code,
    subject: u16,
    key: Option<u16>,
    after: Code,
    s: MachineModel,
)
    requires
        s.frames.len() > 0,
        sense::has_code(s.top().iseq, c, after),
        extent::kept(c, v_end),
        extent::kept(v_end, slotted),
        slotted.here() == v_end.here(),
        extent::kept(slotted.emit(Insn::SetLocal(subject, 0)), keyed),
        p == keyed.emit(Insn::GetLocal(subject, 0)),
        extent::kept(p, p_end),
        f == p_end.emit(Insn::JumpIf(0)),
        extent::kept(f, failed),
        after == failed.emit(Insn::Pop).patch_here(p_end.here()).at_depth(
            keyed.depth,
        ).with_pattern_key(key).emit(Insn::PushNil),
    ensures
        sense::has_code(s.top().iseq, c, v_end),
        sense::has_code(s.top().iseq, p, p_end),
        sense::has_code(s.top().iseq, f, failed),
        f.here() <= failed.here() < after.here(),
        s.top().iseq.insns@[v_end.here() as int] == Insn::SetLocal(subject, 0),
        s.top().iseq.insns@[p.here() - 1] == Insn::GetLocal(subject, 0),
        forall|mid: HeapModel, now: MachineModel, v: Value| #[trigger]
            sense::comes(s, now, p_end.here(), s.stack.push(v)) && object::truthy(v)
                ==> #[trigger] sense::leads(
                floats,
                mid,
                now,
                after.here(),
                s.stack.push(Value::pack(Unpacked::Nil)),
            ),
        forall|mid: HeapModel, now: MachineModel, v: Value| #[trigger]
            sense::comes(s, now, p_end.here(), s.stack.push(v)) && !object::truthy(v)
                ==> #[trigger] sense::leads(floats, mid, now, f.here(), s.stack),
{
    broadcast use sense::group_fixed;

    let iseq = s.top().iseq;
    let held = slotted.emit(Insn::SetLocal(subject, 0));
    let popped = failed.emit(Insn::Pop).patch_here(p_end.here()).at_depth(keyed.depth);
    let named = popped.with_pattern_key(key);
    reveal(Code::with_pattern_key);
    sense::lemma_same_code(popped, named);
    extent::lemma_kept_len(c, v_end);
    extent::lemma_kept_len(v_end, slotted);
    extent::lemma_kept_len(held, keyed);
    extent::lemma_kept_len(p, p_end);
    extent::lemma_kept_len(f, failed);
    sense::lemma_fixed_kept(c, v_end);
    sense::lemma_fixed_kept(v_end, slotted);
    sense::lemma_fixed_kept(held, keyed);
    sense::lemma_fixed_kept(p, p_end);
    sense::lemma_fixed_kept(f, failed);
    let to_ok = p_end.here();
    let ok = failed.here() + 1;
    let by = code::displacement(to_ok as int, ok as int);
    assert forall|at: nat, insn: Insn| #[trigger] sense::fixed(failed, at, insn) && at
        != to_ok implies sense::fixed(after, at, insn) by {
        assert(sense::fixed(popped, at, insn));
        assert(sense::fixed(named, at, insn));
    }
    assert forall|at: nat, insn: Insn| #[trigger] sense::fixed(p_end, at, insn) implies sense::fixed(
        after,
        at,
        insn,
    ) by {
        assert(sense::fixed(f, at, insn));
        assert(sense::fixed(failed, at, insn));
    }
    assert forall|at: nat, insn: Insn| #[trigger] sense::fixed(held, at, insn) implies sense::fixed(
        after,
        at,
        insn,
    ) by {
        assert(sense::fixed(keyed, at, insn));
        assert(sense::fixed(p, at, insn));
        assert(sense::fixed(p_end, at, insn));
    }
    assert forall|at: nat, insn: Insn| #[trigger] sense::fixed(v_end, at, insn) implies sense::fixed(
        after,
        at,
        insn,
    ) by {
        assert(sense::fixed(slotted, at, insn));
        assert(sense::fixed(held, at, insn));
    }
    sense::lemma_carries_part(iseq, c, v_end, after, c.here());
    sense::lemma_carries_part(iseq, c, p_end, after, p.here());
    sense::lemma_carries_part(iseq, c, failed, after, f.here());
    assert(sense::fixed(held, slotted.here(), Insn::SetLocal(subject, 0)));
    assert(sense::fixed(p, keyed.here(), Insn::GetLocal(subject, 0)));
    assert(sense::fixed(p_end, keyed.here(), Insn::GetLocal(subject, 0)));
    assert(sense::fixed(failed, to_ok, Insn::JumpIf(0)));
    assert(sense::fixed(popped, to_ok, Insn::JumpIf(by)));
    assert(sense::fixed(named, to_ok, Insn::JumpIf(by)));
    assert(sense::fixed(after, to_ok, Insn::JumpIf(by)));
    assert(sense::fixed(after, ok, Insn::PushNil));
    let answer = s.stack.push(Value::pack(Unpacked::Nil));
    assert forall|mid: HeapModel, now: MachineModel, v: Value| #[trigger]
        sense::comes(s, now, p_end.here(), s.stack.push(v)) && object::truthy(
            v,
        ) implies #[trigger] sense::leads(floats, mid, now, after.here(), answer) by {
        assert(s.stack.push(v).drop_last() =~= s.stack);
        sense::lemma_goes(floats, mid, now, ok, s.stack);
        sense::lemma_then(floats, mid, now, ok, s.stack, after.here(), answer);
    }
    assert forall|mid: HeapModel, now: MachineModel, v: Value| #[trigger]
        sense::comes(s, now, p_end.here(), s.stack.push(v)) && !object::truthy(
            v,
        ) implies #[trigger] sense::leads(floats, mid, now, f.here(), s.stack) by {
        assert(s.stack.push(v).drop_last() =~= s.stack);
        sense::lemma_goes(floats, mid, now, f.here(), s.stack);
    }
}

// ---------------------------------------------------------------------------
// Clauses of `case`
// ---------------------------------------------------------------------------

/// Whether a unit has the code that the test of a clause was lowered to, with
/// the jump into the clause aimed at its body.
pub open spec fn aimed(iseq: Iseq, c: Code, after: Code, entry: nat, body: nat) -> bool {
    &&& sense::sane(c)
    &&& after.insns.len() <= i32::MAX
    &&& body <= i32::MAX
    &&& after.insns.len() <= iseq.insns@.len()
    &&& forall|at: nat, insn: Insn| #[trigger]
        sense::fixed(after, at, insn) && c.here() <= at && at != entry ==> iseq.insns@[at as int]
            == insn
    &&& forall|insn: Insn| #[trigger]
        sense::fixed(after, entry, insn) ==> iseq.insns@[entry as int] == code::retargeted(
            insn,
            code::displacement(entry as int, body as int),
        )
}

/// Where a pattern sends the machine: to a place where it left something true, to
/// another where it did not.
pub open spec fn asked_place(v: Value, hit: nat, miss: nat) -> nat {
    if object::truthy(v) {
        hit
    } else {
        miss
    }
}

/// Where the machine is sent when the pattern of a clause left something true.
pub open spec fn clause_hit(clause: InClause, body: nat, g: Code) -> nat {
    if clause.guard is None {
        body
    } else {
        g.here()
    }
}

/// Where a guard sends the machine when its condition left a value.
pub open spec fn guarded_place(guard: Guard, v: Value, hit: nat, miss: nat) -> nat {
    held_place(guard is If, v, hit, miss)
}

/// Where a condition that is to hold, or is not to, sends the machine.
pub open spec fn held_place(holds: bool, v: Value, hit: nat, miss: nat) -> nat {
    if object::truthy(v) == holds {
        hit
    } else {
        miss
    }
}

/// The body of an `in` clause is entered exactly when its pattern leaves
/// something true on the subject and its guard holds: the condition of `if` left
/// something true, or that of `unless` did not. Otherwise the machine goes on
/// behind the test, and the guard is not run where the pattern left nothing true.
///
/// `p` and `p_end` are where the code of the pattern starts and ends, `g` and
/// `g_end` where that of the guard's condition does.
pub proof fn law_a_clause_is_entered_when_its_pattern_and_guard_hold<F: Floats>(
    floats: &F,
    c: Code,
    clause: InClause,
    subject: u16,
    tests: nat,
    after: Code,
    entry: usize,
    body: nat,
    s: MachineModel,
) -> (parts: (Code, Code, Code, Code))
    requires
        lower::lower_in_test(c, clause, subject, tests) == Ok::<
            (Code, usize),
            code::Unsupported,
        >((after, entry)),
        aimed(s.top().iseq, c, after, entry as nat, body),
        s.frames.len() > 0,
    ensures
        ({
            let (p, p_end, g, g_end) = parts;
            let iseq = s.top().iseq;
            &&& iseq.insns@[c.here() as int] == Insn::GetLocal(subject, 0)
            &&& p.here() == c.here() + 1
            &&& sense::pattern_at(iseq, p, clause.pattern, p_end)
            &&& clause.guard matches Some(guard) ==> sense::expr_at(
                iseq,
                g,
                guard_condition(guard),
                g_end,
            )
            &&& forall|mid: HeapModel, now: MachineModel, v: Value| #[trigger]
                sense::comes(s, now, p_end.here(), s.stack.push(v)) ==> #[trigger] sense::leads(
                    floats,
                    mid,
                    now,
                    asked_place(v, clause_hit(clause, body, g), after.here()),
                    s.stack,
                )
            &&& clause.guard matches Some(guard) ==> forall|
                mid: HeapModel,
                now: MachineModel,
                v: Value,
            | #[trigger]
                sense::comes(s, now, g_end.here(), s.stack.push(v)) ==> #[trigger] sense::leads(
                    floats,
                    mid,
                    now,
                    guarded_place(guard, v, body, after.here()),
                    s.stack,
                )
        }),
{
    let p = c.emit(Insn::GetLocal(subject, 0));
    let (p_end, g, g_end) = lemma_in_shape(c, clause, subject, tests, after, entry);
    match clause.guard {
        None => {
            lemma_plain_clause(floats, c, subject, p_end, after, body, s);
        },
        Some(guard) => {
            lemma_guarded_clause(
                floats,
                c,
                subject,
                p_end,
                tests,
                guard is If,
                g,
                g_end,
                after,
                body,
                s,
            );
        },
    }
    (p, p_end, g, g_end)
}

/// The parts the test of a clause is lowered to.
proof fn lemma_in_shape(
    c: Code,
    clause: InClause,
    subject: u16,
    tests: nat,
    after: Code,
    entry: usize,
) -> (parts: (Code, Code, Code))
    requires
        lower::lower_in_test(c, clause, subject, tests) == Ok::<
            (Code, usize),
            code::Unsupported,
        >((after, entry)),
        after.insns.len() <= i32::MAX,
    ensures
        ({
            let (p_end, g, g_end) = parts;
            let p = c.emit(Insn::GetLocal(subject, 0));
            let asked = p_end.emit(Insn::JumpIf(0));
            &&& lower::lower_pattern(p, clause.pattern) == Ok::<Code, code::Unsupported>(p_end)
            &&& extent::kept(p, p_end)
            &&& clause.guard is None ==> after == asked && entry == p_end.here()
            &&& clause.guard matches Some(guard) ==> {
                &&& g == asked.emit(Insn::Jump(0)).patch_here(p_end.here()).at_depth(tests)
                &&& lower::lower_expr(g, guard_condition(guard)) == Ok::<Code, code::Unsupported>(
                    g_end,
                )
                &&& extent::kept(g, g_end)
                &&& after == g_end.emit(
                    if guard is If {
                        Insn::JumpIf(0)
                    } else {
                        Insn::JumpUnless(0)
                    },
                ).patch_here(asked.here()).at_depth(tests)
                &&& entry == g_end.here()
            }
        }),
{
    let p = c.emit(Insn::GetLocal(subject, 0));
    let p_end = lower::lower_pattern(p, clause.pattern)->Ok_0;
    let asked = p_end.emit(Insn::JumpIf(0));
    sense::lemma_pattern_kept(p, clause.pattern, p_end);
    sense::lemma_len_emit(p_end, Insn::JumpIf(0));
    match clause.guard {
        None => (p_end, p_end, p_end),
        Some(guard) => {
            let g = asked.emit(Insn::Jump(0)).patch_here(p_end.here()).at_depth(tests);
            let g_end = lower::lower_expr(g, guard_condition(guard))->Ok_0;
            let last = if guard is If {
                Insn::JumpIf(0)
            } else {
                Insn::JumpUnless(0)
            };
            sense::lemma_expr_kept(g, guard_condition(guard), g_end);
            sense::lemma_len_emit(g_end, last);
            sense::lemma_len_patch_here(g_end.emit(last), asked.here());
            sense::lemma_fixed_at_depth(g_end.emit(last).patch_here(asked.here()), tests);
            (p_end, g, g_end)
        },
    }
}

/// The condition of a guard.
pub open spec fn guard_condition(guard: Guard) -> Expr {
    match guard {
        Guard::If(condition) => condition,
        Guard::Unless(condition) => condition,
    }
}

/// The test of a clause without a guard, run by the machine.
proof fn lemma_plain_clause<F: Floats>(
    floats: &F,
    c: Code,
    subject: u16,
    p_end: Code,
    after: Code,
    body: nat,
    s: MachineModel,
)
    requires
        s.frames.len() > 0,
        extent::kept(c.emit(Insn::GetLocal(subject, 0)), p_end),
        after == p_end.emit(Insn::JumpIf(0)),
        aimed(s.top().iseq, c, after, p_end.here(), body),
    ensures
        s.top().iseq.insns@[c.here() as int] == Insn::GetLocal(subject, 0),
        c.emit(Insn::GetLocal(subject, 0)).here() == c.here() + 1,
        sense::has_code(s.top().iseq, c.emit(Insn::GetLocal(subject, 0)), p_end),
        forall|mid: HeapModel, now: MachineModel, v: Value| #[trigger]
            sense::comes(s, now, p_end.here(), s.stack.push(v)) ==> #[trigger] sense::leads(
                floats,
                mid,
                now,
                asked_place(v, body, after.here()),
                s.stack,
            ),
{
    broadcast use sense::group_fixed;

    let p = c.emit(Insn::GetLocal(subject, 0));
    extent::lemma_kept_len(p, p_end);
    sense::lemma_fixed_kept(p, p_end);
    assert(sense::fixed(p, c.here(), Insn::GetLocal(subject, 0)));
    assert(sense::fixed(p_end, c.here(), Insn::GetLocal(subject, 0)));
    assert(sense::fixed(after, c.here(), Insn::GetLocal(subject, 0)));
    assert(sense::fixed(after, p_end.here(), Insn::JumpIf(0)));
    assert forall|at: nat, insn: Insn| #[trigger]
        sense::fixed(p_end, at, insn) && p.here() <= at implies s.top().iseq.insns@[at as int]
        == insn by {
        assert(sense::fixed(after, at, insn));
    }
    assert forall|mid: HeapModel, now: MachineModel, v: Value| #[trigger]
        sense::comes(s, now, p_end.here(), s.stack.push(v)) implies #[trigger] sense::leads(
        floats,
        mid,
        now,
        asked_place(v, body, after.here()),
        s.stack,
    ) by {
        assert(s.stack.push(v).drop_last() =~= s.stack);
        sense::lemma_goes(
            floats,
            mid,
            now,
            asked_place(v, body, after.here()),
            s.stack,
        );
    }
}

/// The test of a clause with a guard, run by the machine.
proof fn lemma_guarded_clause<F: Floats>(
    floats: &F,
    c: Code,
    subject: u16,
    p_end: Code,
    tests: nat,
    holds: bool,
    g: Code,
    g_end: Code,
    after: Code,
    body: nat,
    s: MachineModel,
)
    requires
        s.frames.len() > 0,
        extent::kept(c.emit(Insn::GetLocal(subject, 0)), p_end),
        g == p_end.emit(Insn::JumpIf(0)).emit(Insn::Jump(0)).patch_here(p_end.here()).at_depth(
            tests,
        ),
        extent::kept(g, g_end),
        after == g_end.emit(
            if holds {
                Insn::JumpIf(0)
            } else {
                Insn::JumpUnless(0)
            },
        ).patch_here(p_end.emit(Insn::JumpIf(0)).here()).at_depth(tests),
        aimed(s.top().iseq, c, after, g_end.here(), body),
    ensures
        s.top().iseq.insns@[c.here() as int] == Insn::GetLocal(subject, 0),
        c.emit(Insn::GetLocal(subject, 0)).here() == c.here() + 1,
        sense::has_code(s.top().iseq, c.emit(Insn::GetLocal(subject, 0)), p_end),
        sense::has_code(s.top().iseq, g, g_end),
        forall|mid: HeapModel, now: MachineModel, v: Value| #[trigger]
            sense::comes(s, now, p_end.here(), s.stack.push(v)) ==> #[trigger] sense::leads(
                floats,
                mid,
                now,
                asked_place(v, g.here(), after.here()),
                s.stack,
            ),
        forall|mid: HeapModel, now: MachineModel, v: Value| #[trigger]
            sense::comes(s, now, g_end.here(), s.stack.push(v)) ==> #[trigger] sense::leads(
                floats,
                mid,
                now,
                held_place(holds, v, body, after.here()),
                s.stack,
            ),
{
    broadcast use sense::group_fixed;

    let iseq = s.top().iseq;
    let p = c.emit(Insn::GetLocal(subject, 0));
    let entry = p_end.here();
    let skip = entry + 1;
    let last = if holds {
        Insn::JumpIf(0)
    } else {
        Insn::JumpUnless(0)
    };
    extent::lemma_kept_len(p, p_end);
    extent::lemma_kept_len(g, g_end);
    sense::lemma_fixed_kept(p, p_end);
    sense::lemma_fixed_kept(g, g_end);
    let in_by = code::displacement(entry as int, g.here() as int);
    let skip_by = code::displacement(skip as int, after.here() as int);
    assert forall|at: nat, insn: Insn| #[trigger] sense::fixed(p_end, at, insn) implies sense::fixed(
        after,
        at,
        insn,
    ) by {
        assert(sense::fixed(g, at, insn));
        assert(sense::fixed(g_end, at, insn));
    }
    assert forall|at: nat, insn: Insn| #[trigger] sense::fixed(g_end, at, insn) && at
        != skip implies sense::fixed(after, at, insn) by {
    }
    assert(sense::fixed(p, c.here(), Insn::GetLocal(subject, 0)));
    assert(sense::fixed(p_end, c.here(), Insn::GetLocal(subject, 0)));
    assert(sense::fixed(g, entry, Insn::JumpIf(in_by)));
    assert(sense::fixed(g_end, entry, Insn::JumpIf(in_by)));
    assert(sense::fixed(g_end, skip, Insn::Jump(0)));
    assert(sense::fixed(after, skip, Insn::Jump(skip_by)));
    assert(sense::fixed(after, g_end.here(), last));
    assert forall|mid: HeapModel, now: MachineModel, v: Value| #[trigger]
        sense::comes(s, now, p_end.here(), s.stack.push(v)) implies #[trigger] sense::leads(
        floats,
        mid,
        now,
        asked_place(v, g.here(), after.here()),
        s.stack,
    ) by {
        assert(s.stack.push(v).drop_last() =~= s.stack);
        if object::truthy(v) {
            sense::lemma_goes(floats, mid, now, g.here(), s.stack);
        } else {
            sense::lemma_goes(floats, mid, now, skip, s.stack);
            sense::lemma_then(floats, mid, now, skip, s.stack, after.here(), s.stack);
        }
    }
    assert forall|mid: HeapModel, now: MachineModel, v: Value| #[trigger]
        sense::comes(s, now, g_end.here(), s.stack.push(v)) implies #[trigger] sense::leads(
        floats,
        mid,
        now,
        held_place(holds, v, body, after.here()),
        s.stack,
    ) by {
        assert(s.stack.push(v).drop_last() =~= s.stack);
        sense::lemma_goes(
            floats,
            mid,
            now,
            held_place(holds, v, body, after.here()),
            s.stack,
        );
    }
}

/// Whether a unit has the code that conditions of a `when` clause were lowered
/// to, with the jumps into the clause aimed at its body.
pub open spec fn conditions_aimed(
    iseq: Iseq,
    c: Code,
    after: Code,
    jumps: Seq<usize>,
    body: nat,
) -> bool {
    &&& sense::sane(c)
    &&& after.insns.len() <= i32::MAX
    &&& body <= i32::MAX
    &&& after.insns.len() <= iseq.insns@.len()
    &&& forall|at: nat, insn: Insn| #[trigger]
        sense::fixed(after, at, insn) && c.here() <= at ==> iseq.insns@[at as int] == if (exists|
            k: int,
        |
            0 <= k < jumps.len() && #[trigger] jumps[k] == at) {
            code::retargeted(insn, code::displacement(at as int, body as int))
        } else {
            insn
        }
}

/// The body of a `when` clause is entered when one of its conditions holds. Where
/// what is left of a condition is true, the machine goes to the body; where it
/// is not, it goes to the next condition, or behind the last of them. With a
/// subject a condition is run behind a copy of it, and `===` asks.
///
/// `q` and `q_end` are where the code of the condition starts and ends, and
/// `next` where that of the next one does.
pub proof fn law_a_condition_that_holds_enters_its_clause<F: Floats>(
    floats: &F,
    c: Code,
    conditions: Seq<Expr>,
    from: nat,
    subject: bool,
    jumps: Seq<usize>,
    after: Code,
    made: Seq<usize>,
    body: nat,
    s: MachineModel,
) -> (parts: (Code, Code, Code))
    requires
        from < conditions.len(),
        lower::lower_conditions(c, conditions, from, subject, jumps) == Ok::<
            (Code, Seq<usize>),
            code::Unsupported,
        >((after, made)),
        forall|k: int| 0 <= k < jumps.len() ==> (#[trigger] jumps[k]) < c.here(),
        conditions_aimed(s.top().iseq, c, after, made, body),
        s.frames.len() > 0,
    ensures
        ({
            let (q, q_end, next) = parts;
            let iseq = s.top().iseq;
            let asked = (next.here() - 1) as nat;
            &&& sense::expr_at(iseq, q, conditions[from as int], q_end)
            &&& subject ==> {
                &&& iseq.insns@[c.here() as int] == Insn::Dup
                &&& q.here() == c.here() + 1
                &&& iseq.insns@[q_end.here() as int] == Insn::CaseEq
                &&& asked == q_end.here() + 1
            }
            &&& !subject ==> q.here() == c.here() && asked == q_end.here()
            &&& forall|mid: HeapModel, now: MachineModel, v: Value| #[trigger]
                sense::comes(s, now, asked, s.stack.push(v)) ==> #[trigger] sense::leads(
                    floats,
                    mid,
                    now,
                    asked_place(v, body, next.here()),
                    s.stack,
                )
            &&& lower::lower_conditions(
                next,
                conditions,
                from + 1,
                subject,
                jumps.push(asked as usize),
            ) == Ok::<(Code, Seq<usize>), code::Unsupported>((after, made))
            &&& from + 1 == conditions.len() ==> after.here() == next.here()
        }),
{
    let condition = conditions[from as int];
    let q = if subject {
        c.emit(Insn::Dup)
    } else {
        c
    };
    let q_end = lower::lower_expr(q, condition)->Ok_0;
    let tested = if subject {
        q_end.emit(Insn::CaseEq)
    } else {
        q_end
    };
    let next = tested.emit(Insn::JumpIf(0));
    let more = jumps.push(tested.here() as usize);
    sense::lemma_expr_kept(q, condition, q_end);
    sense::lemma_len_emit(q_end, Insn::CaseEq);
    sense::lemma_len_emit(tested, Insn::JumpIf(0));
    assert(lower::lower_conditions(next, conditions, from + 1, subject, more) == Ok::<
        (Code, Seq<usize>),
        code::Unsupported,
    >((after, made)));
    lemma_conditions_grow(next, conditions, from + 1, subject, more, after, made);
    extent::lemma_kept_len(next, after);
    assert(made[jumps.len() as int] == more[jumps.len() as int]);
    assert(tested.here() < after.here() <= i32::MAX);
    assert forall|k: int| 0 <= k < jumps.len() implies (#[trigger] made[k]) < c.here() by {
        assert(made[k] == more[k]);
    }
    lemma_condition(
        floats,
        c,
        subject,
        q,
        q_end,
        next,
        after,
        made,
        jumps.len() as int,
        body,
        s,
    );
    (q, q_end, next)
}

/// Conditions only add code, and jumps in it.
proof fn lemma_conditions_grow(
    c: Code,
    conditions: Seq<Expr>,
    from: nat,
    subject: bool,
    jumps: Seq<usize>,
    after: Code,
    made: Seq<usize>,
)
    requires
        lower::lower_conditions(c, conditions, from, subject, jumps) == Ok::<
            (Code, Seq<usize>),
            code::Unsupported,
        >((after, made)),
    ensures
        extent::kept(c, after),
        jumps.len() <= made.len(),
        forall|k: int| 0 <= k < jumps.len() ==> (#[trigger] made[k]) == jumps[k],
        after.insns.len() <= i32::MAX ==> forall|k: int|
            jumps.len() <= k < made.len() ==> c.here() <= #[trigger] made[k],
        from >= conditions.len() ==> after == c,
    decreases conditions.len() - from,
{
    extent::lemma_kept_itself(c);
    if from < conditions.len() {
        let q = if subject {
            c.emit(Insn::Dup)
        } else {
            c
        };
        let q_end = lower::lower_expr(q, conditions[from as int])->Ok_0;
        let tested = if subject {
            q_end.emit(Insn::CaseEq)
        } else {
            q_end
        };
        let next = tested.emit(Insn::JumpIf(0));
        let more = jumps.push(tested.here() as usize);
        extent::lemma_kept_emit(c, c, Insn::Dup);
        sense::lemma_expr_kept(q, conditions[from as int], q_end);
        extent::lemma_kept_trans(c, q, q_end);
        extent::lemma_kept_emit(c, q_end, Insn::CaseEq);
        extent::lemma_kept_emit(c, tested, Insn::JumpIf(0));
        lemma_conditions_grow(next, conditions, from + 1, subject, more, after, made);
        extent::lemma_kept_trans(c, next, after);
        extent::lemma_kept_len(c, tested);
        extent::lemma_kept_len(next, after);
        sense::lemma_len_emit(tested, Insn::JumpIf(0));
        assert forall|k: int| 0 <= k < jumps.len() implies (#[trigger] made[k]) == jumps[k] by {
            assert(made[k] == more[k]);
        }
        if after.insns.len() <= i32::MAX {
            assert forall|k: int| jumps.len() <= k < made.len() implies c.here()
                <= #[trigger] made[k] by {
                if k == jumps.len() {
                    assert(made[k] == more[k]);
                }
            }
        }
    }
}

/// The code of a condition, run by the machine.
proof fn lemma_condition<F: Floats>(
    floats: &F,
    c: Code,
    subject: bool,
    q: Code,
    q_end: Code,
    next: Code,
    after: Code,
    made: Seq<usize>,
    mine: int,
    body: nat,
    s: MachineModel,
)
    requires
        s.frames.len() > 0,
        q == if subject {
            c.emit(Insn::Dup)
        } else {
            c
        },
        extent::kept(q, q_end),
        next == if subject {
            q_end.emit(Insn::CaseEq).emit(Insn::JumpIf(0))
        } else {
            q_end.emit(Insn::JumpIf(0))
        },
        extent::kept(next, after),
        0 <= mine < made.len(),
        made[mine] == next.here() - 1,
        forall|k: int| 0 <= k < mine ==> (#[trigger] made[k]) < c.here(),
        forall|k: int| mine < k < made.len() ==> next.here() <= #[trigger] made[k],
        conditions_aimed(s.top().iseq, c, after, made, body),
    ensures
        ({
            let iseq = s.top().iseq;
            let asked = (next.here() - 1) as nat;
            &&& sense::has_code(iseq, q, q_end)
            &&& subject ==> {
                &&& iseq.insns@[c.here() as int] == Insn::Dup
                &&& q.here() == c.here() + 1
                &&& iseq.insns@[q_end.here() as int] == Insn::CaseEq
                &&& asked == q_end.here() + 1
            }
            &&& !subject ==> q.here() == c.here() && asked == q_end.here()
            &&& forall|mid: HeapModel, now: MachineModel, v: Value| #[trigger]
                sense::comes(s, now, asked, s.stack.push(v)) ==> #[trigger] sense::leads(
                    floats,
                    mid,
                    now,
                    asked_place(v, body, next.here()),
                    s.stack,
                )
        }),
{
    broadcast use sense::group_fixed;

    let iseq = s.top().iseq;
    let asked = (next.here() - 1) as nat;
    extent::lemma_kept_len(q, q_end);
    extent::lemma_kept_len(next, after);
    sense::lemma_fixed_kept(q, q_end);
    sense::lemma_fixed_kept(next, after);
    assert forall|at: nat, insn: Insn| #[trigger]
        sense::fixed(q_end, at, insn) && c.here() <= at implies iseq.insns@[at as int] == insn by {
        assert(sense::fixed(next, at, insn));
        assert(sense::fixed(after, at, insn));
    }
    assert(sense::fixed(next, asked, Insn::JumpIf(0)));
    assert(sense::fixed(after, asked, Insn::JumpIf(0)));
    assert(made[mine] == asked);
    let by = code::displacement(asked as int, body as int);
    assert(iseq.insns@[asked as int] == Insn::JumpIf(by));
    if subject {
        assert(sense::fixed(q, c.here(), Insn::Dup));
        assert(sense::fixed(q_end, c.here(), Insn::Dup));
        assert(sense::fixed(next, q_end.here(), Insn::CaseEq));
        assert(sense::fixed(after, q_end.here(), Insn::CaseEq));
    }
    assert forall|mid: HeapModel, now: MachineModel, v: Value| #[trigger]
        sense::comes(s, now, asked, s.stack.push(v)) implies #[trigger] sense::leads(
        floats,
        mid,
        now,
        asked_place(v, body, next.here()),
        s.stack,
    ) by {
        assert(s.stack.push(v).drop_last() =~= s.stack);
        sense::lemma_goes(floats, mid, now, asked_place(v, body, next.here()), s.stack);
    }
}

} // verus!
