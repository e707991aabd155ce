//! What assignments mean: what is written, and what is left.

use vstd::prelude::*;

use crate::ast::{Assign, AssignOp, Expr, ExprKind, Span, Target};
use crate::bytecode::{BinOp, Insn, Iseq};
use crate::compile::code;
use crate::compile::code::{Code, Jump};
use crate::compile::extent;
use crate::compile::lower;
use crate::compile::lower::Place;
use crate::compile::sense;
use crate::double::Floats;
use crate::heap::HeapModel;
use crate::interp::machine::MachineModel;
use crate::interp::make;
use crate::interp::object;
use crate::interp::step;
use crate::interp::trace;
use crate::value::Value;

verus! {

/// Whether a unit has the code that reads a place, between two places.
pub open spec fn read_at(iseq: Iseq, from: Code, place: Place, to: Code) -> bool {
    &&& lower::read_place(from, place) == to
    &&& sense::has_code(iseq, from, to)
}

/// Whether a unit has the code that writes a place, between two places.
pub open spec fn write_at(iseq: Iseq, from: Code, place: Place, to: Code) -> bool {
    &&& lower::write_place(from, place) == to
    &&& sense::has_code(iseq, from, to)
}

/// Where the parts of an assignment are.
pub struct Assigning {
    /// What is written, and, where it is read first, read.
    pub place: Place,
    /// Where the place is ready, and where the code that reads it ends.
    pub ready: Code,
    pub read: Code,
    /// Where the code of the value starts and ends.
    pub value: Code,
    pub valued: Code,
    /// Where the code that writes starts and ends.
    pub write: Code,
    pub written: Code,
}

/// Whether what is on top at one place is there twice at another.
pub open spec fn doubles<F: Floats>(floats: &F, s: MachineModel, from: nat, to: nat) -> bool {
    forall|mid: HeapModel, now: MachineModel, v: Value| #[trigger]
        sense::comes(s, now, from, s.stack.push(v)) ==> #[trigger] sense::leads(
            floats,
            mid,
            now,
            to,
            s.stack.push(v).push(v),
        )
}

/// Whether what is on top at one place is on top at another, where it counts as
/// true or where it does not.
pub open spec fn keeps_when<F: Floats>(
    floats: &F,
    s: MachineModel,
    from: nat,
    to: nat,
    truth: bool,
) -> bool {
    forall|mid: HeapModel, now: MachineModel, x: Value| #[trigger]
        sense::comes(s, now, from, s.stack.push(x)) && object::truthy(x) == truth
            ==> #[trigger] sense::leads(floats, mid, now, to, s.stack.push(x))
}

/// Whether what is on top at one place is gone at another, where it counts as
/// true or where it does not.
pub open spec fn drops_when<F: Floats>(
    floats: &F,
    s: MachineModel,
    from: nat,
    to: nat,
    truth: bool,
) -> bool {
    forall|mid: HeapModel, now: MachineModel, x: Value| #[trigger]
        sense::comes(s, now, from, s.stack.push(x)) && object::truthy(x) == truth
            ==> #[trigger] sense::leads(floats, mid, now, to, s.stack)
}

/// Whether the machine applies an operator at a place to the two operands on
/// top.
pub open spec fn operates(s: MachineModel, at: nat, op: BinOp) -> bool {
    forall|now: MachineModel, x: Value, v: Value| #[trigger]
        sense::comes(s, now, at, s.stack.push(x).push(v)) ==> trace::at_insn(now, Insn::BinOp(op))
}

/// What an assignment does, given what reading its place and running the code
/// of its value leave.
pub open spec fn assigns<F: Floats>(
    floats: &F,
    c: Code,
    assign: Assign,
    after: Code,
    s: MachineModel,
    parts: Assigning,
) -> bool {
    let iseq = s.top().iseq;
    &&& lower::lower_place(c, assign.target) == Ok::<(Code, Place), code::Unsupported>(
        (parts.ready, parts.place),
    )
    &&& sense::expr_at(iseq, parts.value, assign.value, parts.valued)
    &&& write_at(iseq, parts.write, parts.place, parts.written)
    &&& parts.written.here() == after.here()
    &&& match assign.op {
        AssignOp::Assign => {
            &&& parts.value.here() == parts.ready.here()
            &&& doubles(floats, s, parts.valued.here(), parts.write.here())
        },
        AssignOp::Binary(name) => {
            &&& read_at(iseq, parts.ready, parts.place, parts.read)
            &&& parts.value.here() == parts.read.here()
            &&& lower::operator(name@) is Some
            &&& operates(s, parts.valued.here(), lower::operator(name@)->0)
            &&& doubles(floats, s, parts.valued.here() + 1, parts.write.here())
        },
        AssignOp::Or => {
            &&& read_at(iseq, parts.ready, parts.place, parts.read)
            &&& keeps_when(floats, s, parts.read.here(), after.here(), true)
            &&& drops_when(floats, s, parts.read.here(), parts.value.here(), false)
            &&& doubles(floats, s, parts.valued.here(), parts.write.here())
        },
        AssignOp::And => {
            &&& read_at(iseq, parts.ready, parts.place, parts.read)
            &&& keeps_when(floats, s, parts.read.here(), after.here(), false)
            &&& drops_when(floats, s, parts.read.here(), parts.value.here(), true)
            &&& doubles(floats, s, parts.valued.here(), parts.write.here())
        },
    }
}

/// Where the parts of `x = v` are.
proof fn lemma_plain_parts(c: Code, assign: Assign, span: Span, after: Code) -> (parts: Assigning)
    requires
        assign.op is Assign,
        !lower::names_constant(assign.target),
        !(assign.target.kind is Multi),
        lower::lower_assign(c, assign, span) == Ok::<Code, code::Unsupported>(after),
    ensures
        lower::lower_place(c, assign.target) == Ok::<(Code, Place), code::Unsupported>(
            (parts.ready, parts.place),
        ),
        parts.value == parts.ready,
        lower::lower_expr(parts.value, assign.value) == Ok::<Code, code::Unsupported>(parts.valued),
        parts.write == parts.valued.emit(Insn::Dup),
        parts.written == lower::write_place(parts.write, parts.place),
        after == parts.written,
{
    let (ready, place) = lower::lower_place(c, assign.target)->Ok_0;
    let valued = lower::lower_expr(ready, assign.value)->Ok_0;
    Assigning {
        place,
        ready,
        read: ready,
        value: ready,
        valued,
        write: valued.emit(Insn::Dup),
        written: after,
    }
}

/// Where the parts of `x op= v` are.
proof fn lemma_operator_parts(c: Code, assign: Assign, span: Span, after: Code) -> (parts:
    Assigning)
    requires
        assign.op is Binary,
        !lower::names_constant(assign.target),
        !(assign.target.kind is Multi),
        lower::lower_assign(c, assign, span) == Ok::<Code, code::Unsupported>(after),
    ensures
        lower::lower_place(c, assign.target) == Ok::<(Code, Place), code::Unsupported>(
            (parts.ready, parts.place),
        ),
        lower::operator(assign.op->Binary_0@) is Some,
        parts.read == lower::read_place(parts.ready, parts.place),
        parts.value == parts.read,
        lower::lower_expr(parts.value, assign.value) == Ok::<Code, code::Unsupported>(parts.valued),
        parts.write == parts.valued.emit(
            Insn::BinOp(lower::operator(assign.op->Binary_0@)->0),
        ).emit(Insn::Dup),
        parts.written == lower::write_place(parts.write, parts.place),
        after == parts.written,
{
    let op = lower::operator(assign.op->Binary_0@)->0;
    let (ready, place) = lower::lower_place(c, assign.target)->Ok_0;
    let read = lower::read_place(ready, place);
    let valued = lower::lower_expr(read, assign.value)->Ok_0;
    Assigning {
        place,
        ready,
        read,
        value: read,
        valued,
        write: valued.emit(Insn::BinOp(op)).emit(Insn::Dup),
        written: after,
    }
}

/// The jump of an assignment that may keep what there is.
pub open spec fn keeping(op: AssignOp) -> Jump {
    if op is Or {
        Jump::IfKeep
    } else {
        Jump::UnlessKeep
    }
}

/// Where the parts of `x ||= v` and `x &&= v` are.
proof fn lemma_unless_parts(c: Code, assign: Assign, span: Span, after: Code) -> (parts: Assigning)
    requires
        assign.op is Or || assign.op is And,
        !lower::names_constant(assign.target),
        !(assign.target.kind is Multi),
        lower::lower_assign(c, assign, span) == Ok::<Code, code::Unsupported>(after),
    ensures
        lower::lower_place(c, assign.target) == Ok::<(Code, Place), code::Unsupported>(
            (parts.ready, parts.place),
        ),
        parts.read == lower::read_place(parts.ready, parts.place),
        parts.value == parts.read.emit(keeping(assign.op).over(0)).emit(Insn::Pop),
        lower::lower_expr(parts.value, assign.value) == Ok::<Code, code::Unsupported>(parts.valued),
        parts.write == parts.valued.emit(Insn::Dup),
        parts.written == lower::write_place(parts.write, parts.place),
        after == parts.written.patch_here(parts.read.here()),
{
    let (ready, place) = lower::lower_place(c, assign.target)->Ok_0;
    let read = lower::read_place(ready, place);
    let value = read.emit(keeping(assign.op).over(0)).emit(Insn::Pop);
    let valued = lower::lower_expr(value, assign.value)->Ok_0;
    let write = valued.emit(Insn::Dup);
    let written = lower::write_place(write, place);
    Assigning { place, ready, read, value, valued, write, written }
}

/// A value that is on top before a `Dup` is there twice behind it.
proof fn lemma_doubles<F: Floats>(floats: &F, s: MachineModel, from: nat)
    requires
        s.frames.len() > 0,
        from < i32::MAX,
        from < s.top().iseq.insns@.len(),
        s.top().iseq.insns@[from as int] == Insn::Dup,
    ensures
        doubles(floats, s, from, from + 1),
{
    assert forall|mid: HeapModel, now: MachineModel, v: Value| #[trigger]
        sense::comes(s, now, from, s.stack.push(v)) implies #[trigger] sense::leads(
        floats,
        mid,
        now,
        from + 1,
        s.stack.push(v).push(v),
    ) by {
        sense::lemma_goes(floats, mid, now, from + 1, s.stack.push(v).push(v));
    }
}

/// A jump that keeps what it asks about, and the code it skips, which drops it.
proof fn lemma_keeping_jump<F: Floats>(
    floats: &F,
    s: MachineModel,
    keep: Jump,
    at: nat,
    end: nat,
    next: nat,
)
    requires
        s.frames.len() > 0,
        keep is IfKeep || keep is UnlessKeep,
        next == at + 2,
        next <= end <= i32::MAX,
        next <= s.top().iseq.insns@.len(),
        s.top().iseq.insns@[at as int] == keep.over(code::displacement(at as int, end as int)),
        s.top().iseq.insns@[(at + 1) as int] == Insn::Pop,
    ensures
        keeps_when(floats, s, at, end, keep is IfKeep),
        drops_when(floats, s, at, next, !(keep is IfKeep)),
{
    assert forall|mid: HeapModel, now: MachineModel, x: Value| #[trigger]
        sense::comes(s, now, at, s.stack.push(x)) && object::truthy(x) == (
    keep is IfKeep) implies #[trigger] sense::leads(floats, mid, now, end, s.stack.push(x)) by {
        sense::lemma_goes(floats, mid, now, end, s.stack.push(x));
    }
    assert forall|mid: HeapModel, now: MachineModel, x: Value| #[trigger]
        sense::comes(s, now, at, s.stack.push(x)) && object::truthy(x) != (
    keep is IfKeep) implies #[trigger] sense::leads(floats, mid, now, next, s.stack) by {
        assert(s.stack.push(x).drop_last() =~= s.stack);
        sense::lemma_goes(floats, mid, now, at + 1, s.stack.push(x));
        sense::lemma_then(floats, mid, now, at + 1, s.stack.push(x), next, s.stack);
    }
}

/// The code of an assignment that reads nothing.
proof fn lemma_plain<F: Floats>(
    floats: &F,
    c: Code,
    ready: Code,
    valued: Code,
    write: Code,
    after: Code,
    s: MachineModel,
)
    requires
        s.frames.len() > 0,
        sense::has_code(s.top().iseq, c, after),
        extent::kept(c, ready),
        extent::kept(ready, valued),
        write == valued.emit(Insn::Dup),
        extent::kept(write, after),
    ensures
        sense::has_code(s.top().iseq, ready, valued),
        sense::has_code(s.top().iseq, write, after),
        doubles(floats, s, valued.here(), write.here()),
{
    let iseq = s.top().iseq;
    sense::lemma_len_emit(valued, Insn::Dup);
    extent::lemma_kept_len(c, ready);
    extent::lemma_kept_len(ready, valued);
    extent::lemma_kept_len(write, after);
    sense::lemma_fixed_kept(c, ready);
    sense::lemma_fixed_kept(ready, valued);
    sense::lemma_fixed_emit(valued, Insn::Dup);
    sense::lemma_fixed_kept(write, after);
    assert forall|at: nat, insn: Insn| #[trigger] sense::fixed(valued, at, insn) implies sense::fixed(
        after,
        at,
        insn,
    ) by {
        sense::lemma_fixed_over_emit(valued, at, insn, Insn::Dup);
        assert(sense::fixed(write, at, insn));
    }
    sense::lemma_carries_part(iseq, c, valued, after, ready.here());
    sense::lemma_carries_part(iseq, c, after, after, write.here());
    assert(sense::fixed(after, valued.here(), Insn::Dup));
    lemma_doubles(floats, s, valued.here());
}

/// The code of an assignment that applies an operator.
proof fn lemma_operator<F: Floats>(
    floats: &F,
    c: Code,
    ready: Code,
    read: Code,
    valued: Code,
    op: BinOp,
    write: Code,
    after: Code,
    s: MachineModel,
)
    requires
        s.frames.len() > 0,
        sense::has_code(s.top().iseq, c, after),
        extent::kept(c, ready),
        extent::kept(ready, read),
        extent::kept(read, valued),
        write == valued.emit(Insn::BinOp(op)).emit(Insn::Dup),
        extent::kept(write, after),
    ensures
        sense::has_code(s.top().iseq, ready, read),
        sense::has_code(s.top().iseq, read, valued),
        sense::has_code(s.top().iseq, write, after),
        operates(s, valued.here(), op),
        doubles(floats, s, valued.here() + 1, write.here()),
{
    let iseq = s.top().iseq;
    let done = valued.emit(Insn::BinOp(op));
    sense::lemma_len_emit(valued, Insn::BinOp(op));
    sense::lemma_len_emit(done, Insn::Dup);
    extent::lemma_kept_len(c, ready);
    extent::lemma_kept_len(ready, read);
    extent::lemma_kept_len(read, valued);
    extent::lemma_kept_len(write, after);
    sense::lemma_fixed_kept(c, ready);
    sense::lemma_fixed_kept(ready, read);
    sense::lemma_fixed_kept(read, valued);
    sense::lemma_fixed_emit(valued, Insn::BinOp(op));
    sense::lemma_fixed_emit(done, Insn::Dup);
    sense::lemma_fixed_kept(write, after);
    assert forall|at: nat, insn: Insn| #[trigger] sense::fixed(valued, at, insn) implies sense::fixed(
        after,
        at,
        insn,
    ) by {
        sense::lemma_fixed_over_emit(valued, at, insn, Insn::BinOp(op));
        sense::lemma_fixed_over_emit(done, at, insn, Insn::Dup);
        assert(sense::fixed(write, at, insn));
    }
    assert forall|at: nat, insn: Insn| #[trigger] sense::fixed(read, at, insn) implies sense::fixed(
        after,
        at,
        insn,
    ) by {
        assert(sense::fixed(valued, at, insn));
    }
    sense::lemma_fixed_over_emit(done, valued.here(), Insn::BinOp(op), Insn::Dup);
    sense::lemma_carries_part(iseq, c, read, after, ready.here());
    sense::lemma_carries_part(iseq, c, valued, after, read.here());
    sense::lemma_carries_part(iseq, c, after, after, write.here());
    assert(sense::fixed(after, valued.here(), Insn::BinOp(op)));
    assert(sense::fixed(after, valued.here() + 1, Insn::Dup));
    lemma_doubles(floats, s, valued.here() + 1);
}

/// The code of an assignment that may keep what there is.
proof fn lemma_unless<F: Floats>(
    floats: &F,
    c: Code,
    ready: Code,
    read: Code,
    keep: Jump,
    value: Code,
    valued: Code,
    write: Code,
    written: Code,
    after: Code,
    s: MachineModel,
)
    requires
        s.frames.len() > 0,
        keep is IfKeep || keep is UnlessKeep,
        sense::has_code(s.top().iseq, c, after),
        extent::kept(c, ready),
        extent::kept(ready, read),
        value == read.emit(keep.over(0)).emit(Insn::Pop),
        extent::kept(value, valued),
        write == valued.emit(Insn::Dup),
        extent::kept(write, written),
        after == written.patch_here(read.here()),
    ensures
        sense::has_code(s.top().iseq, ready, read),
        sense::has_code(s.top().iseq, value, valued),
        sense::has_code(s.top().iseq, write, written),
        written.here() == after.here(),
        keeps_when(floats, s, read.here(), after.here(), keep is IfKeep),
        drops_when(floats, s, read.here(), value.here(), !(keep is IfKeep)),
        doubles(floats, s, valued.here(), write.here()),
{
    let iseq = s.top().iseq;
    let skip = read.here();
    let jump = keep.over(0);
    let asked = read.emit(jump);
    sense::lemma_len_emit(read, jump);
    sense::lemma_len_emit(asked, Insn::Pop);
    sense::lemma_len_emit(valued, Insn::Dup);
    sense::lemma_len_patch_here(written, skip);
    extent::lemma_kept_len(c, ready);
    extent::lemma_kept_len(ready, read);
    extent::lemma_kept_len(value, valued);
    extent::lemma_kept_len(write, written);
    sense::lemma_fixed_kept(c, ready);
    sense::lemma_fixed_kept(ready, read);
    sense::lemma_fixed_emit(read, jump);
    sense::lemma_fixed_emit(asked, Insn::Pop);
    sense::lemma_fixed_kept(value, valued);
    sense::lemma_fixed_emit(valued, Insn::Dup);
    sense::lemma_fixed_kept(write, written);
    assert forall|at: nat, insn: Insn| #[trigger] sense::fixed(written, at, insn) && at
        != skip implies sense::fixed(after, at, insn) by {
        sense::lemma_fixed_over_patch_here(written, at, insn, skip);
    }
    assert forall|at: nat, insn: Insn| #[trigger] sense::fixed(valued, at, insn) implies sense::fixed(
        written,
        at,
        insn,
    ) by {
        sense::lemma_fixed_over_emit(valued, at, insn, Insn::Dup);
        assert(sense::fixed(write, at, insn));
    }
    assert forall|at: nat, insn: Insn| #[trigger] sense::fixed(read, at, insn) implies sense::fixed(
        after,
        at,
        insn,
    ) by {
        sense::lemma_fixed_inside(read, at, insn);
        sense::lemma_fixed_over_emit(read, at, insn, jump);
        sense::lemma_fixed_over_emit(asked, at, insn, Insn::Pop);
        assert(sense::fixed(valued, at, insn));
        assert(sense::fixed(written, at, insn));
    }
    sense::lemma_fixed_over_emit(asked, skip, jump, Insn::Pop);
    assert(sense::fixed(valued, skip, jump));
    assert(sense::fixed(written, skip, jump));
    sense::lemma_fixed_over_patch_here(written, skip, jump, skip);
    assert(sense::fixed(valued, skip + 1, Insn::Pop));
    assert(sense::fixed(written, skip + 1, Insn::Pop));
    assert(sense::fixed(after, skip + 1, Insn::Pop));
    assert(sense::fixed(write, valued.here(), Insn::Dup));
    assert(sense::fixed(written, valued.here(), Insn::Dup));
    assert(sense::fixed(after, valued.here(), Insn::Dup));
    sense::lemma_carries_part(iseq, c, read, after, ready.here());
    sense::lemma_carries_part(iseq, c, valued, after, value.here());
    sense::lemma_carries_part(iseq, c, written, after, write.here());
    lemma_doubles(floats, s, valued.here());
    lemma_keeping_jump(floats, s, keep, skip, after.here(), value.here());
}

/// An assignment writes the value it leaves. `x = v` runs the code of `v` and
/// writes what it leaves; `x op= v` reads `x`, runs the code of `v` and writes
/// what the operator makes of the two. `x ||= v` reads `x`: where that is
/// neither `nil` nor `false` it is what is left, the code of `v` is not run and
/// nothing is written; otherwise what `v` leaves is written and left. `x &&= v`
/// is the other way round.
pub proof fn law_an_assignment_writes_what_it_leaves<F: Floats>(
    floats: &F,
    c: Code,
    expr: Expr,
    after: Code,
    s: MachineModel,
) -> (parts: Assigning)
    requires
        expr.kind is Assign,
        !lower::names_constant(expr.kind->Assign_0.target),
        !(expr.kind->Assign_0.target.kind is Multi),
        sense::expr_at(s.top().iseq, c, expr, after),
        s.frames.len() > 0,
    ensures
        assigns(floats, c, *expr.kind->Assign_0, after, s, parts),
{
    let assign = *expr.kind->Assign_0;
    lemma_assigns(floats, c, assign, expr.span, after, s)
}

/// What an assignment does.
proof fn lemma_assigns<F: Floats>(
    floats: &F,
    c: Code,
    assign: Assign,
    span: Span,
    after: Code,
    s: MachineModel,
) -> (parts: Assigning)
    requires
        !lower::names_constant(assign.target),
        !(assign.target.kind is Multi),
        lower::lower_assign(c, assign, span) == Ok::<Code, code::Unsupported>(after),
        sense::has_code(s.top().iseq, c, after),
        s.frames.len() > 0,
    ensures
        assigns(floats, c, assign, after, s, parts),
{
    let parts = match assign.op {
        AssignOp::Assign => lemma_plain_parts(c, assign, span, after),
        AssignOp::Binary(_) => lemma_operator_parts(c, assign, span, after),
        _ => lemma_unless_parts(c, assign, span, after),
    };
    extent::lemma_kept_itself(c);
    extent::keep_place(c, c, assign.target);
    extent::lemma_kept_itself(parts.ready);
    extent::keep_read_place(parts.ready, parts.ready, parts.place);
    sense::lemma_expr_kept(parts.value, assign.value, parts.valued);
    extent::lemma_kept_itself(parts.write);
    extent::keep_write_place(parts.write, parts.write, parts.place);
    match assign.op {
        AssignOp::Assign => {
            lemma_plain(floats, c, parts.ready, parts.valued, parts.write, after, s);
        },
        AssignOp::Binary(name) => {
            lemma_operator(
                floats,
                c,
                parts.ready,
                parts.read,
                parts.valued,
                lower::operator(name@)->0,
                parts.write,
                after,
                s,
            );
        },
        _ => {
            lemma_unless(
                floats,
                c,
                parts.ready,
                parts.read,
                keeping(assign.op),
                parts.value,
                parts.valued,
                parts.write,
                parts.written,
                after,
                s,
            );
        },
    }
    parts
}

/// A local that is read leaves what it holds, and nothing changes.
pub proof fn law_a_local_is_read<F: Floats>(
    floats: &F,
    from: Code,
    slot: u16,
    up: u16,
    to: Code,
    m: HeapModel,
    s: MachineModel,
    env: Value,
    v: Value,
)
    requires
        read_at(s.top().iseq, from, Place::Local(slot, up), to),
        s.frames.len() > 0,
        s.top().pc == from.here(),
        make::env_out(m, s.top().env, up as nat) == Some(env),
        make::env_local(m, env, slot as int) == Some(v),
    ensures
        sense::leads(floats, m, s, to.here(), s.stack.push(v)),
{
    broadcast use sense::group_fixed;

    let insn = Insn::GetLocal(slot, up);
    assert(sense::fixed(to, from.here(), insn));
    reveal(step::stepped);
    let now = trace::moved(s, to.here(), s.stack.push(v));
    let ahead = step::at_pc(s, to.here() as usize);
    assert(ahead.top().env == s.top().env);
    assert(now =~= ahead.pushing(v));
    trace::lemma_step_reaches(floats, m, s, m, now);
}

/// A local that is written holds what was on top from then on, and no other
/// local changes.
pub proof fn law_a_local_is_written<F: Floats>(
    floats: &F,
    from: Code,
    slot: u16,
    up: u16,
    to: Code,
    m: HeapModel,
    s: MachineModel,
    env: Value,
    other: Value,
    other_slot: int,
)
    requires
        write_at(s.top().iseq, from, Place::Local(slot, up), to),
        s.frames.len() > 0,
        s.stack.len() > 0,
        s.top().pc == from.here(),
        make::env_out(m, s.top().env, up as nat) == Some(env),
        make::env_local(m, env, slot as int) is Some,
    ensures
        trace::reaches(
            floats,
            m,
            s,
            make::env_written(m, env, slot as int, s.stack.last()),
            trace::moved(s, to.here(), s.stack.drop_last()),
        ),
        make::env_local(
            make::env_written(m, env, slot as int, s.stack.last()),
            env,
            slot as int,
        ) == Some(s.stack.last()),
        other@ != env@ || other_slot != slot ==> make::env_local(
            make::env_written(m, env, slot as int, s.stack.last()),
            other,
            other_slot,
        ) == make::env_local(m, other, other_slot),
{
    broadcast use sense::group_fixed;

    let insn = Insn::SetLocal(slot, up);
    assert(sense::fixed(to, from.here(), insn));
    reveal(step::stepped);
    let now = trace::moved(s, to.here(), s.stack.drop_last());
    let ahead = step::at_pc(s, to.here() as usize);
    assert(ahead.top().env == s.top().env);
    assert(now =~= ahead.popped());
    let after = make::env_written(m, env, slot as int, s.stack.last());
    trace::lemma_step_reaches(floats, m, s, after, now);
}

} // verus!
