//! One instruction.

use vstd::prelude::*;

use crate::bytecode;
use crate::bytecode::{BinOp, ConstScope, Insn, Literal};
use crate::class;
use crate::class::{Builtin, ClassId};
use crate::double::Floats;
use crate::heap;
use crate::heap::{HandleScope, HeapModel, Object};
use crate::interp::bind;
use crate::interp::bind::{Pending, PendingModel, Target};
use crate::interp::call;
use crate::interp::call::MAX_IDS;
use crate::interp::define;
use crate::interp::equal;
use crate::interp::error;
use crate::interp::error::Error;
use crate::interp::machine;
use crate::interp::machine::{CallModel, Machine, MachineModel, Parked, Step, Unwind};
use crate::interp::make;
use crate::interp::native;
use crate::interp::number;
use crate::interp::object;
use crate::interp::object::bool_value;
use crate::shared::symbols;
use crate::value;
use crate::value::{SymbolId, Unpacked, Value};

verus! {

broadcast use Value::law_pack;

/// The machine with the frame that runs at another instruction.
pub open spec fn at_pc(s: MachineModel, pc: usize) -> MachineModel {
    s.with_top(CallModel { pc, ..s.top() })
}

/// Whether an instruction only changed the machine.
pub open spec fn only_machine(
    before: HeapModel,
    after: HeapModel,
    now: MachineModel,
    wanted: MachineModel,
    r: Result<Step, Error>,
) -> bool {
    &&& r == Ok::<Step, Error>(Step::Next)
    &&& now == wanted
    &&& after == before
}

/// Whether an instruction was found to be malformed, and did nothing.
pub open spec fn malformed(
    before: HeapModel,
    after: HeapModel,
    s: MachineModel,
    now: MachineModel,
    r: Result<Step, Error>,
) -> bool {
    &&& r matches Err(e) && e is Malformed
    &&& now == s
    &&& after == before
}

/// A jump.
pub open spec fn jumps(
    before: HeapModel,
    after: HeapModel,
    s: MachineModel,
    now: MachineModel,
    left: MachineModel,
    displacement: i32,
    taken: bool,
    r: Result<Step, Error>,
) -> bool {
    if !taken {
        only_machine(before, after, now, left, r)
    } else {
        match machine::jump_target(s.top().pc, displacement) {
            Some(pc) => only_machine(before, after, now, at_pc(left, pc), r),
            None => r matches Err(e) && e is Malformed && now == left && after == before,
        }
    }
}

/// Whether an instruction is one of those that move values and jump.
pub open spec fn is_simple(insn: Insn) -> bool {
    insn is PushNil || insn is PushTrue || insn is PushFalse || insn is PushSelf || insn is PushInt
        || insn is PushSym || insn is Pop || insn is Dup || insn is Jump || insn is JumpUnless
        || insn is JumpIf || insn is JumpUnlessKeep || insn is JumpIfKeep
        || insn is JumpUnlessUndef || insn is Not
}

/// What an instruction that moves values or jumps does.
pub open spec fn simple_done(
    insn: Insn,
    before: HeapModel,
    after: HeapModel,
    s: MachineModel,
    now: MachineModel,
    r: Result<Step, Error>,
) -> bool {
    let top = s.top();
    let empty = s.stack.len() == 0;
    match insn {
        Insn::PushNil => only_machine(
            before,
            after,
            now,
            s.pushing(Value::pack(Unpacked::Nil)),
            r,
        ),
        Insn::PushTrue => only_machine(before, after, now, s.pushing(object::truth(true)), r),
        Insn::PushFalse => only_machine(before, after, now, s.pushing(object::truth(false)), r),
        Insn::PushSelf => only_machine(before, after, now, s.pushing(top.receiver), r),
        Insn::PushInt(n) => if value::fits_fixnum(n as int) {
            only_machine(before, after, now, s.pushing(Value::pack(Unpacked::Fixnum(n))), r)
        } else {
            &&& r matches Err(e) && error::refuses(
                e,
                "Integer"@,
                "a value wider than a fixnum"@,
            )
            &&& now == s
            &&& after == before
        },
        Insn::PushSym(i) => if i < top.symbols.len() {
            only_machine(
                before,
                after,
                now,
                s.pushing(Value::pack(Unpacked::Symbol(top.symbols[i as int]))),
                r,
            )
        } else {
            malformed(before, after, s, now, r)
        },
        Insn::Pop => only_machine(
            before,
            after,
            now,
            if empty {
                s
            } else {
                s.popped()
            },
            r,
        ),
        Insn::Dup => if empty {
            malformed(before, after, s, now, r)
        } else {
            only_machine(before, after, now, s.pushing(s.stack.last()), r)
        },
        Insn::Not => if empty {
            malformed(before, after, s, now, r)
        } else {
            only_machine(
                before,
                after,
                now,
                s.popped().pushing(object::truth(!object::truthy(s.stack.last()))),
                r,
            )
        },
        Insn::Jump(d) => jumps(before, after, s, now, s, d, true, r),
        Insn::JumpUnless(d) => if empty {
            malformed(before, after, s, now, r)
        } else {
            jumps(before, after, s, now, s.popped(), d, !object::truthy(s.stack.last()), r)
        },
        Insn::JumpIf(d) => if empty {
            malformed(before, after, s, now, r)
        } else {
            jumps(before, after, s, now, s.popped(), d, object::truthy(s.stack.last()), r)
        },
        Insn::JumpUnlessKeep(d) => if empty {
            malformed(before, after, s, now, r)
        } else {
            jumps(before, after, s, now, s, d, !object::truthy(s.stack.last()), r)
        },
        Insn::JumpIfKeep(d) => if empty {
            malformed(before, after, s, now, r)
        } else {
            jumps(before, after, s, now, s, d, object::truthy(s.stack.last()), r)
        },
        Insn::JumpUnlessUndef(d) => if empty {
            malformed(before, after, s, now, r)
        } else {
            jumps(
                before,
                after,
                s,
                now,
                s.popped(),
                d,
                s.stack.last() != Value::pack(Unpacked::Undef),
                r,
            )
        },
        _ => true,
    }
}

/// What every instruction keeps: the machine in order, the heap grown, frame
/// ids handed out one at a time.
pub open spec fn keeps_order(
    before: HeapModel,
    after: HeapModel,
    s: MachineModel,
    now: MachineModel,
    r: Result<Step, Error>,
) -> bool {
    &&& machine::grown(before, after)
    &&& machine::machine_ok(after, now)
    &&& s.ids <= now.ids <= s.ids + 1
    &&& r matches Ok(Step::Next) ==> now.frames.len() > 0
    &&& r matches Ok(Step::Unwind(u)) ==> machine::unwind_held(after, u) && now.frames.len() > 0
    &&& r matches Ok(Step::Done(v)) ==> machine::held(after, v)
    &&& r matches Err(e) ==> (e is Raise ==> now.frames.len() > 0)
}

/// A machine in order stays so with its frame at another instruction.
pub proof fn lemma_at_pc(m: HeapModel, s: MachineModel, pc: usize)
    requires
        machine::machine_ok(m, s),
        s.frames.len() > 0,
    ensures
        machine::machine_ok(m, at_pc(s, pc)),
{
    let now = at_pc(s, pc);
    assert forall|i: int| 0 <= i < now.frames.len() implies machine::call_ok(
        m,
        #[trigger] now.frames[i],
    ) by {
        assert(machine::call_ok(m, s.frames[i]));
    }
}

impl Machine {
    /// Go to another instruction of the frame that runs.
    fn go_to(&mut self, displacement: i32) -> (r: Result<Step, Error>)
        requires
            old(self)@.frames.len() > 0,
        ensures
            match machine::jump_target(old(self)@.top().pc, displacement) {
                Some(pc) => r == Ok::<Step, Error>(Step::Next) && final(self)@ == at_pc(
                    old(self)@,
                    pc,
                ),
                None => (r matches Err(e) && e is Malformed) && final(self)@ == old(self)@,
            },
    {
        let ghost s = self@;
        let top: usize = self.frames.len() - 1;
        assert(s.top() == self.frames@[top as int]@);
        match machine::jump(self.frames[top].pc, displacement) {
            Some(pc) => {
                self.frames[top].pc = pc;
                assert(self@ =~= at_pc(s, pc));
                Ok(Step::Next)
            },
            None => Err(Error::malformed("a jump out of the code")),
        }
    }

    /// Push a value.
    fn put(&mut self, value: Value) -> (r: Result<Step, Error>)
        ensures
            r == Ok::<Step, Error>(Step::Next),
            final(self)@ == old(self)@.pushing(value),
    {
        let ghost s = self@;
        self.stack.push(value);
        assert(self@ =~= s.pushing(value));
        Ok(Step::Next)
    }

    /// Take the last value.
    fn take(&mut self) -> (r: Option<Value>)
        ensures
            match r {
                Some(v) => old(self)@.stack.len() > 0 && v == old(self)@.stack.last()
                    && final(self)@ == old(self)@.popped(),
                None => old(self)@.stack.len() == 0 && final(self)@ == old(self)@,
            },
    {
        let ghost s = self@;
        let r = self.stack.pop();
        proof {
            if r is Some {
                assert(self@ =~= s.popped());
            } else {
                assert(self@ =~= s);
            }
        }
        r
    }

    /// The last value.
    fn peek(&self) -> (r: Option<Value>)
        ensures
            match r {
                Some(v) => self@.stack.len() > 0 && v == self@.stack.last(),
                None => self@.stack.len() == 0,
            },
    {
        let len: usize = self.stack.len();
        if len == 0 {
            None
        } else {
            Some(self.stack[len - 1])
        }
    }
}

/// An instruction that moves values or jumps.
fn step_simple(scope: &HandleScope, machine: &mut Machine, insn: Insn) -> (r: Result<Step, Error>)
    requires
        machine::machine_ok(scope@, old(machine)@),
        old(machine)@.frames.len() > 0,
        is_simple(insn),
    ensures
        simple_done(insn, scope@, scope@, old(machine)@, final(machine)@, r),
        !machine::runs_out(r),
        keeps_order(scope@, scope@, old(machine)@, final(machine)@, r),
{
    let ghost s = machine@;
    let ghost m = scope@;
    let top: usize = machine.frames.len() - 1;
    proof {
        assert(s.top() == machine.frames@[top as int]@);
        assert(machine::call_ok(m, s.frames[top as int]));
        if s.stack.len() > 0 {
            define::lemma_popped(m, s);
        }
        assert forall|v: Value| #[trigger] machine::held(m, v) implies machine::machine_ok(
            m,
            s.pushing(v),
        ) by {
            call::lemma_pushed(m, s, v);
        }
        assert forall|v: Value| s.stack.len() > 0 && #[trigger] machine::held(
            m,
            v,
        ) implies machine::machine_ok(m, s.popped().pushing(v)) by {
            call::lemma_pushed(m, s.popped(), v);
        }
        assert forall|pc: usize| machine::machine_ok(m, #[trigger] at_pc(s, pc)) by {
            lemma_at_pc(m, s, pc);
        }
        assert forall|pc: usize| s.stack.len() > 0 implies machine::machine_ok(
            m,
            #[trigger] at_pc(s.popped(), pc),
        ) by {
            lemma_at_pc(m, s.popped(), pc);
        }
    }
    match insn {
        Insn::PushNil => {
            let v = Value::nil();
            assert(machine::held(m, v));
            machine.put(v)
        },
        Insn::PushTrue => {
            let v = bool_value(true);
            assert(machine::held(m, v));
            machine.put(v)
        },
        Insn::PushFalse => {
            let v = bool_value(false);
            assert(machine::held(m, v));
            machine.put(v)
        },
        Insn::PushSelf => {
            let v = machine.frames[top].receiver;
            assert(machine::held(m, v));
            machine.put(v)
        },
        Insn::PushInt(n) => match Value::fixnum(n) {
            Some(v) => {
                assert(machine::held(m, v));
                machine.put(v)
            },
            None => Err(Error::refuse("Integer", "a value wider than a fixnum")),
        },
        Insn::PushSym(i) => {
            let at: usize = i as usize;
            if at < machine.frames[top].symbols.len() {
                let v = Value::symbol(machine.frames[top].symbols[at]);
                assert(machine::held(m, v));
                machine.put(v)
            } else {
                Err(Error::malformed("a symbol"))
            }
        },
        Insn::Pop => {
            machine.take();
            Ok(Step::Next)
        },
        Insn::Dup => match machine.peek() {
            Some(v) => machine.put(v),
            None => Err(Error::malformed("an operand")),
        },
        Insn::Not => match machine.take() {
            Some(v) => {
                let w = bool_value(!v.is_truthy());
                assert(machine::held(m, w));
                machine.put(w)
            },
            None => Err(Error::malformed("an operand")),
        },
        Insn::Jump(d) => machine.go_to(d),
        Insn::JumpUnless(d) => match machine.take() {
            Some(v) => if !v.is_truthy() {
                machine.go_to(d)
            } else {
                Ok(Step::Next)
            },
            None => Err(Error::malformed("an operand")),
        },
        Insn::JumpIf(d) => match machine.take() {
            Some(v) => if v.is_truthy() {
                machine.go_to(d)
            } else {
                Ok(Step::Next)
            },
            None => Err(Error::malformed("an operand")),
        },
        Insn::JumpUnlessKeep(d) => match machine.peek() {
            Some(v) => if !v.is_truthy() {
                machine.go_to(d)
            } else {
                Ok(Step::Next)
            },
            None => Err(Error::malformed("an operand")),
        },
        Insn::JumpIfKeep(d) => match machine.peek() {
            Some(v) => if v.is_truthy() {
                machine.go_to(d)
            } else {
                Ok(Step::Next)
            },
            None => Err(Error::malformed("an operand")),
        },
        Insn::JumpUnlessUndef(d) => match machine.take() {
            Some(v) => if v != Value::undef() {
                machine.go_to(d)
            } else {
                Ok(Step::Next)
            },
            None => Err(Error::malformed("an operand")),
        },
        _ => Ok(Step::Next),
    }
}

// ---------------------------------------------------------------------------
// Values
// ---------------------------------------------------------------------------

/// What a literal comes to.
pub open spec fn literal_outcome(
    before: HeapModel,
    after: HeapModel,
    literal: Literal,
    r: Result<Value, Error>,
) -> bool {
    let class = Some(object::builtin_object(before, Builtin::String));
    match literal {
        Literal::Float(bits) => if value::is_flonum(bits) {
            r == Ok::<Value, Error>(Value::pack(Unpacked::Flonum(bits))) && after == before
        } else {
            &&& r matches Err(e) && error::refuses(
                e,
                "Float"@,
                "a float outside flonum range"@,
            )
            &&& after == before
        },
        Literal::BoxedFloat(_) => {
            &&& r matches Err(e) && error::refuses(
                e,
                "Float"@,
                "a float outside flonum range"@,
            )
            &&& after == before
        },
        Literal::BigInt(_) => {
            &&& r matches Err(e) && error::refuses(
                e,
                "Integer"@,
                "a value wider than a fixnum"@,
            )
            &&& after == before
        },
        Literal::Str(bytes) => match r {
            Ok(v) => make::made(before, after, v, make::bytes_object(class, bytes@)),
            Err(e) => e is Exhausted && after == before,
        },
        Literal::FrozenStr(bytes) => match r {
            Ok(v) => make::made(
                before,
                after,
                v,
                (Object { frozen: true, ..make::bytes_object(class, bytes@) }),
            ),
            Err(e) => e is Exhausted && after == before,
        },
        Literal::Regexp { source: _, options: _ } => {
            &&& r matches Err(e) && error::refuses(
                e,
                "Regexp"@,
                "a pattern, which needs a matcher"@,
            )
            &&& after == before
        },
    }
}

/// How many bytes a literal holds.
pub open spec fn literal_len(literal: Literal) -> nat {
    match literal {
        Literal::Str(bytes) => bytes@.len(),
        Literal::FrozenStr(bytes) => bytes@.len(),
        _ => 0,
    }
}

/// How many values a call site hands on, its splats expanded.
pub open spec fn call_breadth(m: HeapModel, s: MachineModel, index: u32, sends: bool) -> nat {
    let sites = s.top().iseq.call_sites@;
    if index < sites.len() {
        let call = call::taken_call(
            m,
            s,
            sites[index as int],
            sends,
            Value::pack(Unpacked::Nil),
        );
        call.args.len() + call.keywords.len()
    } else {
        0
    }
}

/// How long a body, or how many values, an instruction names.
pub open spec fn breadth(m: HeapModel, s: MachineModel, insn: Insn) -> nat {
    let literals = s.top().iseq.literals@;
    match insn {
        Insn::PushLit(i) => if i < literals.len() {
            literal_len(literals[i as int])
        } else {
            0
        },
        Insn::NewArray(n) => n as nat,
        Insn::Send(i) => call_breadth(m, s, i, true),
        Insn::Yield(i) => call_breadth(m, s, i, false),
        _ => 0,
    }
}

/// Whether an instruction asks for what no room is enough for: a comparison of
/// operands that are nested too deep, or one array of two that are too long
/// together.
pub open spec fn overtaxed(m: HeapModel, s: MachineModel, insn: Insn) -> bool {
    let n = s.stack.len();
    let sites = s.top().iseq.call_sites@;
    match insn {
        Insn::BinOp(op) => n >= 2 && {
            ||| (op is Eq || op is Neq) && equal::equality(
                m,
                s.stack[n - 2],
                s.stack.last(),
                equal::nesting(m),
            ) is TooDeep
            ||| machine::overlong(m, s.stack[n - 2], seq![s.stack.last()])
        },
        Insn::CaseEq => n >= 2 && equal::equality(
            m,
            s.stack.last(),
            s.stack[n - 2],
            equal::nesting(m),
        ) is TooDeep,
        Insn::Send(i) => i < sites.len() && {
            let call = call::taken_call(
                m,
                s,
                sites[i as int],
                true,
                Value::pack(Unpacked::Nil),
            );
            machine::overlong(m, call.receiver, call.args)
        },
        _ => false,
    }
}

/// Make the value a literal describes. A string is a new one each time.
pub fn materialise(scope: &mut HandleScope, literal: &Literal) -> (r: Result<Value, Error>)
    requires
        old(scope).wf(),
        object::kernel_in(old(scope)@),
    ensures
        final(scope).wf(),
        final(scope).scopes() == old(scope).scopes(),
        machine::grown(old(scope)@, final(scope)@),
        r matches Ok(v) ==> machine::held(final(scope)@, v),
        machine::costs(*old(scope), *final(scope), r, 1 + literal_len(*literal)),
        literal_outcome(old(scope)@, final(scope)@, *literal, r),
{
    let ghost before = scope@;
    match literal {
        Literal::Float(bits) => match Value::flonum(*bits) {
            Some(v) => Ok(v),
            None => Err(Error::refuse("Float", "a float outside flonum range")),
        },
        Literal::BoxedFloat(_) => Err(Error::refuse("Float", "a float outside flonum range")),
        Literal::BigInt(_) => Err(Error::refuse("Integer", "a value wider than a fixnum")),
        Literal::Str(bytes) => {
            let copy = vstd::slice::slice_to_vec(bytes.as_slice());
            assert(copy@ =~= bytes@);
            make::new_string(scope, copy)
        },
        Literal::FrozenStr(bytes) => {
            let copy = vstd::slice::slice_to_vec(bytes.as_slice());
            assert(copy@ =~= bytes@);
            match make::new_string(scope, copy) {
                Ok(v) => {
                    let ghost plain = scope@;
                    let handle = scope.root(v);
                    scope.freeze(handle);
                    proof {
                        let after = scope@;
                        assert(heap::persists(before, after)) by {
                            assert forall|a: u64| #[trigger]
                                before.objects.contains_key(a) && before.reachable(
                                    a,
                                ) implies after.objects.contains_key(a) && after.objects[a]
                                == before.objects[a] by {
                                assert(a != v@->Heap_0);
                            }
                        }
                        assert(after.roots[after.roots.len() - 1] == v);
                    }
                    Ok(v)
                },
                Err(e) => Err(e),
            }
        },
        Literal::Regexp { source: _, options: _ } => Err(
            Error::refuse("Regexp", "a pattern, which needs a matcher"),
        ),
    }
}

/// Whether an instruction is one of those that read or make a value.
pub open spec fn is_value(insn: Insn) -> bool {
    insn is PushLit || insn is GetLocal || insn is SetLocal || insn is NewArray || insn is MakeProc
}

/// What an instruction that makes a value does with it.
pub open spec fn value_pushed(
    s: MachineModel,
    now: MachineModel,
    made: Result<Value, Error>,
    r: Result<Step, Error>,
) -> bool {
    match made {
        Ok(v) => r == Ok::<Step, Error>(Step::Next) && now == s.pushing(v),
        Err(e) => r == Err::<Step, Error>(e) && now == s,
    }
}

/// What an instruction that reads or makes a value does.
pub open spec fn value_done(
    insn: Insn,
    before: HeapModel,
    after: HeapModel,
    s: MachineModel,
    now: MachineModel,
    r: Result<Step, Error>,
) -> bool {
    let top = s.top();
    match insn {
        Insn::PushLit(i) => if i < top.iseq.literals@.len() {
            exists|made: Result<Value, Error>|
                {
                    &&& #[trigger] literal_outcome(
                        before,
                        after,
                        top.iseq.literals@[i as int],
                        made,
                    )
                    &&& value_pushed(s, now, made, r)
                }
        } else {
            malformed(before, after, s, now, r)
        },
        Insn::GetLocal(slot, depth) => match make::env_out(before, top.env, depth as nat) {
            None => malformed(before, after, s, now, r),
            Some(env) => match make::env_local(before, env, slot as int) {
                None => malformed(before, after, s, now, r),
                Some(v) => {
                    &&& r == Ok::<Step, Error>(Step::Next)
                    &&& now == s.pushing(v)
                    &&& call::rooted_more(before, after)
                },
            },
        },
        Insn::SetLocal(slot, depth) => if s.stack.len() == 0 {
            malformed(before, after, s, now, r)
        } else {
            match make::env_out(before, top.env, depth as nat) {
                None => malformed(before, after, s.popped(), now, r),
                Some(env) => if make::env_local(before, env, slot as int) is None {
                    malformed(before, after, s.popped(), now, r)
                } else {
                    &&& r == Ok::<Step, Error>(Step::Next)
                    &&& now == s.popped()
                    &&& after == make::env_written(before, env, slot as int, s.stack.last())
                },
            }
        },
        Insn::NewArray(n) => if n > s.stack.len() {
            malformed(before, after, s, now, r)
        } else {
            let rest = MachineModel { stack: s.stack.take(s.stack.len() - n), ..s };
            match r {
                Ok(step) => {
                    &&& step is Next
                    &&& now == rest.pushing(now.stack.last())
                    &&& make::made(
                        before,
                        after,
                        now.stack.last(),
                        make::slots_object(
                            Some(object::builtin_object(before, Builtin::Array)),
                            s.stack.skip(s.stack.len() - n),
                        ),
                    )
                },
                Err(e) => e is Exhausted && now == rest && after == before,
            }
        },
        Insn::MakeProc(child, lambda) => match r {
            Ok(step) => {
                &&& step is Next
                &&& now == s.pushing(now.stack.last())
                &&& call::proc_ready(before, after, top, child, lambda, now.stack.last())
            },
            Err(e) => {
                &&& now == s
                &&& e is Exhausted || e is Malformed && child >= top.iseq.children@.len()
            },
        },
        _ => true,
    }
}

/// An instruction that reads or makes a value.
fn step_value(scope: &mut HandleScope, machine: &mut Machine, insn: Insn) -> (r: Result<
    Step,
    Error,
>)
    requires
        old(scope).wf(),
        object::kernel_in(old(scope)@),
        machine::machine_ok(old(scope)@, old(machine)@),
        old(machine)@.frames.len() > 0,
        is_value(insn),
    ensures
        final(scope).wf(),
        final(scope).scopes() == old(scope).scopes(),
        value_done(insn, old(scope)@, final(scope)@, old(machine)@, final(machine)@, r),
        machine::costs(*old(scope), *final(scope), r, 1 + breadth(old(scope)@, old(machine)@, insn)),
        keeps_order(old(scope)@, final(scope)@, old(machine)@, final(machine)@, r),
{
    let ghost before = scope@;
    let ghost s = machine@;
    let top: usize = machine.frames.len() - 1;
    proof {
        assert(s.top() == machine.frames@[top as int]@);
        assert(machine::call_ok(before, s.frames[top as int]));
        machine::lemma_held_is_live(before, s.top().env);
        if s.stack.len() > 0 {
            define::lemma_popped(before, s);
        }
    }
    match insn {
        Insn::PushLit(i) => {
            let at: usize = i as usize;
            if at >= machine.frames[top].iseq.literals.len() {
                return Err(Error::malformed("a literal"));
            }
            let made = materialise(scope, &machine.frames[top].iseq.literals[at]);
            let ghost outcome = made;
            proof {
                machine::lemma_grown(before, scope@);
                assert(machine::machine_ok(scope@, s));
                assert(literal_outcome(before, scope@, s.top().iseq.literals@[at as int], outcome));
            }
            match made {
                Ok(v) => {
                    proof {
                        call::lemma_pushed(scope@, s, v);
                    }
                    machine.put(v)
                },
                Err(e) => Err(e),
            }
        },
        Insn::GetLocal(slot, depth) => {
            let env = match make::env_outer(scope, machine.frames[top].env, depth) {
                Some(env) => env,
                None => {
                    return Err(Error::malformed("a scope"));
                },
            };
            match make::env_get(scope, env, slot as usize) {
                Some(v) => {
                    call::push_live(scope, machine, v);
                    Ok(Step::Next)
                },
                None => Err(Error::malformed("a local")),
            }
        },
        Insn::SetLocal(slot, depth) => {
            let v = match machine.take() {
                Some(v) => v,
                None => {
                    return Err(Error::malformed("an operand"));
                },
            };
            proof {
                machine::lemma_held_is_live(before, v);
            }
            let env = match make::env_outer(scope, machine.frames[top].env, depth) {
                Some(env) => env,
                None => {
                    return Err(Error::malformed("a scope"));
                },
            };
            let known = make::env_set(scope, env, slot as usize, v);
            proof {
                machine::lemma_grown(before, scope@);
                assert(machine::machine_ok(before, s.popped()));
            }
            if known {
                Ok(Step::Next)
            } else {
                Err(Error::malformed("a local"))
            }
        },
        Insn::NewArray(n) => {
            let count: usize = n as usize;
            let depth: usize = machine.stack.len();
            if count > depth {
                return Err(Error::malformed("an operand"));
            }
            let from: usize = depth - count;
            let elements = machine.stack.split_off(from);
            let ghost rest = machine@;
            proof {
                assert(rest =~= (MachineModel { stack: s.stack.take(from as int), ..s }));
                assert(elements@ =~= s.stack.skip(from as int));
                assert(machine::all_held(before, elements@)) by {
                    assert forall|i: int| 0 <= i < elements@.len() implies machine::held(
                        before,
                        #[trigger] elements@[i],
                    ) by {
                        assert(elements@[i] == s.stack[from + i]);
                    }
                }
                assert(machine::machine_ok(before, rest)) by {
                    assert forall|i: int| 0 <= i < rest.stack.len() implies machine::held(
                        before,
                        #[trigger] rest.stack[i],
                    ) by {
                        assert(rest.stack[i] == s.stack[i]);
                    }
                    assert forall|i: int| 0 <= i < rest.frames.len() implies machine::call_ok(
                        before,
                        #[trigger] rest.frames[i],
                    ) by {
                        assert(rest.frames[i] == s.frames[i]);
                    }
                }
            }
            let made = make::new_array(scope, elements);
            proof {
                machine::lemma_grown(before, scope@);
                assert(machine::machine_ok(scope@, rest));
            }
            match made {
                Ok(v) => {
                    proof {
                        assert(machine::held(scope@, v));
                        call::lemma_pushed(scope@, rest, v);
                    }
                    machine.put(v)
                },
                Err(e) => Err(e),
            }
        },
        Insn::MakeProc(child, lambda) => {
            let made = call::child_proc(scope, &machine.frames[top], child, lambda);
            proof {
                machine::lemma_grown(before, scope@);
                assert(machine::machine_ok(scope@, s));
            }
            match made {
                Ok(v) => {
                    proof {
                        call::lemma_pushed(scope@, s, v);
                    }
                    machine.put(v)
                },
                Err(e) => Err(e),
            }
        },
        _ => Ok(Step::Next),
    }
}

// ---------------------------------------------------------------------------
// Operators
// ---------------------------------------------------------------------------

/// What a dispatch does to the loop.
pub open spec fn lifted(d: Result<Option<Unwind>, Error>) -> Result<Step, Error> {
    match d {
        Ok(None) => Ok(Step::Next),
        Ok(Some(u)) => Ok(Step::Unwind(u)),
        Err(e) => Err(e),
    }
}

fn lift(d: Result<Option<Unwind>, Error>) -> (r: Result<Step, Error>)
    ensures
        r == lifted(d),
{
    match d {
        Ok(None) => Ok(Step::Next),
        Ok(Some(u)) => Ok(Step::Unwind(u)),
        Err(e) => Err(e),
    }
}

/// The call behind an operator that its own instruction does not cover.
pub open spec fn operator_call(
    m: HeapModel,
    frame: CallModel,
    op: BinOp,
    left: Value,
    right: Value,
) -> PendingModel {
    PendingModel {
        name: SymbolId(m.symbols@.index_of(op.text()) as u32),
        receiver: left,
        args: seq![right],
        keywords: Seq::empty(),
        block: Value::pack(Unpacked::Nil),
        block_is_literal: false,
        cref: frame.cref,
        target: Target::Method,
    }
}

/// Whether an operator's name is in the symbol table.
pub open spec fn operator_named(before: HeapModel, mid: HeapModel, op: BinOp) -> bool {
    &&& mid == (HeapModel { symbols: mid.symbols, ..before })
    &&& mid.symbols@ == symbols::interned(before.symbols@, op.text())
}

/// What an operator's instruction does: the operation, or the call of the
/// method behind it where the operands are not covered.
pub open spec fn operator_done<F: Floats>(
    floats: &F,
    op: BinOp,
    before: HeapModel,
    after: HeapModel,
    s: MachineModel,
    now: MachineModel,
    r: Result<Step, Error>,
) -> bool {
    if s.stack.len() < 2 {
        malformed(before, after, s, now, r)
    } else {
        let left = s.stack[s.stack.len() - 2];
        let right = s.stack.last();
        let rest = s.popped().popped();
        exists|x: Result<Value, Error>|
            {
                &&& #[trigger] equal::binop_outcome(floats, before, op, left, right, x)
                &&& match x {
                    Ok(v) => only_machine(before, after, now, rest.pushing(v), r),
                    Err(e) => if e is NoDispatch {
                        ||| (r matches Err(f) && f is Exhausted) && now == rest
                        ||| exists|mid: HeapModel, d: Result<Option<Unwind>, Error>|
                            {
                                &&& #[trigger] operator_named(before, mid, op)
                                &&& #[trigger] native::dispatched(
                                    floats,
                                    mid,
                                    after,
                                    rest,
                                    now,
                                    operator_call(mid, s.top(), op, left, right),
                                    d,
                                )
                                &&& r == lifted(d)
                            }
                    } else {
                        r == Err::<Step, Error>(e) && now == rest && after == before
                    },
                }
            }
    }
}

/// An operator.
fn step_operator<F: Floats>(
    scope: &mut HandleScope,
    machine: &mut Machine,
    op: BinOp,
    floats: &F,
) -> (r: Result<Step, Error>)
    requires
        old(scope).wf(),
        object::kernel_in(old(scope)@),
        machine::machine_ok(old(scope)@, old(machine)@),
        old(machine)@.frames.len() > 0,
        old(machine)@.ids < MAX_IDS,
    ensures
        final(scope).wf(),
        final(scope).scopes() == old(scope).scopes(),
        operator_done(floats, op, old(scope)@, final(scope)@, old(machine)@, final(machine)@, r),
        machine::spends(
            old(scope)@,
            old(scope).room(),
            final(scope)@,
            final(scope).room(),
            machine::weights(old(scope)@.definitions.all()) + 6,
        ),
        machine::runs_out(r) ==> {
            ||| machine::tight(
                old(scope)@,
                old(scope).room(),
                machine::weights(old(scope)@.definitions.all()) + 6,
            )
            ||| overtaxed(old(scope)@, old(machine)@, Insn::BinOp(op))
        },
        keeps_order(old(scope)@, final(scope)@, old(machine)@, final(machine)@, r),
{
    let ghost before = scope@;
    let ghost s = machine@;
    let top: usize = machine.frames.len() - 1;
    assert(s.top() == machine.frames@[top as int]@);
    if machine.stack.len() < 2 {
        return Err(Error::malformed("an operand"));
    }
    proof {
        define::lemma_popped(before, s);
        define::lemma_popped(before, s.popped());
    }
    let right = match machine.take() {
        Some(v) => v,
        None => Value::nil(),
    };
    let left = match machine.take() {
        Some(v) => v,
        None => Value::nil(),
    };
    let ghost rest = machine@;
    proof {
        assert(left == s.stack[s.stack.len() - 2]);
        machine::lemma_held_is_live(before, left);
        machine::lemma_held_is_live(before, right);
    }
    let outcome = equal::binop(scope, op, left, right, floats);
    let ghost x = outcome;
    assert(equal::binop_outcome(floats, before, op, left, right, x));
    let refused = match &outcome {
        Err(Error::NoDispatch { op: _, operands: _ }) => true,
        _ => false,
    };
    if !refused {
        return match outcome {
            Ok(v) => {
                proof {
                    call::lemma_pushed(before, rest, v);
                }
                machine.put(v)
            },
            Err(e) => {
                assert(!(e is NoDispatch));
                Err(e)
            },
        };
    }
    if !scope.symbols().has_room() {
        return Err(Error::exhausted("another symbol"));
    }
    let name = scope.symbols_mut().intern(op.name());
    let ghost mid = scope@;
    let mut args: Vec<Value> = Vec::new();
    args.push(right);
    let pending = Pending {
        name,
        receiver: left,
        args,
        keywords: Vec::new(),
        block: Value::nil(),
        block_is_literal: false,
        cref: machine.frames[top].cref,
        target: Target::Method,
    };
    proof {
        symbols::law_the_table_only_grows(before.symbols@, op.text());
        assert(operator_named(before, mid, op));
        mid.symbols.law_table();
        let names = mid.symbols@;
        assert(names[names.index_of(op.text())] == op.text());
        assert(pending@ =~= operator_call(mid, s.top(), op, left, right));
        machine::lemma_grown(before, mid);
        assert(machine::held(mid, left) && machine::held(mid, right));
        assert(bind::pending_held(mid, pending@));
        assert(machine::machine_ok(mid, rest));
    }
    let d = native::dispatch(scope, machine, pending, floats);
    let ghost done = d;
    proof {
        call::lemma_grown_trans(before, mid, scope@);
        assert(native::dispatched(
            floats,
            mid,
            scope@,
            rest,
            machine@,
            operator_call(mid, s.top(), op, left, right),
            done,
        ));
    }
    lift(d)
}

/// What negation, `===` and the test of a `rescue` do.
pub open spec fn test_done(
    insn: Insn,
    before: HeapModel,
    after: HeapModel,
    s: MachineModel,
    now: MachineModel,
    r: Result<Step, Error>,
) -> bool {
    let n = s.stack.len();
    match insn {
        Insn::Neg => if n == 0 {
            malformed(before, after, s, now, r)
        } else {
            &&& after == before
            &&& match r {
                Ok(step) => {
                    &&& step is Next
                    &&& now == s.popped().pushing(now.stack.last())
                    &&& number::negated(s.stack.last(), Ok(now.stack.last()))
                },
                Err(e) => number::negated(s.stack.last(), Err(e)) && now == s.popped(),
            }
        },
        Insn::CaseEq => if n < 2 {
            malformed(before, after, s, now, r)
        } else {
            let condition = s.stack.last();
            let subject = s.stack[n - 2];
            let rest = s.popped().popped();
            &&& after == before
            &&& if condition@ is Heap && object::string_in(before, condition) is None
                && object::elements_in(before, condition) is None {
                &&& r matches Err(e) && error::refuses(
                    e,
                    "==="@,
                    "a `when` condition that is not a value"@,
                )
                &&& now == rest
            } else {
                match equal::equality(before, condition, subject, equal::nesting(before)) {
                    equal::Equality::Known(b) => only_machine(
                        before,
                        after,
                        now,
                        rest.pushing(object::truth(b)),
                        r,
                    ),
                    equal::Equality::Refused => (r matches Err(e) && error::refuses(
                        e,
                        "=="@,
                        "an object whose class has no methods yet"@,
                    )) && now == rest,
                    equal::Equality::TooDeep => (r matches Err(e) && e is Exhausted) && now
                        == rest,
                }
            }
        },
        Insn::CheckMatch => if n < 2 {
            malformed(before, after, s, now, r)
        } else {
            let class = s.stack.last();
            let exception = s.stack[n - 2];
            match object::class_id_of_value(before, class) {
                None => {
                    &&& r matches Err(e) && error::raises(
                        e,
                        "TypeError"@,
                        "class or module required for rescue clause"@,
                    )
                    &&& now == s.popped()
                    &&& after == before
                },
                Some(wanted) => only_machine(
                    before,
                    after,
                    now,
                    s.popped().pushing(
                        object::truth(
                            object::class_of_value(before, exception) matches Some(actual)
                                && class::ancestors_of(
                                before.classes.table(),
                                actual.0 as int,
                            ).contains(wanted),
                        ),
                    ),
                    r,
                ),
            }
        },
        _ => true,
    }
}

/// Negation, `===` and the test of a `rescue`.
fn step_test(scope: &HandleScope, machine: &mut Machine, insn: Insn) -> (r: Result<Step, Error>)
    requires
        scope.wf(),
        object::kernel_in(scope@),
        machine::machine_ok(scope@, old(machine)@),
        old(machine)@.frames.len() > 0,
        insn is Neg || insn is CaseEq || insn is CheckMatch,
    ensures
        test_done(insn, scope@, scope@, old(machine)@, final(machine)@, r),
        machine::runs_out(r) ==> overtaxed(scope@, old(machine)@, insn),
        keeps_order(scope@, scope@, old(machine)@, final(machine)@, r),
{
    let ghost m = scope@;
    let ghost s = machine@;
    let depth: usize = machine.stack.len();
    let needed: usize = match insn {
        Insn::Neg => 1,
        _ => 2,
    };
    if depth < needed {
        return Err(Error::malformed("an operand"));
    }
    proof {
        define::lemma_popped(m, s);
    }
    let last = match machine.take() {
        Some(v) => v,
        None => Value::nil(),
    };
    let ghost rest = machine@;
    proof {
        machine::lemma_held_is_live(m, last);
        if needed == 2 {
            define::lemma_popped(m, rest);
            machine::lemma_held_is_live(m, rest.stack.last());
            assert(rest.stack.last() == s.stack[s.stack.len() - 2]);
        }
        assert forall|v: Value| !(#[trigger] v@ is Heap) implies machine::machine_ok(
            m,
            rest.pushing(v),
        ) by {
            call::lemma_pushed(m, rest, v);
        }
        assert forall|v: Value| needed == 2 && !(#[trigger] v@ is Heap) implies machine::machine_ok(
            m,
            rest.popped().pushing(v),
        ) by {
            call::lemma_pushed(m, rest.popped(), v);
        }
    }
    match insn {
        Insn::Neg => match number::negate(last) {
            Ok(v) => {
                assert(!(v@ is Heap));
                machine.put(v)
            },
            Err(e) => Err(e),
        },
        Insn::CaseEq => {
            let subject = match machine.take() {
                Some(v) => v,
                None => Value::nil(),
            };
            match equal::case_eq(scope, last, subject) {
                Ok(b) => {
                    let v = bool_value(b);
                    assert(!(v@ is Heap));
                    machine.put(v)
                },
                Err(e) => Err(e),
            }
        },
        _ => {
            let exception = match machine.peek() {
                Some(v) => v,
                None => Value::nil(),
            };
            match object::exception_matches(scope, exception, last) {
                Ok(b) => {
                    let v = bool_value(b);
                    assert(!(v@ is Heap));
                    machine.put(v)
                },
                Err(e) => Err(e),
            }
        },
    }
}

// ---------------------------------------------------------------------------
// Calls
// ---------------------------------------------------------------------------

/// The call as it is made: a `yield` is aimed at the frame's block.
pub open spec fn aimed(pending: PendingModel, sends: bool, block: Value) -> PendingModel {
    if sends {
        pending
    } else {
        PendingModel { receiver: block, target: Target::Block(block), ..pending }
    }
}

/// What a call instruction does: its operands are taken, and the call is
/// dispatched. A `yield` calls the frame's block.
pub open spec fn call_done<F: Floats>(
    floats: &F,
    index: u32,
    sends: bool,
    before: HeapModel,
    after: HeapModel,
    s: MachineModel,
    now: MachineModel,
    r: Result<Step, Error>,
) -> bool {
    let top = s.top();
    let nil = Value::pack(Unpacked::Nil);
    if index >= top.iseq.call_sites@.len() {
        malformed(before, after, s, now, r)
    } else {
        let site = top.iseq.call_sites@[index as int];
        exists|mid: HeapModel, left: MachineModel, taken: Result<Pending, Error>|
            {
                &&& #[trigger] call::call_taken(before, mid, s, left, site, sends, taken)
                &&& match taken {
                    Err(e) => r == Err::<Step, Error>(e) && now == left && after == mid,
                    Ok(pending) => if !sends && top.block == nil {
                        &&& r matches Err(e) && error::raises(
                            e,
                            "LocalJumpError"@,
                            "no block given (yield)"@,
                        )
                        &&& now == left
                        &&& after == mid
                    } else {
                        exists|d: Result<Option<Unwind>, Error>|
                            {
                                &&& #[trigger] native::dispatched(
                                    floats,
                                    mid,
                                    after,
                                    left,
                                    now,
                                    aimed(pending@, sends, top.block),
                                    d,
                                )
                                &&& r == lifted(d)
                            }
                    },
                }
            }
    }
}

/// A call.
fn step_call<F: Floats>(
    scope: &mut HandleScope,
    machine: &mut Machine,
    index: u32,
    sends: bool,
    floats: &F,
) -> (r: Result<Step, Error>)
    requires
        old(scope).wf(),
        object::kernel_in(old(scope)@),
        machine::machine_ok(old(scope)@, old(machine)@),
        old(machine)@.frames.len() > 0,
        old(machine)@.ids < MAX_IDS,
    ensures
        final(scope).wf(),
        final(scope).scopes() == old(scope).scopes(),
        call_done(floats, index, sends, old(scope)@, final(scope)@, old(machine)@, final(machine)@, r),
        machine::spends(
            old(scope)@,
            old(scope).room(),
            final(scope)@,
            final(scope).room(),
            machine::weights(old(scope)@.definitions.all()) + machine::nested(
                old(machine)@.top().iseq.children@,
            ) + call_breadth(old(scope)@, old(machine)@, index, sends) + 5,
        ),
        machine::runs_out(r) ==> {
            ||| machine::tight(
                old(scope)@,
                old(scope).room(),
                machine::weights(old(scope)@.definitions.all()) + machine::nested(
                    old(machine)@.top().iseq.children@,
                ) + call_breadth(old(scope)@, old(machine)@, index, sends) + 5,
            )
            ||| sends && overtaxed(old(scope)@, old(machine)@, Insn::Send(index))
        },
        keeps_order(old(scope)@, final(scope)@, old(machine)@, final(machine)@, r),
{
    let ghost before = scope@;
    let ghost s = machine@;
    let top: usize = machine.frames.len() - 1;
    proof {
        assert(s.top() == machine.frames@[top as int]@);
        assert(machine::call_ok(before, s.frames[top as int]));
    }
    let at: usize = index as usize;
    if at >= machine.frames[top].iseq.call_sites.len() {
        return Err(Error::malformed("a call"));
    }
    let block = machine.frames[top].block;
    let iseq = bytecode::share(&machine.frames[top].iseq);
    let taken = call::pop_call(scope, machine, &iseq.call_sites[at], sends);
    let ghost mid = scope@;
    let ghost left = machine@;
    let ghost outcome = taken;
    proof {
        assert(call::call_taken(
            before,
            mid,
            s,
            left,
            s.top().iseq.call_sites@[at as int],
            sends,
            outcome,
        ));
        machine::lemma_grown(before, mid);
        if outcome is Ok {
            call::lemma_taken_weights(
                before,
                mid,
                s,
                left,
                s.top().iseq.call_sites@[at as int],
                sends,
                outcome,
            );
        }
    }
    let mut pending = match taken {
        Ok(pending) => pending,
        Err(e) => {
            return Err(e);
        },
    };
    let ghost model = pending@;
    if !sends {
        if block == Value::nil() {
            return Err(Error::raise("LocalJumpError", "no block given (yield)"));
        }
        pending.receiver = block;
        pending.target = Target::Block(block);
        proof {
            assert(machine::held(before, block));
            assert(machine::held(mid, block));
            assert(pending@ =~= (PendingModel {
                receiver: block,
                target: Target::Block(block),
                ..model
            }));
        }
    }
    let d = native::dispatch(scope, machine, pending, floats);
    let ghost done = d;
    proof {
        call::lemma_grown_trans(before, mid, scope@);
        assert(native::dispatched(
            floats,
            mid,
            scope@,
            left,
            machine@,
            aimed(model, sends, block),
            done,
        ));
    }
    lift(d)
}

// ---------------------------------------------------------------------------
// Leaving
// ---------------------------------------------------------------------------

/// Whether an instruction is one of those by which control leaves.
pub open spec fn is_exit(insn: Insn) -> bool {
    insn is Leave || insn is LeaveThroughEnsure || insn is Return || insn is Break || insn is Goto || insn is GotoValue
        || insn is Raise || insn is EnterEnsure || insn is LeaveEnsure
}

/// The value an exit carries: the last operand, or `nil`.
pub open spec fn carried(s: MachineModel) -> Value {
    if s.stack.len() == 0 {
        Value::pack(Unpacked::Nil)
    } else {
        s.stack.last()
    }
}

/// The machine without it.
pub open spec fn lightened(s: MachineModel) -> MachineModel {
    if s.stack.len() == 0 {
        s
    } else {
        s.popped()
    }
}

/// The machine without its last frame and the operands of that frame.
pub open spec fn frame_left(s: MachineModel) -> MachineModel {
    MachineModel {
        stack: machine::cut(s.stack, s.top().base as int),
        frames: s.frames.drop_last(),
        ..s
    }
}

/// Whether a frame is still running.
pub open spec fn running(s: MachineModel, id: u64) -> bool {
    exists|i: int| 0 <= i < s.frames.len() && (#[trigger] s.frames[i]).id == id
}

/// What an exit that unwinds does.
pub open spec fn unwinds(
    before: HeapModel,
    after: HeapModel,
    now: MachineModel,
    left: MachineModel,
    u: Unwind,
    r: Result<Step, Error>,
) -> bool {
    r == Ok::<Step, Error>(Step::Unwind(u)) && now == left && after == before
}

/// What an exit to a frame that is gone does.
pub open spec fn strands(
    before: HeapModel,
    after: HeapModel,
    now: MachineModel,
    left: MachineModel,
    message: Seq<char>,
    r: Result<Step, Error>,
) -> bool {
    &&& r matches Err(e) && error::raises(e, "LocalJumpError"@, message)
    &&& now == left
    &&& after == before
}

/// What an instruction by which control leaves does.
pub open spec fn exit_done(
    insn: Insn,
    before: HeapModel,
    after: HeapModel,
    s: MachineModel,
    now: MachineModel,
    r: Result<Step, Error>,
) -> bool {
    let top = s.top();
    let value = carried(s);
    let left = lightened(s);
    match insn {
        Insn::Leave => {
            let out = frame_left(left);
            if out.frames.len() == 0 {
                r == Ok::<Step, Error>(Step::Done(value)) && now == out && after == before
            } else if top.keeps_receiver {
                only_machine(before, after, now, out, r)
            } else {
                only_machine(before, after, now, out.pushing(value), r)
            }
        },
        Insn::LeaveThroughEnsure => unwinds(
            before,
            after,
            now,
            left,
            Unwind::Return { frame: top.id, value },
            r,
        ),
        Insn::Return => if running(s, top.home) {
            unwinds(before, after, now, left, Unwind::Return { frame: top.home, value }, r)
        } else {
            strands(before, after, now, left, "unexpected return"@, r)
        },
        Insn::Break => if top.breaks != 0 && running(s, top.breaks) {
            unwinds(before, after, now, left, Unwind::Break { frame: top.breaks, value }, r)
        } else {
            strands(before, after, now, left, "break from proc-closure"@, r)
        },
        Insn::Goto(d, depth) => match machine::jump_target(top.pc, d) {
            Some(target) => unwinds(
                before,
                after,
                now,
                s,
                Unwind::Goto { frame: top.id, target, depth: depth as usize, value: None },
                r,
            ),
            None => malformed(before, after, s, now, r),
        },
        Insn::GotoValue(d, depth) => match machine::jump_target(top.pc, d) {
            Some(target) => unwinds(
                before,
                after,
                now,
                left,
                Unwind::Goto { frame: top.id, target, depth: depth as usize, value: Some(value) },
                r,
            ),
            None => malformed(before, after, s, now, r),
        },
        Insn::Raise => if s.stack.len() == 0 {
            malformed(before, after, s, now, r)
        } else {
            unwinds(before, after, now, left, Unwind::Exception(value), r)
        },
        Insn::EnterEnsure => only_machine(
            before,
            after,
            now,
            left.with_top(CallModel { parked: top.parked.push(Parked::Value(value)), ..top }),
            r,
        ),
        Insn::LeaveEnsure => if top.parked.len() == 0 {
            malformed(before, after, s, now, r)
        } else {
            let out = s.with_top(CallModel { parked: top.parked.drop_last(), ..top });
            match top.parked.last() {
                Parked::Value(v) => only_machine(before, after, now, out.pushing(v), r),
                Parked::Unwind(u) => unwinds(before, after, now, out, u, r),
            }
        },
        _ => true,
    }
}

impl Machine {
    /// Whether a frame is still running.
    fn runs(&self, id: u64) -> (r: bool)
        ensures
            r == running(self@, id),
    {
        let mut i: usize = 0;
        while i < self.frames.len()
            invariant
                i <= self.frames.len(),
                forall|k: int| 0 <= k < i ==> (#[trigger] self@.frames[k]).id != id,
            decreases self.frames.len() - i,
        {
            if self.frames[i].id == id {
                assert(self@.frames[i as int].id == id);
                return true;
            }
            assert(self@.frames[i as int].id != id);
            i += 1;
        }
        false
    }

    /// Drop the last frame and its operands.
    fn leave_frame(&mut self) -> (r: bool)
        requires
            old(self)@.frames.len() > 0,
        ensures
            r == old(self)@.top().keeps_receiver,
            final(self)@ == frame_left(old(self)@),
    {
        let ghost s = self@;
        let top: usize = self.frames.len() - 1;
        let base: usize = self.frames[top].base;
        let keeps = self.frames[top].keeps_receiver;
        assert(s.top() == self.frames@[top as int]@);
        self.frames.pop();
        if base < self.stack.len() {
            self.stack.truncate(base);
        }
        assert(self@ =~= frame_left(s));
        keeps
    }
}

/// A machine in order stays so without its last frame.
proof fn lemma_frame_left(m: HeapModel, s: MachineModel)
    requires
        machine::machine_ok(m, s),
        s.frames.len() > 0,
    ensures
        machine::machine_ok(m, frame_left(s)),
{
    let now = frame_left(s);
    assert forall|i: int| 0 <= i < now.stack.len() implies machine::held(m, #[trigger] now.stack[i]) by {
        assert(now.stack[i] == s.stack[i]);
    }
    assert forall|i: int| 0 <= i < now.frames.len() implies machine::call_ok(
        m,
        #[trigger] now.frames[i],
    ) by {
        assert(machine::call_ok(m, s.frames[i]));
    }
}

/// A machine in order stays so with another order of `ensure` bodies, where
/// what they keep is rooted.
proof fn lemma_parked(m: HeapModel, s: MachineModel, parked: Seq<Parked>)
    requires
        machine::machine_ok(m, s),
        s.frames.len() > 0,
        forall|i: int| 0 <= i < parked.len() ==> machine::parked_held(m, #[trigger] parked[i]),
    ensures
        machine::machine_ok(m, s.with_top(CallModel { parked, ..s.top() })),
{
    let now = s.with_top(CallModel { parked, ..s.top() });
    assert forall|i: int| 0 <= i < now.frames.len() implies machine::call_ok(
        m,
        #[trigger] now.frames[i],
    ) by {
        assert(machine::call_ok(m, s.frames[i]));
    }
}

/// An instruction by which control leaves.
fn step_exit(scope: &HandleScope, machine: &mut Machine, insn: Insn) -> (r: Result<Step, Error>)
    requires
        machine::machine_ok(scope@, old(machine)@),
        old(machine)@.frames.len() > 0,
        is_exit(insn),
    ensures
        exit_done(insn, scope@, scope@, old(machine)@, final(machine)@, r),
        !machine::runs_out(r),
        keeps_order(scope@, scope@, old(machine)@, final(machine)@, r),
{
    let ghost m = scope@;
    let ghost s = machine@;
    let top: usize = machine.frames.len() - 1;
    proof {
        assert(s.top() == machine.frames@[top as int]@);
        assert(machine::call_ok(m, s.frames[top as int]));
        if s.stack.len() > 0 {
            define::lemma_popped(m, s);
        }
    }
    match insn {
        Insn::Goto(d, depth) => {
            return match machine::jump(machine.frames[top].pc, d) {
                Some(target) => Ok(
                    Step::Unwind(
                        Unwind::Goto {
                            frame: machine.frames[top].id,
                            target,
                            depth: depth as usize,
                            value: None,
                        },
                    ),
                ),
                None => Err(Error::malformed("a jump out of the code")),
            };
        },
        Insn::Raise => {
            if machine.stack.len() == 0 {
                return Err(Error::malformed("an exception"));
            }
        },
        Insn::GotoValue(d, _) => {
            if machine::jump(machine.frames[top].pc, d).is_none() {
                return Err(Error::malformed("a jump out of the code"));
            }
        },
        Insn::LeaveEnsure => {
            return match machine.frames[top].parked.pop() {
                Some(parked) => {
                    let ghost out = machine@;
                    proof {
                        assert(out =~= s.with_top(
                            CallModel { parked: s.top().parked.drop_last(), ..s.top() },
                        ));
                        assert(machine::parked_held(m, s.top().parked.last()));
                        lemma_parked(m, s, s.top().parked.drop_last());
                    }
                    match parked {
                        Parked::Value(v) => {
                            proof {
                                call::lemma_pushed(m, out, v);
                            }
                            machine.put(v)
                        },
                        Parked::Unwind(u) => Ok(Step::Unwind(u)),
                    }
                },
                None => {
                    assert(machine@ =~= s);
                    Err(Error::malformed("an `ensure` to leave"))
                },
            };
        },
        _ => {},
    }
    let value = match machine.take() {
        Some(v) => v,
        None => Value::nil(),
    };
    let ghost left = machine@;
    assert(left == lightened(s) && value == carried(s));
    match insn {
        Insn::Leave => {
            proof {
                lemma_frame_left(m, left);
            }
            let keeps = machine.leave_frame();
            if machine.frames.len() == 0 {
                Ok(Step::Done(value))
            } else if keeps {
                Ok(Step::Next)
            } else {
                proof {
                    call::lemma_pushed(m, machine@, value);
                }
                machine.put(value)
            }
        },
        Insn::LeaveThroughEnsure => {
            let frame: u64 = machine.frames[top].id;
            Ok(Step::Unwind(Unwind::Return { frame, value }))
        },
        Insn::Return => {
            let frame: u64 = machine.frames[top].home;
            if machine.runs(frame) {
                Ok(Step::Unwind(Unwind::Return { frame, value }))
            } else {
                Err(Error::raise("LocalJumpError", "unexpected return"))
            }
        },
        Insn::Break => {
            let frame: u64 = machine.frames[top].breaks;
            if frame != 0 && machine.runs(frame) {
                Ok(Step::Unwind(Unwind::Break { frame, value }))
            } else {
                Err(Error::raise("LocalJumpError", "break from proc-closure"))
            }
        },
        Insn::GotoValue(d, depth) => match machine::jump(machine.frames[top].pc, d) {
            Some(target) => Ok(
                Step::Unwind(
                    Unwind::Goto {
                        frame: machine.frames[top].id,
                        target,
                        depth: depth as usize,
                        value: Some(value),
                    },
                ),
            ),
            None => Err(Error::malformed("a jump out of the code")),
        },
        Insn::Raise => Ok(Step::Unwind(Unwind::Exception(value))),
        _ => {
            machine.frames[top].parked.push(Parked::Value(value));
            proof {
                let parked = s.top().parked.push(Parked::Value(value));
                assert(machine@ =~= left.with_top(CallModel { parked, ..s.top() }));
                lemma_parked(m, left, parked);
            }
            Ok(Step::Next)
        },
    }
}

// ---------------------------------------------------------------------------
// Definitions and constants
// ---------------------------------------------------------------------------

/// The method whose definition asks for a hook.
pub open spec fn hooks_definition(m: HeapModel, owner: ClassId) -> bool {
    bind::method_named(m, owner, "singleton_method_added"@) is Some
}

/// What the definition of a method on a class does: the method, and its name
/// as the value.
pub open spec fn method_added(
    before: HeapModel,
    after: HeapModel,
    frame: CallModel,
    owner: ClassId,
    name: SymbolId,
    child: u32,
    left: MachineModel,
    now: MachineModel,
    r: Result<Step, Error>,
) -> bool {
    match r {
        Ok(step) => {
            &&& step is Next
            &&& define::method_defined(before, after, frame, owner, name, child, frame.cref)
            &&& now == left.pushing(Value::pack(Unpacked::Symbol(name)))
        },
        Err(e) => {
            &&& e is Exhausted || e is Malformed && child >= frame.iseq.children@.len()
            &&& now == left
            &&& after == before
        },
    }
}

/// What the definition of a method does.
pub open spec fn definition_done(
    index: u32,
    singleton: bool,
    before: HeapModel,
    after: HeapModel,
    s: MachineModel,
    now: MachineModel,
    r: Result<Step, Error>,
) -> bool {
    let top = s.top();
    if index >= top.iseq.definitions@.len() || top.iseq.definitions@[index as int].0
        >= top.symbols.len() || singleton && s.stack.len() == 0 {
        malformed(before, after, s, now, r)
    } else {
        let name = top.symbols[top.iseq.definitions@[index as int].0 as int];
        let child = top.iseq.definitions@[index as int].1;
        if !singleton {
            let owner = before.classes.scopes()[top.cref.0 as int].class;
            method_added(before, after, top, owner, name, child, s, now, r)
        } else {
            let left = s.popped();
            exists|mid: HeapModel, found: Result<ClassId, Error>|
                {
                    &&& #[trigger] define::singleton_outcome(before, mid, s.stack.last(), found)
                    &&& match found {
                        Err(e) => r == Err::<Step, Error>(e) && now == left && after == mid,
                        Ok(owner) => if hooks_definition(mid, owner) {
                            &&& r matches Err(e) && error::leaves_open(
                                e,
                                "`singleton_method_added`, which this definition would fire"@,
                                "the definition hooks (#28)"@,
                            )
                            &&& now == left
                            &&& after == mid
                        } else {
                            method_added(mid, after, top, owner, name, child, left, now, r)
                        },
                    }
                }
        }
    }
}

/// Define a method on a class, and push its name.
fn add_method(
    scope: &mut HandleScope,
    machine: &mut Machine,
    owner: ClassId,
    name: SymbolId,
    child: u32,
) -> (r: Result<Step, Error>)
    requires
        old(scope).wf(),
        machine::machine_ok(old(scope)@, old(machine)@),
        old(machine)@.frames.len() > 0,
        old(scope)@.classes.has(owner),
    ensures
        final(scope).wf(),
        final(scope).scopes() == old(scope).scopes(),
        method_added(
            old(scope)@,
            final(scope)@,
            old(machine)@.top(),
            owner,
            name,
            child,
            old(machine)@,
            final(machine)@,
            r,
        ),
        machine::costs(*old(scope), *final(scope), r, 1),
        keeps_order(old(scope)@, final(scope)@, old(machine)@, final(machine)@, r),
{
    let ghost before = scope@;
    let ghost s = machine@;
    let top: usize = machine.frames.len() - 1;
    proof {
        assert(s.top() == machine.frames@[top as int]@);
        assert(machine::call_ok(before, s.frames[top as int]));
    }
    let cref = machine.frames[top].cref;
    match define::define_method_on(scope, &machine.frames[top], owner, name, child, cref) {
        Ok(_) => {
            let v = Value::symbol(name);
            proof {
                machine::lemma_grown(before, scope@);
                call::lemma_pushed(scope@, s, v);
            }
            machine.put(v)
        },
        Err(e) => Err(e),
    }
}

/// A method definition.
fn step_definition(
    scope: &mut HandleScope,
    machine: &mut Machine,
    index: u32,
    singleton: bool,
) -> (r: Result<Step, Error>)
    requires
        old(scope).wf(),
        object::kernel_in(old(scope)@),
        machine::machine_ok(old(scope)@, old(machine)@),
        old(machine)@.frames.len() > 0,
    ensures
        final(scope).wf(),
        final(scope).scopes() == old(scope).scopes(),
        definition_done(
            index,
            singleton,
            old(scope)@,
            final(scope)@,
            old(machine)@,
            final(machine)@,
            r,
        ),
        machine::costs(*old(scope), *final(scope), r, old(scope)@.classes.table().len() + 2),
        keeps_order(old(scope)@, final(scope)@, old(machine)@, final(machine)@, r),
{
    let ghost before = scope@;
    let ghost s = machine@;
    let top: usize = machine.frames.len() - 1;
    proof {
        assert(s.top() == machine.frames@[top as int]@);
        assert(machine::call_ok(before, s.frames[top as int]));
    }
    let at: usize = index as usize;
    if at >= machine.frames[top].iseq.definitions.len() {
        return Err(Error::malformed("a definition"));
    }
    let (named, child): (u32, u32) = machine.frames[top].iseq.definitions[at];
    let named_at: usize = named as usize;
    if named_at >= machine.frames[top].symbols.len() {
        return Err(Error::malformed("a symbol"));
    }
    let name = machine.frames[top].symbols[named_at];
    if !singleton {
        let owner = scope.classes().cref_class(machine.frames[top].cref);
        return add_method(scope, machine, owner, name, child);
    }
    if machine.stack.len() == 0 {
        return Err(Error::malformed("a receiver"));
    }
    proof {
        define::lemma_popped(before, s);
        machine::lemma_held_is_live(before, s.stack.last());
    }
    let receiver = match machine.take() {
        Some(v) => v,
        None => Value::nil(),
    };
    let ghost left = machine@;
    let found = define::singleton_of(scope, receiver);
    let ghost mid = scope@;
    let ghost outcome = found;
    proof {
        machine::lemma_grown(before, mid);
        assert(define::singleton_outcome(before, mid, s.stack.last(), outcome));
    }
    let owner = match found {
        Ok(owner) => owner,
        Err(e) => {
            return Err(e);
        },
    };
    if bind::find_method(scope, owner, "singleton_method_added").is_some() {
        return Err(
            Error::open_question(
                "`singleton_method_added`, which this definition would fire",
                "the definition hooks (#28)",
            ),
        );
    }
    let r = add_method(scope, machine, owner, name, child);
    proof {
        call::lemma_grown_trans(before, mid, scope@);
    }
    r
}

/// What the read of a constant, or the question whether it is there, does.
pub open spec fn constant_read<F: Floats>(
    floats: &F,
    index: u32,
    how: ConstScope,
    asks: bool,
    before: HeapModel,
    after: HeapModel,
    s: MachineModel,
    now: MachineModel,
    r: Result<Step, Error>,
) -> bool {
    let top = s.top();
    if index >= top.symbols.len() {
        malformed(before, after, s, now, r)
    } else {
        let name = top.symbols[index as int];
        exists|left: MachineModel, base: Result<ClassId, Error>|
            {
                &&& #[trigger] define::base_outcome(floats, before, s, left, top.cref, how, base)
                &&& match base {
                    Err(e) => r == Err::<Step, Error>(e) && now == left && after == before,
                    Ok(from) => {
                        let found = define::constant_found(before, top.cref, from, name, how);
                        if asks {
                            answered(
                                before,
                                after,
                                left,
                                now,
                                if found is Some {
                                    Some("constant"@)
                                } else {
                                    None
                                },
                                r,
                            )
                        } else {
                            match found {
                                Some(v) => {
                                    &&& r == Ok::<Step, Error>(Step::Next)
                                    &&& now == left.pushing(v)
                                    &&& call::rooted_more(before, after)
                                },
                                None => {
                                    &&& r matches Err(e) && error::raises(
                                        e,
                                        "NameError"@,
                                        define::uninitialized_text(before, from, name, how),
                                    )
                                    &&& now == left
                                    &&& after == before
                                },
                            }
                        }
                    },
                }
            }
    }
}

/// What an answer to `defined?` leaves.
pub open spec fn answered(
    before: HeapModel,
    after: HeapModel,
    left: MachineModel,
    now: MachineModel,
    answer: Option<Seq<char>>,
    r: Result<Step, Error>,
) -> bool {
    match r {
        Ok(step) => {
            &&& step is Next
            &&& now == left.pushing(now.stack.last())
            &&& define::answer_outcome(before, after, answer, Ok(now.stack.last()))
        },
        Err(e) => now == left && define::answer_outcome(before, after, answer, Err(e)),
    }
}

/// Answer `defined?`.
fn answer(scope: &mut HandleScope, machine: &mut Machine, word: Option<&'static str>) -> (r: Result<
    Step,
    Error,
>)
    requires
        old(scope).wf(),
        object::kernel_in(old(scope)@),
        machine::machine_ok(old(scope)@, old(machine)@),
        old(machine)@.frames.len() > 0,
    ensures
        final(scope).wf(),
        final(scope).scopes() == old(scope).scopes(),
        answered(
            old(scope)@,
            final(scope)@,
            old(machine)@,
            final(machine)@,
            match word {
                Some(text) => Some(text@),
                None => None,
            },
            r,
        ),
        machine::costs(*old(scope), *final(scope), r, 1),
        keeps_order(old(scope)@, final(scope)@, old(machine)@, final(machine)@, r),
{
    let ghost before = scope@;
    let ghost s = machine@;
    let outcome = define::defined_answer(scope, word);
    proof {
        machine::lemma_grown(before, scope@);
    }
    match outcome {
        Ok(v) => {
            proof {
                call::lemma_pushed(scope@, s, v);
                assert(s.pushing(v).stack.last() == v);
            }
            machine.put(v)
        },
        Err(e) => Err(e),
    }
}

/// The read of a constant, or the question whether it is there.
fn step_constant<F: Floats>(
    scope: &mut HandleScope,
    machine: &mut Machine,
    index: u32,
    how: ConstScope,
    asks: bool,
    floats: &F,
) -> (r: Result<Step, Error>)
    requires
        old(scope).wf(),
        object::kernel_in(old(scope)@),
        machine::machine_ok(old(scope)@, old(machine)@),
        old(machine)@.frames.len() > 0,
    ensures
        final(scope).wf(),
        final(scope).scopes() == old(scope).scopes(),
        constant_read(
            floats,
            index,
            how,
            asks,
            old(scope)@,
            final(scope)@,
            old(machine)@,
            final(machine)@,
            r,
        ),
        machine::costs(*old(scope), *final(scope), r, 1),
        keeps_order(old(scope)@, final(scope)@, old(machine)@, final(machine)@, r),
{
    let ghost before = scope@;
    let ghost s = machine@;
    let top: usize = machine.frames.len() - 1;
    proof {
        assert(s.top() == machine.frames@[top as int]@);
        assert(machine::call_ok(before, s.frames[top as int]));
    }
    let at: usize = index as usize;
    if at >= machine.frames[top].symbols.len() {
        return Err(Error::malformed("a symbol"));
    }
    let name = machine.frames[top].symbols[at];
    let cref = machine.frames[top].cref;
    let base = define::const_base(scope, machine, cref, how, floats);
    let ghost left = machine@;
    let ghost outcome = base;
    assert(define::base_outcome(floats, before, s, left, s.top().cref, how, outcome));
    let from = match base {
        Ok(from) => from,
        Err(e) => {
            return Err(e);
        },
    };
    let found = define::find_constant(scope, cref, from, name, how);
    if asks {
        let word: Option<&'static str> = match found {
            Some(_) => Some("constant"),
            None => None,
        };
        return answer(scope, machine, word);
    }
    match found {
        Some(v) => {
            call::push_live(scope, machine, v);
            Ok(Step::Next)
        },
        None => Err(define::uninitialized(scope, from, name, how)),
    }
}

/// What the assignment of a constant does.
pub open spec fn constant_set<F: Floats>(
    floats: &F,
    index: u32,
    how: ConstScope,
    before: HeapModel,
    after: HeapModel,
    s: MachineModel,
    now: MachineModel,
    r: Result<Step, Error>,
) -> bool {
    let top = s.top();
    if index >= top.symbols.len() || s.stack.len() == 0 {
        malformed(before, after, s, now, r)
    } else {
        let name = top.symbols[index as int];
        let value = s.stack.last();
        exists|left: MachineModel, base: Result<ClassId, Error>|
            {
                &&& #[trigger] define::base_outcome(
                    floats,
                    before,
                    s.popped(),
                    left,
                    top.cref,
                    how,
                    base,
                )
                &&& match base {
                    Err(e) => r == Err::<Step, Error>(e) && now == left && after == before,
                    Ok(owner) => {
                        &&& r == Ok::<Step, Error>(Step::Next)
                        &&& now == left.pushing(value)
                        &&& define::constant_bound(before, after, owner, name, value)
                    },
                }
            }
    }
}

/// The assignment of a constant.
fn step_set_constant<F: Floats>(
    scope: &mut HandleScope,
    machine: &mut Machine,
    index: u32,
    how: ConstScope,
    floats: &F,
) -> (r: Result<Step, Error>)
    requires
        old(scope).wf(),
        object::kernel_in(old(scope)@),
        machine::machine_ok(old(scope)@, old(machine)@),
        old(machine)@.frames.len() > 0,
    ensures
        final(scope).wf(),
        final(scope).scopes() == old(scope).scopes(),
        constant_set(
            floats,
            index,
            how,
            old(scope)@,
            final(scope)@,
            old(machine)@,
            final(machine)@,
            r,
        ),
        machine::costs(*old(scope), *final(scope), r, 0),
        keeps_order(old(scope)@, final(scope)@, old(machine)@, final(machine)@, r),
{
    let ghost before = scope@;
    let ghost s = machine@;
    let top: usize = machine.frames.len() - 1;
    proof {
        assert(s.top() == machine.frames@[top as int]@);
        assert(machine::call_ok(before, s.frames[top as int]));
    }
    let at: usize = index as usize;
    if at >= machine.frames[top].symbols.len() || machine.stack.len() == 0 {
        return Err(Error::malformed("a value for a constant"));
    }
    let name = machine.frames[top].symbols[at];
    let cref = machine.frames[top].cref;
    proof {
        define::lemma_popped(before, s);
        machine::lemma_held_is_live(before, s.stack.last());
    }
    let value = match machine.take() {
        Some(v) => v,
        None => Value::nil(),
    };
    let base = define::const_base(scope, machine, cref, how, floats);
    let ghost left = machine@;
    let ghost outcome = base;
    assert(define::base_outcome(floats, before, s.popped(), left, s.top().cref, how, outcome));
    let owner = match base {
        Ok(owner) => owner,
        Err(e) => {
            return Err(e);
        },
    };
    define::bind_constant(scope, owner, name, value);
    proof {
        machine::lemma_grown(before, scope@);
        call::lemma_pushed(scope@, left, value);
    }
    machine.put(value)
}

/// What a question about a method does.
pub open spec fn method_asked(
    index: u32,
    own: bool,
    before: HeapModel,
    after: HeapModel,
    s: MachineModel,
    now: MachineModel,
    r: Result<Step, Error>,
) -> bool {
    let top = s.top();
    if index >= top.symbols.len() || !own && s.stack.len() == 0 {
        malformed(before, after, s, now, r)
    } else {
        let receiver = if own {
            top.receiver
        } else {
            s.stack.last()
        };
        let left = if own {
            s
        } else {
            s.popped()
        };
        match object::class_of_value(before, receiver) {
            None => {
                &&& r matches Err(e) && error::refuses(
                    e,
                    "a method call"@,
                    object::classless(receiver),
                )
                &&& now == left
                &&& after == before
            },
            Some(id) => answered(
                before,
                after,
                left,
                now,
                if class::lookup_of(
                    before.classes.table(),
                    id.0 as int,
                    top.symbols[index as int],
                ) is Some {
                    Some("method"@)
                } else {
                    None
                },
                r,
            ),
        }
    }
}

/// A question about a method, of the frame's `self` or of an operand.
fn step_method_asked(scope: &mut HandleScope, machine: &mut Machine, index: u32, own: bool) -> (r:
    Result<Step, Error>)
    requires
        old(scope).wf(),
        object::kernel_in(old(scope)@),
        machine::machine_ok(old(scope)@, old(machine)@),
        old(machine)@.frames.len() > 0,
    ensures
        final(scope).wf(),
        final(scope).scopes() == old(scope).scopes(),
        method_asked(index, own, old(scope)@, final(scope)@, old(machine)@, final(machine)@, r),
        machine::costs(*old(scope), *final(scope), r, 1),
        keeps_order(old(scope)@, final(scope)@, old(machine)@, final(machine)@, r),
{
    let ghost before = scope@;
    let ghost s = machine@;
    let top: usize = machine.frames.len() - 1;
    proof {
        assert(s.top() == machine.frames@[top as int]@);
        assert(machine::call_ok(before, s.frames[top as int]));
        machine::lemma_held_is_live(before, s.top().receiver);
        if s.stack.len() > 0 {
            define::lemma_popped(before, s);
            machine::lemma_held_is_live(before, s.stack.last());
        }
    }
    let at: usize = index as usize;
    if at >= machine.frames[top].symbols.len() || !own && machine.stack.len() == 0 {
        return Err(Error::malformed("a method to ask about"));
    }
    let name = machine.frames[top].symbols[at];
    let receiver = if own {
        machine.frames[top].receiver
    } else {
        match machine.take() {
            Some(v) => v,
            None => Value::nil(),
        }
    };
    match object::class_of(scope, receiver) {
        None => Err(object::no_class(receiver)),
        Some(id) => {
            let word: Option<&'static str> = match scope.classes().lookup_uncached(id, name) {
                Some(_) => Some("method"),
                None => None,
            };
            answer(scope, machine, word)
        },
    }
}

/// What a question about the frame's block does.
pub open spec fn block_asked(
    before: HeapModel,
    after: HeapModel,
    s: MachineModel,
    now: MachineModel,
    r: Result<Step, Error>,
) -> bool {
    let word = if s.top().block != Value::pack(Unpacked::Nil) {
        Some("yield"@)
    } else {
        None
    };
    match r {
        Ok(step) => {
            &&& step is Next
            &&& now == s.pushing(now.stack.last())
            &&& define::word_outcome(before, after, word, Ok(now.stack.last()))
        },
        Err(e) => now == s && define::word_outcome(before, after, word, Err(e)),
    }
}

/// A question about the frame's block.
fn step_block_asked(scope: &mut HandleScope, machine: &mut Machine) -> (r: Result<Step, Error>)
    requires
        old(scope).wf(),
        object::kernel_in(old(scope)@),
        machine::machine_ok(old(scope)@, old(machine)@),
        old(machine)@.frames.len() > 0,
    ensures
        final(scope).wf(),
        final(scope).scopes() == old(scope).scopes(),
        block_asked(old(scope)@, final(scope)@, old(machine)@, final(machine)@, r),
        machine::costs(*old(scope), *final(scope), r, 1),
        keeps_order(old(scope)@, final(scope)@, old(machine)@, final(machine)@, r),
{
    let ghost before = scope@;
    let ghost s = machine@;
    let top: usize = machine.frames.len() - 1;
    assert(s.top() == machine.frames@[top as int]@);
    let word: Option<&'static str> = if machine.frames[top].block != Value::nil() {
        Some("yield")
    } else {
        None
    };
    let outcome = define::defined_word(scope, word);
    proof {
        machine::lemma_grown(before, scope@);
    }
    match outcome {
        Ok(v) => {
            proof {
                call::lemma_pushed(scope@, s, v);
                assert(s.pushing(v).stack.last() == v);
            }
            machine.put(v)
        },
        Err(e) => Err(e),
    }
}

/// What the opening of a class does.
pub open spec fn opening_done<F: Floats>(
    floats: &F,
    index: u32,
    before: HeapModel,
    after: HeapModel,
    s: MachineModel,
    now: MachineModel,
    r: Result<Step, Error>,
) -> bool {
    let top = s.top();
    if index >= top.iseq.class_defs@.len() {
        malformed(before, after, s, now, r)
    } else {
        let def = top.iseq.class_defs@[index as int];
        match r {
            Ok(step) => step is Next && define::class_opened(floats, before, after, s, now, def, Ok(())),
            Err(e) => define::class_opened(floats, before, after, s, now, def, Err(e)),
        }
    }
}

/// The opening of a class.
fn step_opening<F: Floats>(
    scope: &mut HandleScope,
    machine: &mut Machine,
    index: u32,
    floats: &F,
) -> (r: Result<Step, Error>)
    requires
        old(scope).wf(),
        object::kernel_in(old(scope)@),
        machine::machine_ok(old(scope)@, old(machine)@),
        old(machine)@.frames.len() > 0,
        old(machine)@.ids < MAX_IDS,
    ensures
        final(scope).wf(),
        final(scope).scopes() == old(scope).scopes(),
        opening_done(floats, index, old(scope)@, final(scope)@, old(machine)@, final(machine)@, r),
        machine::costs(*old(scope), *final(scope), r, define::open_cost(old(scope)@, old(machine)@)),
        keeps_order(old(scope)@, final(scope)@, old(machine)@, final(machine)@, r),
{
    let ghost before = scope@;
    let ghost s = machine@;
    let top: usize = machine.frames.len() - 1;
    assert(s.top() == machine.frames@[top as int]@);
    let at: usize = index as usize;
    if at >= machine.frames[top].iseq.class_defs.len() {
        return Err(Error::malformed("a class"));
    }
    let iseq = bytecode::share(&machine.frames[top].iseq);
    match define::open_class(scope, machine, &iseq.class_defs[at], floats) {
        Ok(_) => Ok(Step::Next),
        Err(e) => Err(e),
    }
}

// ---------------------------------------------------------------------------
// One instruction
// ---------------------------------------------------------------------------

/// What an instruction does, the frame already at the next one.
pub open spec fn insn_done<F: Floats>(
    floats: &F,
    insn: Insn,
    before: HeapModel,
    after: HeapModel,
    s: MachineModel,
    now: MachineModel,
    r: Result<Step, Error>,
) -> bool {
    if is_simple(insn) {
        simple_done(insn, before, after, s, now, r)
    } else if is_value(insn) {
        value_done(insn, before, after, s, now, r)
    } else if is_exit(insn) {
        exit_done(insn, before, after, s, now, r)
    } else {
        match insn {
            Insn::BinOp(op) => operator_done(floats, op, before, after, s, now, r),
            Insn::Neg | Insn::CaseEq | Insn::CheckMatch => test_done(
                insn,
                before,
                after,
                s,
                now,
                r,
            ),
            Insn::Send(i) => call_done(floats, i, true, before, after, s, now, r),
            Insn::Yield(i) => call_done(floats, i, false, before, after, s, now, r),
            Insn::DefineMethod(i) => definition_done(i, false, before, after, s, now, r),
            Insn::DefineSingleton(i) => definition_done(i, true, before, after, s, now, r),
            Insn::GetConst(i, how) => constant_read(floats, i, how, false, before, after, s, now, r),
            Insn::DefinedConst(i, how) => constant_read(floats, i, how, true, before, after, s, now, r),
            Insn::SetConst(i, how) => constant_set(floats, i, how, before, after, s, now, r),
            Insn::DefinedMethod(i) => method_asked(i, false, before, after, s, now, r),
            Insn::DefinedSelfMethod(i) => method_asked(i, true, before, after, s, now, r),
            Insn::DefinedYield => block_asked(before, after, s, now, r),
            Insn::OpenClass(i) => opening_done(floats, i, before, after, s, now, r),
            _ => {
                &&& r matches Err(e) && error::refuses(
                    e,
                    "an instruction"@,
                    "a state this machine does not keep"@,
                )
                &&& now == s
                &&& after == before
            },
        }
    }
}

/// What one turn of the loop does: the instruction the frame is at, with the
/// frame moved to the next one.
#[verifier::opaque]
pub open spec fn stepped<F: Floats>(
    floats: &F,
    before: HeapModel,
    after: HeapModel,
    s: MachineModel,
    now: MachineModel,
    r: Result<Step, Error>,
) -> bool {
    let top = s.top();
    if top.pc >= top.iseq.insns@.len() {
        malformed(before, after, s, now, r)
    } else {
        insn_done(
            floats,
            top.iseq.insns@[top.pc as int],
            before,
            after,
            at_pc(s, (top.pc + 1) as usize),
            now,
            r,
        )
    }
}

/// How many entries a turn of the loop may need: those of the longest code it
/// can enter, a class for each that may lack its singleton class, and what the
/// instruction names.
pub open spec fn step_cost(m: HeapModel, s: MachineModel) -> nat {
    let top = s.top();
    machine::weights(m.definitions.all()) + machine::nested(top.iseq.children@)
        + m.classes.table().len() + 6 + if top.pc < top.iseq.insns@.len() {
        breadth(m, s, top.iseq.insns@[top.pc as int])
    } else {
        0
    }
}

/// Whether a turn of the loop has a reason to run out of room: the heap or a
/// table has less than `n` entries left, or the instruction asks for too much.
pub open spec fn strained(before: HeapModel, room: int, s: MachineModel, n: nat) -> bool {
    let top = s.top();
    ||| machine::tight(before, room, n)
    ||| top.pc < top.iseq.insns@.len() && overtaxed(before, s, top.iseq.insns@[top.pc as int])
}

/// Run the instruction the last frame is at.
pub fn step<F: Floats>(scope: &mut HandleScope, machine: &mut Machine, floats: &F) -> (r: Result<
    Step,
    Error,
>)
    requires
        old(scope).wf(),
        object::kernel_in(old(scope)@),
        machine::machine_ok(old(scope)@, old(machine)@),
        old(machine)@.frames.len() > 0,
        old(machine)@.ids < MAX_IDS,
    ensures
        final(scope).wf(),
        final(scope).scopes() == old(scope).scopes(),
        stepped(floats, old(scope)@, final(scope)@, old(machine)@, final(machine)@, r),
        machine::spends(
            old(scope)@,
            old(scope).room(),
            final(scope)@,
            final(scope).room(),
            step_cost(old(scope)@, old(machine)@),
        ),
        machine::runs_out(r) ==> strained(
            old(scope)@,
            old(scope).room(),
            old(machine)@,
            step_cost(old(scope)@, old(machine)@),
        ),
        keeps_order(old(scope)@, final(scope)@, old(machine)@, final(machine)@, r),
{
    let ghost s = machine@;
    proof {
        reveal(stepped);
    }
    let top: usize = machine.frames.len() - 1;
    assert(s.top() == machine.frames@[top as int]@);
    let pc: usize = machine.frames[top].pc;
    let len: usize = machine.frames[top].iseq.insns.len();
    if pc >= len {
        return Err(Error::malformed("an instruction"));
    }
    let insn: Insn = machine.frames[top].iseq.insns[pc];
    machine.frames[top].pc = pc + 1;
    proof {
        lemma_at_pc(scope@, s, (pc + 1) as usize);
        assert(machine@ =~= at_pc(s, (pc + 1) as usize));
    }
    match insn {
        Insn::PushNil
        | Insn::PushTrue
        | Insn::PushFalse
        | Insn::PushSelf
        | Insn::PushInt(_)
        | Insn::PushSym(_)
        | Insn::Pop
        | Insn::Dup
        | Insn::Jump(_)
        | Insn::JumpUnless(_)
        | Insn::JumpIf(_)
        | Insn::JumpUnlessKeep(_)
        | Insn::JumpIfKeep(_)
        | Insn::JumpUnlessUndef(_)
        | Insn::Not => step_simple(scope, machine, insn),
        Insn::PushLit(_)
        | Insn::GetLocal(_, _)
        | Insn::SetLocal(_, _)
        | Insn::NewArray(_)
        | Insn::MakeProc(_, _) => step_value(scope, machine, insn),
        Insn::Leave
        | Insn::LeaveThroughEnsure
        | Insn::Return
        | Insn::Break
        | Insn::Goto(_, _)
        | Insn::GotoValue(_, _)
        | Insn::Raise
        | Insn::EnterEnsure
        | Insn::LeaveEnsure => step_exit(scope, machine, insn),
        Insn::BinOp(op) => step_operator(scope, machine, op, floats),
        Insn::Neg | Insn::CaseEq | Insn::CheckMatch => step_test(scope, machine, insn),
        Insn::Send(i) => step_call(scope, machine, i, true, floats),
        Insn::Yield(i) => step_call(scope, machine, i, false, floats),
        Insn::DefineMethod(i) => step_definition(scope, machine, i, false),
        Insn::DefineSingleton(i) => step_definition(scope, machine, i, true),
        Insn::GetConst(i, how) => step_constant(scope, machine, i, how, false, floats),
        Insn::DefinedConst(i, how) => step_constant(scope, machine, i, how, true, floats),
        Insn::SetConst(i, how) => step_set_constant(scope, machine, i, how, floats),
        Insn::DefinedMethod(i) => step_method_asked(scope, machine, i, false),
        Insn::DefinedSelfMethod(i) => step_method_asked(scope, machine, i, true),
        Insn::DefinedYield => step_block_asked(scope, machine),
        Insn::OpenClass(i) => step_opening(scope, machine, i, floats),
        _ => Err(Error::refuse("an instruction", "a state this machine does not keep")),
    }
}

} // verus!
