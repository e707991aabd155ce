//! The methods the interpreter performs itself, and the dispatch of calls.

use vstd::prelude::*;
use vstd::string::*;

use crate::boot;
use crate::bytecode;
use crate::class;
use crate::class::{Builtin, ClassId, ClassModel, Kind};
use crate::double::Floats;
use crate::exception;
use crate::heap;
use crate::heap::{HandleScope, HeapModel};
use crate::interp::bind;
use crate::interp::bind::{Binding, Pending, PendingModel, Target};
use crate::interp::call;
use crate::interp::call::{Links, MAX_IDS};
use crate::interp::equal;
use crate::interp::error;
use crate::interp::error::Error;
use crate::interp::machine;
use crate::interp::machine::{CallModel, Machine, MachineModel, Unwind};
use crate::interp::make;
use crate::interp::object;
use crate::interp::object::bool_value;
use crate::kernel;
use crate::method;
use crate::method::{Definition, Native};
use crate::text;
use crate::value::{Unpacked, Value};

verus! {

broadcast use Value::law_pack;

/// A result without its value.
pub open spec fn unit(r: Result<Option<Unwind>, Error>) -> Result<(), Error> {
    match r {
        Ok(_) => Ok(()),
        Err(e) => Err(e),
    }
}

/// Whether an operation only pushed a value, which may have needed rooting.
pub open spec fn pushes(
    before: HeapModel,
    after: HeapModel,
    s: MachineModel,
    now: MachineModel,
    v: Value,
    r: Result<Option<Unwind>, Error>,
) -> bool {
    &&& r == Ok::<Option<Unwind>, Error>(None)
    &&& now == s.pushing(v)
    &&& call::rooted_more(before, after)
}

/// Whether an operation was refused and did nothing.
pub open spec fn stays(
    before: HeapModel,
    after: HeapModel,
    s: MachineModel,
    now: MachineModel,
) -> bool {
    &&& now == s
    &&& after == before
}

/// The text an argument stands for: what a string reads as, or what another
/// value looks like.
pub open spec fn arg_text<F: Floats>(floats: &F, m: HeapModel, v: Value, out: Seq<char>) -> bool {
    match object::string_in(m, v) {
        Some(bytes) => out == text::lossy_text(bytes),
        None => equal::looks(floats, m, v, equal::nesting(m), out),
    }
}

/// The text an argument stands for.
fn text_of<F: Floats>(scope: &HandleScope, value: Value, floats: &F) -> (r: String)
    requires
        scope.wf(),
        scope@.live(value),
        object::kernel_in(scope@),
    ensures
        arg_text(floats, scope@, value, r@),
{
    match object::string_bytes(scope, value) {
        Some(bytes) => text::lossy(bytes.as_slice()),
        None => equal::inspect(scope, value, floats),
    }
}

// ---------------------------------------------------------------------------
// Raising
// ---------------------------------------------------------------------------

/// The message of an exception made of a class and an optional argument: the
/// argument's text, or the class's name.
pub open spec fn exception_text<F: Floats>(
    floats: &F,
    m: HeapModel,
    id: ClassId,
    argument: Option<Value>,
    out: Seq<char>,
) -> bool {
    match argument {
        Some(v) => arg_text(floats, m, v, out),
        None => match m.classes.table()[id.0 as int].name {
            Some(name) => out == name,
            None => out.len() == 0,
        },
    }
}

/// The message of an exception made of a class and an optional argument.
fn exception_words<F: Floats>(
    scope: &HandleScope,
    id: ClassId,
    argument: Option<Value>,
    floats: &F,
) -> (r: String)
    requires
        scope.wf(),
        object::kernel_in(scope@),
        scope@.classes.has(id),
        argument matches Some(v) ==> scope@.live(v),
    ensures
        exception_text(floats, scope@, id, argument, r@),
{
    match argument {
        Some(v) => text_of(scope, v, floats),
        None => match object::entry_name(scope, id) {
            Some(name) => name,
            None => String::new(),
        },
    }
}

/// The second of a list of values.
pub open spec fn second(args: Seq<Value>) -> Option<Value> {
    if args.len() > 1 {
        Some(args[1])
    } else {
        None
    }
}

/// The first of a list of values.
pub open spec fn first(args: Seq<Value>) -> Option<Value> {
    if args.len() > 0 {
        Some(args[0])
    } else {
        None
    }
}

fn first_of(args: &Vec<Value>) -> (r: Option<Value>)
    ensures
        r == first(args@),
{
    if args.len() > 0 {
        Some(args[0])
    } else {
        None
    }
}

/// Whether a value is an exception that was made of a class at the top level.
pub open spec fn made_by_name(
    before: HeapModel,
    after: HeapModel,
    name: Seq<char>,
    message: Seq<char>,
    r: Result<Value, Error>,
) -> bool {
    match r {
        Ok(v) => kernel::constant_named(before, name) matches Some(c) && make::exception_made(
            before,
            after,
            v,
            c,
            message,
        ),
        Err(e) => e is Malformed && kernel::constant_named(before, name) is None || e is Exhausted,
    }
}

/// What the arguments of `raise` come to. None re-raises what the frame is
/// handling; an exception is raised as it is; a string is the message of a
/// `RuntimeError`; a class is instantiated.
pub open spec fn raise_outcome<F: Floats>(
    floats: &F,
    before: HeapModel,
    after: HeapModel,
    rescued: Option<Value>,
    args: Seq<Value>,
    r: Result<Value, Error>,
) -> bool {
    if args.len() == 0 {
        match rescued {
            Some(v) => r == Ok::<Value, Error>(v) && after == before,
            None => made_by_name(before, after, "RuntimeError"@, Seq::empty(), r),
        }
    } else if object::is_exception_in(before, args[0]) {
        r == Ok::<Value, Error>(args[0]) && after == before
    } else {
        match object::string_in(before, args[0]) {
            Some(bytes) => made_by_name(
                before,
                after,
                "RuntimeError"@,
                text::lossy_text(bytes),
                r,
            ),
            None => match object::class_id_of_value(before, args[0]) {
                None => {
                    &&& r matches Err(e) && error::raises(
                        e,
                        "TypeError"@,
                        "exception class/object expected"@,
                    )
                    &&& after == before
                },
                Some(id) => match r {
                    Ok(v) => exists|message: Seq<char>|
                        {
                            &&& #[trigger] exception_text(floats, before, id, second(args), message)
                            &&& make::exception_made(
                                before,
                                after,
                                v,
                                before.classes.table()[id.0 as int].object,
                                message,
                            )
                        },
                    Err(e) => e is Exhausted,
                },
            },
        }
    }
}

/// The exception that the arguments of `raise` mean.
pub fn raise_argument<F: Floats>(
    scope: &mut HandleScope,
    rescued: Option<Value>,
    args: &Vec<Value>,
    floats: &F,
) -> (r: Result<Value, Error>)
    requires
        old(scope).wf(),
        object::kernel_in(old(scope)@),
        machine::all_held(old(scope)@, args@),
        rescued matches Some(v) ==> machine::held(old(scope)@, v),
    ensures
        final(scope).wf(),
        final(scope).scopes() == old(scope).scopes(),
        machine::grown(old(scope)@, final(scope)@),
        heap::persists(old(scope)@, final(scope)@),
        machine::costs(*old(scope), *final(scope), r, 2),
        raise_outcome(floats, old(scope)@, final(scope)@, rescued, args@, r),
        r matches Ok(v) ==> machine::held(final(scope)@, v),
{
    let ghost before = scope@;
    proof {
        call::lemma_definitions_only(before, before);
    }
    if args.len() == 0 {
        return match rescued {
            Some(exception) => Ok(exception),
            None => {
                assert(""@ =~= Seq::<char>::empty()) by {
                    reveal_strlit("");
                }
                make::exception_new(scope, "RuntimeError", "")
            },
        };
    }
    let value = args[0];
    proof {
        assert(machine::held(before, args@[0]));
        machine::lemma_held_is_live(before, value);
    }
    if object::is_exception(scope, value) {
        return Ok(value);
    }
    if let Some(bytes) = object::string_bytes(scope, value) {
        let message = text::lossy(bytes.as_slice());
        return make::exception_new(scope, "RuntimeError", message.as_str());
    }
    let id = match object::class_id_of(scope, value) {
        Some(id) => id,
        None => {
            return Err(Error::raise("TypeError", "exception class/object expected"));
        },
    };
    let argument: Option<Value> = if args.len() > 1 {
        proof {
            assert(machine::held(before, args@[1]));
            machine::lemma_held_is_live(before, args@[1]);
        }
        Some(args[1])
    } else {
        None
    };
    let message = exception_words(scope, id, argument, floats);
    let class = scope.classes().object(id);
    proof {
        boot::lemma_class_objects_reachable(before, id.0 as int);
    }
    make::exception_of(scope, class, message.as_str())
}

// ---------------------------------------------------------------------------
// Procs
// ---------------------------------------------------------------------------

/// What `proc` and `lambda` come to.
pub open spec fn proc_made(
    before: HeapModel,
    after: HeapModel,
    s: MachineModel,
    now: MachineModel,
    call: PendingModel,
    lambda: bool,
    r: Result<Option<Unwind>, Error>,
) -> bool {
    let nil = Value::pack(Unpacked::Nil);
    if lambda && !call.block_is_literal && call.block != nil {
        &&& r matches Err(e) && error::raises(
            e,
            "ArgumentError"@,
            "the lambda method requires a literal block"@,
        )
        &&& stays(before, after, s, now)
    } else if call.block == nil {
        &&& r matches Err(e) && error::raises(
            e,
            "ArgumentError"@,
            "tried to create Proc object without a block"@,
        )
        &&& stays(before, after, s, now)
    } else if !lambda {
        pushes(before, after, s, now, call.block, r)
    } else {
        match object::proc_in(before, call.block) {
            None => {
                &&& r matches Err(e) && error::refuses(e, "lambda"@, "a block that is not a Proc"@)
                &&& stays(before, after, s, now)
            },
            Some(p) => match r {
                Ok(u) => {
                    &&& u is None
                    &&& now == s.pushing(now.stack.last())
                    &&& exists|mid: HeapModel|
                        {
                            &&& #[trigger] call::rooted_more(before, mid)
                            &&& make::made(
                                mid,
                                after,
                                now.stack.last(),
                                make::slots_object(
                                    Some(object::builtin_object(before, Builtin::Proc)),
                                    make::proc_slots(
                                        p.definition,
                                        p.env,
                                        p.receiver,
                                        p.block,
                                        true,
                                        p.cref,
                                        p.home,
                                    ),
                                ),
                            )
                        }
                },
                Err(e) => e is Exhausted && now == s,
            },
        }
    }
}

/// `proc` and `lambda`.
fn native_make_proc(
    scope: &mut HandleScope,
    machine: &mut Machine,
    call: &Pending,
    lambda: bool,
) -> (r: Result<Option<Unwind>, Error>)
    requires
        old(scope).wf(),
        object::kernel_in(old(scope)@),
        machine::machine_ok(old(scope)@, old(machine)@),
        bind::pending_held(old(scope)@, call@),
    ensures
        final(scope).wf(),
        final(scope).scopes() == old(scope).scopes(),
        machine::grown(old(scope)@, final(scope)@),
        heap::persists(old(scope)@, final(scope)@),
        machine::machine_ok(final(scope)@, final(machine)@),
        machine::costs(*old(scope), *final(scope), r, 1),
        proc_made(
            old(scope)@,
            final(scope)@,
            old(machine)@,
            final(machine)@,
            call@,
            lambda,
            r,
        ),
{
    let ghost before = scope@;
    let ghost s = machine@;
    proof {
        call::lemma_definitions_only(before, before);
        machine::lemma_held_is_live(before, call.block);
    }
    if lambda && !call.block_is_literal && call.block != Value::nil() {
        return Err(Error::raise("ArgumentError", "the lambda method requires a literal block"));
    }
    if call.block == Value::nil() {
        return Err(Error::raise("ArgumentError", "tried to create Proc object without a block"));
    }
    if !lambda {
        machine.stack.push(call.block);
        proof {
            call::lemma_pushed(before, s, call.block);
            assert(machine@ =~= s.pushing(call.block));
        }
        return Ok(None);
    }
    let parts = match object::proc_parts(scope, call.block) {
        Some(parts) => parts,
        None => {
            return Err(Error::refuse("lambda", "a block that is not a Proc"));
        },
    };
    let ghost p = parts.model();
    scope.hold(parts.env);
    let ghost one = scope@;
    scope.hold(parts.receiver);
    let ghost two = scope@;
    scope.hold(parts.block);
    let ghost mid = scope@;
    let total: usize = scope.definitions().len();
    proof {
        assert(call::rooted_more(before, mid));
        if parts.env@ is Heap {
            assert(one.roots[one.roots.len() - 1] == parts.env);
        }
        if parts.receiver@ is Heap {
            assert(two.roots[two.roots.len() - 1] == parts.receiver);
        }
        if parts.block@ is Heap {
            assert(mid.roots[mid.roots.len() - 1] == parts.block);
        }
        assert(machine::held(one, parts.env));
        assert(machine::held(two, parts.receiver));
        assert(machine::held(mid, parts.block));
        machine::lemma_grown(one, mid);
        machine::lemma_grown(two, mid);
        machine::lemma_grown(before, mid);
        make::lemma_rooting(before, mid);
        call::lemma_home_fits(before, call.block);
        mid.definitions.law_places();
    }
    let made = make::make_proc(
        scope,
        parts.definition,
        parts.env,
        parts.receiver,
        parts.block,
        true,
        parts.cref,
        parts.home,
    );
    proof {
        call::lemma_grown_trans(before, mid, scope@);
        machine::lemma_grown(before, scope@);
        heap::lemma_persists_trans(before, mid, scope@);
    }
    match made {
        Ok(value) => {
            machine.stack.push(value);
            proof {
                assert(machine::machine_ok(scope@, s));
                assert(machine::held(scope@, value));
                call::lemma_pushed(scope@, s, value);
                assert(machine@ =~= s.pushing(value));
            }
            Ok(None)
        },
        Err(e) => Err(e),
    }
}

/// What `lambda?` and `arity` come to.
pub open spec fn proc_asked(
    before: HeapModel,
    after: HeapModel,
    s: MachineModel,
    now: MachineModel,
    receiver: Value,
    arity: bool,
    r: Result<Option<Unwind>, Error>,
) -> bool {
    match object::proc_in(before, receiver) {
        None => {
            &&& r matches Err(e) && error::refuses(
                e,
                if arity {
                    "arity"@
                } else {
                    "lambda?"@
                },
                "a receiver that is not a Proc"@,
            )
            &&& stays(before, after, s, now)
        },
        Some(p) => {
            let spec = (*before.definitions.all()[p.definition]->Iseq_0).params;
            let answer = if !arity {
                object::truth(p.lambda)
            } else if spec.rest is Some || spec.optional@.len() > 0 {
                Value::pack(Unpacked::Fixnum((-(spec.min() + 1)) as i64))
            } else {
                Value::pack(Unpacked::Fixnum(spec.min() as i64))
            };
            pushes(before, after, s, now, answer, r)
        },
    }
}

/// `lambda?` and `arity`.
fn native_ask_proc(
    scope: &HandleScope,
    machine: &mut Machine,
    receiver: Value,
    arity: bool,
) -> (r: Result<Option<Unwind>, Error>)
    requires
        scope.wf(),
        object::kernel_in(scope@),
        machine::machine_ok(scope@, old(machine)@),
        machine::held(scope@, receiver),
    ensures
        machine::machine_ok(scope@, final(machine)@),
        proc_asked(scope@, scope@, old(machine)@, final(machine)@, receiver, arity, r),
{
    let ghost s = machine@;
    proof {
        machine::lemma_held_is_live(scope@, receiver);
    }
    let parts = match object::proc_parts(scope, receiver) {
        Some(parts) => parts,
        None => {
            return if arity {
                Err(Error::refuse("arity", "a receiver that is not a Proc"))
            } else {
                Err(Error::refuse("lambda?", "a receiver that is not a Proc"))
            };
        },
    };
    let answer = if arity {
        match Value::fixnum(parts.iseq.params.arity()) {
            Some(value) => value,
            None => Value::nil(),
        }
    } else {
        bool_value(parts.lambda)
    };
    machine.stack.push(answer);
    proof {
        call::lemma_pushed(scope@, s, answer);
        assert(machine@ =~= s.pushing(answer));
    }
    Ok(None)
}

// ---------------------------------------------------------------------------
// Objects
// ---------------------------------------------------------------------------

/// The first of an entry and its superclasses that is no singleton class.
pub open spec fn plain_class(t: Seq<ClassModel>, id: int) -> Option<ClassId>
    decreases id,
{
    if !(0 <= id < t.len()) {
        None
    } else if !t[id].is_singleton {
        Some(ClassId(id as u32))
    } else {
        match t[id].superclass {
            Some(s) => if s.0 < id {
                plain_class(t, s.0 as int)
            } else {
                None
            },
            None => None,
        }
    }
}

/// The first of an entry and its superclasses that is no singleton class.
fn skip_singletons(scope: &HandleScope, id: ClassId) -> (r: Option<ClassId>)
    requires
        scope.wf(),
        scope@.classes.has(id),
    ensures
        r == plain_class(scope@.classes.table(), id.0 as int),
        r matches Some(c) ==> scope@.classes.has(c),
{
    let ghost t = scope@.classes.table();
    let mut at: ClassId = id;
    while scope.classes().is_singleton(at)
        invariant
            scope.wf(),
            t == scope@.classes.table(),
            scope@.classes.has(at),
            plain_class(t, id.0 as int) == plain_class(t, at.0 as int),
        decreases at.0,
    {
        assert(class::class_ok(t, at.0 as int));
        match scope.classes().superclass(at) {
            Some(s) => {
                at = s;
            },
            None => {
                return None;
            },
        }
    }
    Some(at)
}

/// What `class` comes to: the class object, singleton classes skipped.
pub open spec fn class_asked(
    before: HeapModel,
    after: HeapModel,
    s: MachineModel,
    now: MachineModel,
    receiver: Value,
    r: Result<Option<Unwind>, Error>,
) -> bool {
    let t = before.classes.table();
    match object::class_of_value(before, receiver) {
        None => {
            &&& r matches Err(e) && error::refuses(
                e,
                "a method call"@,
                object::classless(receiver),
            )
            &&& stays(before, after, s, now)
        },
        Some(id) => match plain_class(t, id.0 as int) {
            None => r matches Err(e) && e is Malformed && stays(before, after, s, now),
            Some(class) => pushes(before, after, s, now, t[class.0 as int].object, r),
        },
    }
}

/// `class`.
fn native_class(scope: &mut HandleScope, machine: &mut Machine, receiver: Value) -> (r: Result<
    Option<Unwind>,
    Error,
>)
    requires
        old(scope).wf(),
        object::kernel_in(old(scope)@),
        machine::machine_ok(old(scope)@, old(machine)@),
        machine::held(old(scope)@, receiver),
    ensures
        final(scope).wf(),
        final(scope).scopes() == old(scope).scopes(),
        machine::grown(old(scope)@, final(scope)@),
        machine::machine_ok(final(scope)@, final(machine)@),
        machine::costs(*old(scope), *final(scope), r, 0),
        class_asked(old(scope)@, final(scope)@, old(machine)@, final(machine)@, receiver, r),
{
    proof {
        machine::lemma_held_is_live(scope@, receiver);
    }
    let id = match object::class_of(scope, receiver) {
        Some(id) => id,
        None => {
            return Err(object::no_class(receiver));
        },
    };
    let class = match skip_singletons(scope, id) {
        Some(class) => class,
        None => {
            return Err(Error::malformed("a singleton class without a superclass"));
        },
    };
    let object = scope.classes().object(class);
    proof {
        boot::lemma_class_objects_reachable(scope@, class.0 as int);
    }
    call::push_live(scope, machine, object);
    Ok(None)
}

/// What `+` of an array comes to.
pub open spec fn arrays_joined(
    before: HeapModel,
    after: HeapModel,
    s: MachineModel,
    now: MachineModel,
    call: PendingModel,
    r: Result<Option<Unwind>, Error>,
) -> bool {
    match object::elements_in(before, call.receiver) {
        None => {
            &&& r matches Err(e) && error::refuses(e, "+"@, "a receiver that is not an Array"@)
            &&& stays(before, after, s, now)
        },
        Some(left) => {
            let right = match first(call.args) {
                Some(v) => object::elements_in(before, v),
                None => None,
            };
            match right {
                None => {
                    &&& r matches Err(e) && error::raises(
                        e,
                        "TypeError"@,
                        "no implicit conversion into Array"@,
                    )
                    &&& stays(before, after, s, now)
                },
                Some(right) => match r {
                    Ok(u) => {
                        &&& u is None
                        &&& now == s.pushing(now.stack.last())
                        &&& exists|mid: HeapModel|
                            {
                                &&& #[trigger] call::rooted_more(before, mid)
                                &&& make::made(
                                    mid,
                                    after,
                                    now.stack.last(),
                                    make::slots_object(
                                        Some(object::builtin_object(before, Builtin::Array)),
                                        left + right,
                                    ),
                                )
                            }
                    },
                    Err(e) => e is Exhausted && now == s,
                },
            }
        },
    }
}

/// `+` of an array.
fn native_array_plus(scope: &mut HandleScope, machine: &mut Machine, call: &Pending) -> (r: Result<
    Option<Unwind>,
    Error,
>)
    requires
        old(scope).wf(),
        object::kernel_in(old(scope)@),
        machine::machine_ok(old(scope)@, old(machine)@),
        bind::pending_held(old(scope)@, call@),
        call@.target is Method,
    ensures
        final(scope).wf(),
        final(scope).scopes() == old(scope).scopes(),
        machine::grown(old(scope)@, final(scope)@),
        heap::persists(old(scope)@, final(scope)@),
        machine::machine_ok(final(scope)@, final(machine)@),
        call_costs(*old(scope), *final(scope), r, 1, call@),
        arrays_joined(old(scope)@, final(scope)@, old(machine)@, final(machine)@, call@, r),
{
    let ghost before = scope@;
    let ghost s = machine@;
    proof {
        call::lemma_definitions_only(before, before);
        machine::lemma_held_is_live(before, call.receiver);
        if call@.args.len() > 0 {
            assert(machine::held(before, call@.args[0]));
            machine::lemma_held_is_live(before, call@.args[0]);
        }
    }
    let mut left = match object::array_elements(scope, call.receiver) {
        Some(left) => left,
        None => {
            return Err(Error::refuse("+", "a receiver that is not an Array"));
        },
    };
    let right: Option<Vec<Value>> = match first_of(&call.args) {
        Some(v) => object::array_elements(scope, v),
        None => None,
    };
    let mut right = match right {
        Some(right) => right,
        None => {
            return Err(Error::raise("TypeError", "no implicit conversion into Array"));
        },
    };
    let ghost a = left@;
    let ghost b = right@;
    left.append(&mut right);
    proof {
        assert(left@ =~= a + b);
        assert forall|i: int| 0 <= i < left@.len() implies before.live(#[trigger] left@[i]) by {
            if i < a.len() {
                assert(left@[i] == a[i]);
            } else {
                assert(left@[i] == b[i - a.len()]);
            }
        }
    }
    bind::hold_all(scope, &left);
    let ghost mid = scope@;
    proof {
        assert(call::rooted_more(before, mid));
        make::lemma_rooting(before, mid);
    }
    let made = make::new_array(scope, left);
    proof {
        call::lemma_grown_trans(before, mid, scope@);
        machine::lemma_grown(before, scope@);
        heap::lemma_persists_trans(before, mid, scope@);
        if made is Err && a.len() + b.len() > u32::MAX {
            assert(object::elements_in(before, call@.args[0]) == Some(b));
            assert(machine::overlong(before, call@.receiver, call@.args));
        }
    }
    match made {
        Ok(value) => {
            machine.stack.push(value);
            proof {
                assert(machine::machine_ok(scope@, s));
                assert(machine::held(scope@, value));
                call::lemma_pushed(scope@, s, value);
                assert(machine@ =~= s.pushing(value));
            }
            Ok(None)
        },
        Err(e) => Err(e),
    }
}

/// What an accessor of a slot comes to. Reading a slot the object lacks is
/// `nil`, and writing one is dropped.
pub open spec fn slot_accessed(
    before: HeapModel,
    after: HeapModel,
    s: MachineModel,
    now: MachineModel,
    receiver: Value,
    slot: u16,
    written: Option<Value>,
    r: Result<Option<Unwind>, Error>,
) -> bool {
    if !(receiver@ is Heap) {
        r matches Err(e) && e is Malformed && stays(before, after, s, now)
    } else {
        let found = heap::slot_in(before.object(receiver), slot as int);
        match written {
            None => pushes(
                before,
                after,
                s,
                now,
                match found {
                    Some(v) => v,
                    None => Value::pack(Unpacked::Nil),
                },
                r,
            ),
            Some(v) => {
                &&& r == Ok::<Option<Unwind>, Error>(None)
                &&& now == s.pushing(v)
                &&& after == if found is Some {
                    before.storing(
                        receiver,
                        heap::with_slot(before.object(receiver), slot as int, v),
                    )
                } else {
                    before
                }
            },
        }
    }
}

/// An accessor of a slot.
fn native_slot(
    scope: &mut HandleScope,
    machine: &mut Machine,
    receiver: Value,
    slot: u16,
    written: Option<Value>,
) -> (r: Result<Option<Unwind>, Error>)
    requires
        old(scope).wf(),
        machine::machine_ok(old(scope)@, old(machine)@),
        machine::held(old(scope)@, receiver),
        written matches Some(v) ==> machine::held(old(scope)@, v),
    ensures
        final(scope).wf(),
        final(scope).scopes() == old(scope).scopes(),
        machine::grown(old(scope)@, final(scope)@),
        machine::machine_ok(final(scope)@, final(machine)@),
        machine::costs(*old(scope), *final(scope), r, 0),
        slot_accessed(
            old(scope)@,
            final(scope)@,
            old(machine)@,
            final(machine)@,
            receiver,
            slot,
            written,
            r,
        ),
{
    let ghost before = scope@;
    let ghost s = machine@;
    proof {
        machine::lemma_held_is_live(before, receiver);
    }
    if receiver.is_immediate() {
        return Err(Error::malformed("an accessor of an immediate"));
    }
    let found = scope.slot_of(receiver, slot as usize);
    match written {
        None => {
            let value = match found {
                Some(value) => value,
                None => Value::nil(),
            };
            call::push_live(scope, machine, value);
        },
        Some(value) => {
            proof {
                machine::lemma_held_is_live(before, value);
            }
            if found.is_some() {
                scope.store(receiver, slot as usize, value);
            }
            machine.stack.push(value);
            proof {
                machine::lemma_grown(before, scope@);
                assert(machine::machine_ok(scope@, s));
                assert(machine::held(scope@, value));
                call::lemma_pushed(scope@, s, value);
                assert(machine@ =~= s.pushing(value));
            }
        },
    }
    Ok(None)
}

/// What `message` comes to: a string of what the exception says.
pub open spec fn message_asked(
    before: HeapModel,
    after: HeapModel,
    s: MachineModel,
    now: MachineModel,
    receiver: Value,
    r: Result<Option<Unwind>, Error>,
) -> bool {
    match r {
        Ok(u) => {
            &&& u is None
            &&& now == s.pushing(now.stack.last())
            &&& make::made(
                before,
                after,
                now.stack.last(),
                make::bytes_object(
                    Some(object::builtin_object(before, Builtin::String)),
                    make::clipped(vstd::utf8::encode_utf8(object::message_in(before, receiver))),
                ),
            )
        },
        Err(e) => e is Exhausted && now == s,
    }
}

/// `message`.
fn native_message(scope: &mut HandleScope, machine: &mut Machine, receiver: Value) -> (r: Result<
    Option<Unwind>,
    Error,
>)
    requires
        old(scope).wf(),
        object::kernel_in(old(scope)@),
        machine::machine_ok(old(scope)@, old(machine)@),
        machine::held(old(scope)@, receiver),
    ensures
        final(scope).wf(),
        final(scope).scopes() == old(scope).scopes(),
        machine::grown(old(scope)@, final(scope)@),
        heap::persists(old(scope)@, final(scope)@),
        machine::machine_ok(final(scope)@, final(machine)@),
        machine::costs(*old(scope), *final(scope), r, 1),
        message_asked(old(scope)@, final(scope)@, old(machine)@, final(machine)@, receiver, r),
{
    let ghost before = scope@;
    let ghost s = machine@;
    proof {
        machine::lemma_held_is_live(before, receiver);
        call::lemma_definitions_only(before, before);
    }
    let message = object::exception_message(scope, receiver);
    let made = make::string_new(scope, message.as_str());
    match made {
        Ok(value) => {
            machine.stack.push(value);
            proof {
                machine::lemma_grown(before, scope@);
                assert(machine::machine_ok(scope@, s));
                assert(machine::held(scope@, value));
                call::lemma_pushed(scope@, s, value);
                assert(machine@ =~= s.pushing(value));
            }
            Ok(None)
        },
        Err(e) => Err(e),
    }
}

// ---------------------------------------------------------------------------
// Catch and throw
// ---------------------------------------------------------------------------

/// Whether a frame is the boundary of a tag.
pub open spec fn has_tag(frames: Seq<CallModel>, tag: Value) -> bool {
    exists|i: int| 0 <= i < frames.len() && (#[trigger] frames[i]).tag == Some(tag)
}

fn tag_is_open(machine: &Machine, tag: Value) -> (r: bool)
    ensures
        r == has_tag(machine@.frames, tag),
{
    let mut i: usize = 0;
    while i < machine.frames.len()
        invariant
            i <= machine.frames.len(),
            forall|k: int| 0 <= k < i ==> (#[trigger] machine@.frames[k]).tag != Some(tag),
        decreases machine.frames.len() - i,
    {
        assert(machine@.frames[i as int] == machine.frames@[i as int]@);
        if let Some(t) = machine.frames[i].tag {
            if t == tag {
                return true;
            }
        }
        i += 1;
    }
    false
}

/// What Ruby says of a wrong count of arguments to `throw`.
pub open spec fn throw_arity(given: nat) -> Seq<char> {
    "wrong number of arguments (given "@ + text::digits(given, 10) + ", expected 1..2)"@
}

/// What `throw` comes to. A tag that no frame is the boundary of is an error
/// where the `throw` is.
pub open spec fn thrown<F: Floats>(
    floats: &F,
    m: HeapModel,
    s: MachineModel,
    now: MachineModel,
    args: Seq<Value>,
    r: Result<Option<Unwind>, Error>,
) -> bool {
    &&& now == s
    &&& if args.len() == 0 || args.len() > 2 {
        r matches Err(e) && error::raises(e, "ArgumentError"@, throw_arity(args.len()))
    } else if has_tag(s.frames, args[0]) {
        r == Ok::<Option<Unwind>, Error>(
            Some(
                Unwind::Throw {
                    tag: args[0],
                    value: match second(args) {
                        Some(v) => v,
                        None => Value::pack(Unpacked::Nil),
                    },
                },
            ),
        )
    } else {
        r matches Err(e) && exists|shown: Seq<char>|
            {
                &&& #[trigger] equal::looks(floats, m, args[0], equal::nesting(m), shown)
                &&& error::raises(e, "UncaughtThrowError"@, "uncaught throw "@ + shown)
            }
    }
}

/// `throw`.
fn native_throw<F: Floats>(
    scope: &HandleScope,
    machine: &Machine,
    args: &Vec<Value>,
    floats: &F,
) -> (r: Result<Option<Unwind>, Error>)
    requires
        scope.wf(),
        object::kernel_in(scope@),
        machine::all_held(scope@, args@),
    ensures
        thrown(floats, scope@, machine@, machine@, args@, r),
        r matches Ok(Some(u)) ==> machine::unwind_held(scope@, u),
{
    let given: usize = args.len();
    if given == 0 || given > 2 {
        let count = text::number(given as u64, 10);
        return Err(
            Error::raise_text(
                "ArgumentError",
                text::join3(
                    "wrong number of arguments (given ",
                    count.as_str(),
                    ", expected 1..2)",
                ),
            ),
        );
    }
    let tag = args[0];
    proof {
        assert(machine::held(scope@, args@[0]));
        machine::lemma_held_is_live(scope@, tag);
    }
    let value = if given > 1 {
        assert(machine::held(scope@, args@[1]));
        args[1]
    } else {
        Value::nil()
    };
    if !tag_is_open(machine, tag) {
        let shown = equal::inspect(scope, tag, floats);
        return Err(
            Error::raise_text("UncaughtThrowError", text::join("uncaught throw ", shown.as_str())),
        );
    }
    Ok(Some(Unwind::Throw { tag, value }))
}

/// The call that `catch` makes of its block.
pub open spec fn catch_call(call: PendingModel, tag: Value) -> PendingModel {
    PendingModel {
        name: call.name,
        receiver: call.block,
        args: seq![tag],
        keywords: Seq::empty(),
        block: Value::pack(Unpacked::Nil),
        block_is_literal: false,
        cref: call.cref,
        target: Target::Block(call.block),
    }
}

/// What `catch` comes to: the block is called with the tag, in a frame that is
/// its boundary. Without a tag a new object is one.
pub open spec fn caught(
    before: HeapModel,
    after: HeapModel,
    s: MachineModel,
    now: MachineModel,
    call: PendingModel,
    r: Result<Option<Unwind>, Error>,
) -> bool {
    if call.block == Value::pack(Unpacked::Nil) {
        &&& r matches Err(e) && error::raises(e, "LocalJumpError"@, "no block given (yield)"@)
        &&& stays(before, after, s, now)
    } else {
        ||| r matches Err(e) && e is Exhausted
        ||| exists|mid: HeapModel, tag: Value, entered: MachineModel|
            {
                &&& #[trigger] tag_ready(before, mid, call, tag)
                &&& #[trigger] call::proc_entered(
                    mid,
                    after,
                    s,
                    entered,
                    catch_call(call, tag),
                    call.block,
                    unit(r),
                )
                &&& now == match r {
                    Ok(_) => entered.with_top(CallModel { tag: Some(tag), ..entered.top() }),
                    Err(_) => entered,
                }
                &&& r matches Ok(u) ==> u is None
            }
    }
}

/// The tag of a `catch`.
pub open spec fn tag_ready(
    before: HeapModel,
    mid: HeapModel,
    call: PendingModel,
    tag: Value,
) -> bool {
    match first(call.args) {
        Some(v) => tag == v && mid == before,
        None => make::made(
            before,
            mid,
            tag,
            make::slots_object(
                Some(object::builtin_object(before, Builtin::Object)),
                Seq::empty(),
            ),
        ),
    }
}

/// `catch`.
fn native_catch(scope: &mut HandleScope, machine: &mut Machine, call: &Pending) -> (r: Result<
    Option<Unwind>,
    Error,
>)
    requires
        old(scope).wf(),
        object::kernel_in(old(scope)@),
        machine::machine_ok(old(scope)@, old(machine)@),
        bind::pending_held(old(scope)@, call@),
        old(machine)@.ids < MAX_IDS,
    ensures
        final(scope).wf(),
        final(scope).scopes() == old(scope).scopes(),
        machine::grown(old(scope)@, final(scope)@),
        heap::persists(old(scope)@, final(scope)@),
        machine::machine_ok(final(scope)@, final(machine)@),
        machine::costs(
            *old(scope),
            *final(scope),
            r,
            machine::weights(old(scope)@.definitions.all()) + 4,
        ),
        caught(old(scope)@, final(scope)@, old(machine)@, final(machine)@, call@, r),
        ids_kept(old(machine)@, final(machine)@),
{
    let ghost before = scope@;
    let ghost s = machine@;
    proof {
        call::lemma_definitions_only(before, before);
    }
    if call.block == Value::nil() {
        return Err(Error::raise("LocalJumpError", "no block given (yield)"));
    }
    let tag: Value = match first_of(&call.args) {
        Some(tag) => {
            assert(machine::held(before, call@.args[0]));
            tag
        },
        None => {
            let class = scope.classes().object(Builtin::Object.id());
            proof {
                make::lemma_builtin_is_live(before, Builtin::Object);
            }
            match make::new_slots(scope, Some(class), Vec::new()) {
                Ok(tag) => tag,
                Err(e) => {
                    return Err(e);
                },
            }
        },
    };
    let ghost mid = scope@;
    proof {
        assert(machine::grown(before, mid));
        machine::lemma_grown(before, mid);
        call::lemma_pending_held(before, mid, call@);
        assert(machine::held(mid, tag));
        assert(tag_ready(before, mid, call@, tag)) by {
            if call@.args.len() == 0 {
                let none: Seq<Value> = Seq::empty();
                assert(make::slots_object(
                    Some(object::builtin_object(before, Builtin::Object)),
                    none,
                ) =~= mid.object(tag));
            }
        }
    }
    let mut args: Vec<Value> = Vec::new();
    args.push(tag);
    let inner = Pending {
        name: call.name,
        receiver: call.block,
        args,
        keywords: Vec::new(),
        block: Value::nil(),
        block_is_literal: false,
        cref: call.cref,
        target: Target::Block(call.block),
    };
    proof {
        assert(inner@ =~= catch_call(call@, tag));
        assert(bind::pending_held(mid, inner@));
    }
    let pushed = call::push_proc_frame(scope, machine, &inner, call.block);
    let ghost entered = machine@;
    proof {
        assert forall|v: Value| #[trigger] before.is_root(v) implies mid.is_root(v) by {
            if before.roots.contains(v) {
                let k = before.roots.index_of(v);
                assert(mid.roots[k] == v);
            }
        }
        heap::lemma_persists_trans(before, mid, scope@);
        call::lemma_grown_trans(before, mid, scope@);
    }
    let r: Result<Option<Unwind>, Error> = match pushed {
        Ok(_) => {
            let last: usize = machine.frames.len() - 1;
            machine.frames[last].tag = Some(tag);
            proof {
                machine::lemma_grown(mid, scope@);
                assert(machine::held(scope@, tag));
                assert(machine@ =~= entered.with_top(
                    CallModel { tag: Some(tag), ..entered.top() },
                ));
                assert forall|i: int| 0 <= i < machine@.frames.len() implies machine::call_ok(
                    scope@,
                    #[trigger] machine@.frames[i],
                ) by {
                    assert(machine::call_ok(scope@, entered.frames[i]));
                }
            }
            Ok(None)
        },
        Err(e) => Err(e),
    };
    proof {
        assert(call::proc_entered(
            mid,
            scope@,
            s,
            entered,
            catch_call(call@, tag),
            call.block,
            unit(r),
        ));
        assert(tag_ready(before, mid, call@, tag));
    }
    r
}

/// Whether at most one frame id was handed out, and frames only added.
pub open spec fn ids_kept(s: MachineModel, now: MachineModel) -> bool {
    &&& s.ids <= now.ids <= s.ids + 1
    &&& s.frames.len() <= now.frames.len()
}

// ---------------------------------------------------------------------------
// Methods
// ---------------------------------------------------------------------------

/// The place of the body that a value stands for.
pub open spec fn body_place(m: HeapModel, body: Value) -> Option<int> {
    match body@ {
        Unpacked::Fixnum(n) => if 0 <= n < m.definitions.all().len() {
            Some(n as int)
        } else {
            None
        },
        _ => None,
    }
}

/// The frames that an exit from a method looks for.
pub open spec fn method_links(id: u64) -> Links {
    Links { id, home: id, breaks: 0 }
}

/// What entering a method does: the block it was passed learns the frame that
/// a `break` in it ends, and the frame is entered.
pub open spec fn method_entered(
    before: HeapModel,
    after: HeapModel,
    s: MachineModel,
    now: MachineModel,
    call: PendingModel,
    place: int,
    r: Result<(), Error>,
) -> bool {
    let id = (s.ids + 1) as u64;
    let mid = call::break_set(before, call.block, id);
    let iseq = *before.definitions.all()[place]->Iseq_0;
    let nil = Value::pack(Unpacked::Nil);
    match r {
        Ok(_) => call::entered(
            mid,
            after,
            call::with_id(s),
            now,
            call,
            place as usize,
            iseq,
            nil,
            true,
            method_links(id),
        ),
        Err(e) => {
            &&& now == call::with_id(s)
            &&& e is Exhausted || call::not_entered(mid, call, iseq, nil, true, e)
        },
    }
}

/// Enter a method.
fn enter_method(
    scope: &mut HandleScope,
    machine: &mut Machine,
    call: &Pending,
    place: usize,
) -> (r: Result<(), Error>)
    requires
        old(scope).wf(),
        object::kernel_in(old(scope)@),
        machine::machine_ok(old(scope)@, old(machine)@),
        bind::pending_held(old(scope)@, call@),
        place < old(scope)@.definitions.all().len(),
        old(scope)@.definitions.all()[place as int] is Iseq,
        call.cref.0 < old(scope)@.classes.scopes().len(),
        old(machine)@.ids < MAX_IDS,
    ensures
        final(scope).wf(),
        final(scope).scopes() == old(scope).scopes(),
        machine::grown(old(scope)@, final(scope)@),
        final(scope)@.classes.table() == old(scope)@.classes.table(),
        machine::machine_ok(final(scope)@, final(machine)@),
        machine::costs(
            *old(scope),
            *final(scope),
            r,
            machine::weights(old(scope)@.definitions.all()) + call@.args.len() + 2,
        ),
        method_entered(
            old(scope)@,
            final(scope)@,
            old(machine)@,
            final(machine)@,
            call@,
            place as int,
            r,
        ),
{
    let ghost before = scope@;
    let ghost s = machine@;
    proof {
        machine::lemma_held_is_live(before, call.block);
        before.definitions.law_places();
    }
    let body = match Value::fixnum(place as i64) {
        Some(body) => body,
        None => Value::nil(),
    };
    let iseq = match scope.definitions().get(body) {
        Some(Definition::Iseq(iseq)) => bytecode::share(iseq),
        _ => {
            assert(false);
            return Err(Error::malformed("a body that is not code"));
        },
    };
    machine.ids = machine.ids + 1;
    let id: u64 = machine.ids;
    call::set_break_target(scope, call.block, id);
    let ghost mid = scope@;
    proof {
        assert(machine::grown(before, mid));
        machine::lemma_grown(before, mid);
        call::lemma_pending_held(before, mid, call@);
        assert(machine@ =~= call::with_id(s));
        assert(machine::machine_ok(mid, s));
        assert(machine::machine_ok(mid, machine@)) by {
            assert forall|i: int| 0 <= i < machine@.frames.len() implies machine::call_ok(
                mid,
                #[trigger] machine@.frames[i],
            ) by {
                assert(machine@.frames[i] == s.frames[i]);
            }
        }
    }
    let links = Links { id, home: id, breaks: 0 };
    let nil = Value::nil();
    proof {
        machine::lemma_weight(before.definitions.all(), place as int);
    }
    let r = call::push_frame(
        scope,
        machine,
        call,
        place,
        &iseq,
        nil,
        Binding::Strict,
        links,
    );
    proof {
        call::lemma_grown_trans(before, mid, scope@);
    }
    r
}

/// Whether `new` makes a plain object of an entry: it is `Object`,
/// `BasicObject`, or not a builtin.
pub open spec fn is_plain(id: ClassId) -> bool {
    id.0 >= kernel::BUILTINS || id == Builtin::Object.class_id() || id
        == Builtin::BasicObject.class_id()
}

/// What Ruby says of arguments that nothing takes.
pub open spec fn none_expected(given: nat) -> Seq<char> {
    "wrong number of arguments (given "@ + text::digits(given, 10) + ", expected 0)"@
}

/// What `new` comes to.
pub open spec fn new_outcome<F: Floats>(
    floats: &F,
    before: HeapModel,
    after: HeapModel,
    s: MachineModel,
    now: MachineModel,
    call: PendingModel,
    r: Result<Option<Unwind>, Error>,
) -> bool {
    match object::class_id_of_value(before, call.receiver) {
        None => {
            &&& stays(before, after, s, now)
            &&& r matches Err(e) && exists|shown: Seq<char>|
                {
                    &&& #[trigger] equal::names_class(floats, before, call.receiver, shown)
                    &&& error::raises(
                        e,
                        "NoMethodError"@,
                        "undefined method 'new' for an instance of "@ + shown,
                    )
                }
        },
        Some(id) => {
            let entry = before.classes.table()[id.0 as int];
            if object::below_exception(before, id) {
                if entry.name matches Some(name) && exception::has_own_initialize(name) {
                    &&& stays(before, after, s, now)
                    &&& r matches Err(e) && error::leaves_open(
                        e,
                        "`new` on an exception class with its own `initialize`"@,
                        "`core/*.rb` defines that initialize (#15)"@,
                    )
                } else {
                    new_exception(floats, before, after, s, now, call, id, r)
                }
            } else if !is_plain(id) {
                &&& stays(before, after, s, now)
                &&& r matches Err(e) && error::leaves_open(
                    e,
                    "`new` on a built-in class"@,
                    "`core/*.rb` defines how one is allocated (#15)"@,
                )
            } else if entry.kind is Module {
                &&& stays(before, after, s, now)
                &&& r matches Err(e) && error::raises(
                    e,
                    "NoMethodError"@,
                    "undefined method 'new' for module "@ + match entry.name {
                        Some(name) => name,
                        None => "an anonymous module"@,
                    },
                )
            } else {
                ||| r matches Err(e) && e is Exhausted
                ||| exists|mid: HeapModel, made: Value|
                    {
                        &&& #[trigger] make::made(
                            before,
                            mid,
                            made,
                            make::slots_object(Some(entry.object), Seq::empty()),
                        )
                        &&& initialized(mid, after, s, now, call, id, made, r)
                    }
            }
        },
    }
}

/// What `new` on an exception class comes to.
pub open spec fn new_exception<F: Floats>(
    floats: &F,
    before: HeapModel,
    after: HeapModel,
    s: MachineModel,
    now: MachineModel,
    call: PendingModel,
    id: ClassId,
    r: Result<Option<Unwind>, Error>,
) -> bool {
    match r {
        Ok(u) => {
            &&& u is None
            &&& now == s.pushing(now.stack.last())
            &&& exists|message: Seq<char>|
                {
                    &&& #[trigger] exception_text(floats, before, id, first(call.args), message)
                    &&& make::exception_made(
                        before,
                        after,
                        now.stack.last(),
                        before.classes.table()[id.0 as int].object,
                        message,
                    )
                }
        },
        Err(e) => e is Exhausted && now == s,
    }
}

/// What running `initialize` on a new object comes to. The object stays below
/// the frame, which leaves it there. Where there is no `initialize`, it takes
/// no arguments.
pub open spec fn initialized(
    before: HeapModel,
    after: HeapModel,
    s: MachineModel,
    now: MachineModel,
    call: PendingModel,
    id: ClassId,
    made: Value,
    r: Result<Option<Unwind>, Error>,
) -> bool {
    match bind::method_named(before, id, "initialize"@) {
        None => if call.args.len() + call.keywords.len() > 0 {
            &&& stays(before, after, s, now)
            &&& r matches Err(e) && error::raises(
                e,
                "ArgumentError"@,
                none_expected((call.args.len() + call.keywords.len()) as nat),
            )
        } else {
            pushes(before, after, s, now, made, r)
        },
        Some(method) => {
            let place = body_place(before, method.body);
            if place is Some && before.definitions.all()[place->0] is Iseq {
                if method.cref.0 >= before.classes.scopes().len() {
                    &&& r matches Err(e) && e is Malformed
                    &&& now == s.pushing(made)
                } else {
                    let inner = PendingModel {
                        name: initialize_name(before),
                        receiver: made,
                        cref: method.cref,
                        ..call
                    };
                    exists|entered: MachineModel|
                        {
                            &&& #[trigger] method_entered(
                                before,
                                after,
                                s.pushing(made),
                                entered,
                                inner,
                                place->0,
                                unit(r),
                            )
                            &&& now == match r {
                                Ok(_) => entered.with_top(
                                    CallModel { keeps_receiver: true, ..entered.top() },
                                ),
                                Err(_) => entered,
                            }
                            &&& r matches Ok(u) ==> u is None
                        }
                }
            } else {
                pushes(before, after, s, now, made, r)
            }
        },
    }
}

/// The symbol of `initialize`.
pub open spec fn initialize_name(m: HeapModel) -> crate::value::SymbolId {
    crate::value::SymbolId(m.symbols@.index_of("initialize"@) as u32)
}

/// `new`.
fn native_new<F: Floats>(
    scope: &mut HandleScope,
    machine: &mut Machine,
    call: Pending,
    floats: &F,
) -> (r: Result<Option<Unwind>, Error>)
    requires
        old(scope).wf(),
        object::kernel_in(old(scope)@),
        machine::machine_ok(old(scope)@, old(machine)@),
        bind::pending_held(old(scope)@, call@),
        old(machine)@.ids < MAX_IDS,
    ensures
        final(scope).wf(),
        final(scope).scopes() == old(scope).scopes(),
        machine::grown(old(scope)@, final(scope)@),
        machine::machine_ok(final(scope)@, final(machine)@),
        ids_kept(old(machine)@, final(machine)@),
        machine::costs(*old(scope), *final(scope), r, call_cost(old(scope)@, call@)),
        new_outcome(floats, old(scope)@, final(scope)@, old(machine)@, final(machine)@, call@, r),
{
    let ghost before = scope@;
    let ghost s = machine@;
    proof {
        machine::lemma_held_is_live(before, call.receiver);
        if call@.args.len() > 0 {
            assert(machine::held(before, call@.args[0]));
            machine::lemma_held_is_live(before, call@.args[0]);
        }
    }
    let id = match object::class_id_of(scope, call.receiver) {
        Some(id) => id,
        None => {
            let shown = equal::class_name(scope, call.receiver, floats);
            return Err(
                Error::raise_text(
                    "NoMethodError",
                    text::join("undefined method 'new' for an instance of ", shown.as_str()),
                ),
            );
        },
    };
    proof {
        boot::lemma_class_objects_reachable(before, id.0 as int);
    }
    if object::is_exception_class(scope, id) {
        if let Some(name) = object::entry_name(scope, id) {
            if exception::exception_defines_initialize(name.as_str()) {
                return Err(
                    Error::open_question(
                        "`new` on an exception class with its own `initialize`",
                        "`core/*.rb` defines that initialize (#15)",
                    ),
                );
            }
        }
        let message = exception_words(scope, id, first_of(&call.args), floats);
        let class = scope.classes().object(id);
        return match make::exception_of(scope, class, message.as_str()) {
            Ok(value) => {
                machine.stack.push(value);
                proof {
                    machine::lemma_grown(before, scope@);
                    assert(machine::machine_ok(scope@, s));
                    assert(machine::held(scope@, value));
                    call::lemma_pushed(scope@, s, value);
                    assert(machine@ =~= s.pushing(value));
                }
                Ok(None)
            },
            Err(e) => {
                proof {
                    machine::lemma_grown(before, scope@);
                }
                Err(e)
            },
        };
    }
    let plain = id.index() >= kernel::BUILTINS || id == Builtin::Object.id() || id
        == Builtin::BasicObject.id();
    if !plain {
        return Err(
            Error::open_question(
                "`new` on a built-in class",
                "`core/*.rb` defines how one is allocated (#15)",
            ),
        );
    }
    if scope.classes().kind(id) == Kind::Module {
        let name = match object::entry_name(scope, id) {
            Some(name) => name,
            None => "an anonymous module".to_owned(),
        };
        return Err(
            Error::raise_text(
                "NoMethodError",
                text::join("undefined method 'new' for module ", name.as_str()),
            ),
        );
    }
    let class = scope.classes().object(id);
    let value = match make::new_slots(scope, Some(class), Vec::new()) {
        Ok(value) => value,
        Err(e) => {
            return Err(e);
        },
    };
    let ghost mid = scope@;
    proof {
        assert(machine::grown(before, mid));
        machine::lemma_grown(before, mid);
        call::lemma_pending_held(before, mid, call@);
        assert(machine::machine_ok(mid, s));
        assert(machine::held(mid, value));
        let none: Seq<Value> = Seq::empty();
        assert(make::slots_object(Some(class), none) =~= mid.object(value));
        assert(make::made(before, mid, value, make::slots_object(Some(class), none)));
    }
    let method = match bind::find_method(scope, id, "initialize") {
        Some(method) => method,
        None => {
            let given: u64 = call.args.len() as u64;
            let named: u64 = call.keywords.len() as u64;
            if given > 0 || named > 0 {
                if named > u64::MAX - given {
                    return Err(Error::exhausted("this many arguments"));
                }
                let count = text::number(given + named, 10);
                return Err(
                    Error::raise_text(
                        "ArgumentError",
                        text::join3(
                            "wrong number of arguments (given ",
                            count.as_str(),
                            ", expected 0)",
                        ),
                    ),
                );
            }
            machine.stack.push(value);
            proof {
                call::lemma_pushed(mid, s, value);
                assert(machine@ =~= s.pushing(value));
                assert(pushes(mid, mid, s, machine@, value, Ok(None)));
            }
            return Ok(None);
        },
    };
    machine.stack.push(value);
    let ghost pushed = machine@;
    proof {
        call::lemma_pushed(mid, s, value);
        assert(pushed =~= s.pushing(value));
    }
    let place: Option<usize> = match scope.definitions().get(method.body) {
        Some(Definition::Iseq(_)) => match method.body.as_fixnum() {
            Some(n) => {
                let total: usize = scope.definitions().len();
                Some(n as usize)
            },
            None => None,
        },
        _ => None,
    };
    let place: usize = match place {
        Some(place) => place,
        None => {
            return Ok(None);
        },
    };
    let scopes: usize = scope.classes().scope_count();
    if method.cref.index() >= scopes {
        return Err(Error::malformed("a lexical scope that does not exist"));
    }
    let name = match scope.symbols().find("initialize") {
        Some(name) => name,
        None => call.name,
    };
    proof {
        mid.symbols.law_table();
        let names = mid.symbols@;
        assert(names[names.index_of("initialize"@)] == "initialize"@);
        assert(name == initialize_name(mid));
    }
    let inner = Pending {
        name,
        receiver: value,
        args: call.args,
        keywords: call.keywords,
        block: call.block,
        block_is_literal: call.block_is_literal,
        cref: method.cref,
        target: call.target,
    };
    let ghost wanted = PendingModel {
        name: initialize_name(mid),
        receiver: value,
        cref: method.cref,
        ..call@
    };
    proof {
        assert(inner@ =~= wanted);
        assert(bind::pending_held(mid, inner@));
    }
    let done = enter_method(scope, machine, &inner, place);
    let ghost entered = machine@;
    proof {
        call::lemma_grown_trans(before, mid, scope@);
    }
    let r: Result<Option<Unwind>, Error> = match done {
        Ok(_) => {
            let last: usize = machine.frames.len() - 1;
            machine.frames[last].keeps_receiver = true;
            proof {
                assert(machine@ =~= entered.with_top(
                    CallModel { keeps_receiver: true, ..entered.top() },
                ));
                assert forall|i: int| 0 <= i < machine@.frames.len() implies machine::call_ok(
                    scope@,
                    #[trigger] machine@.frames[i],
                ) by {
                    assert(machine::call_ok(scope@, entered.frames[i]));
                }
            }
            Ok(None)
        },
        Err(e) => Err(e),
    };
    proof {
        assert(method_entered(
            mid,
            scope@,
            s.pushing(value),
            entered,
            wanted,
            place as int,
            unit(r),
        ));
        assert(initialized(mid, scope@, s, machine@, call@, id, value, r));
    }
    r
}

// ---------------------------------------------------------------------------
// Dispatch
// ---------------------------------------------------------------------------

/// A heap that may remember another lookup.
pub open spec fn looked(before: HeapModel, after: HeapModel) -> bool {
    &&& after == (HeapModel { classes: after.classes, ..before })
    &&& after.classes.table() == before.classes.table()
    &&& after.classes.scopes() == before.classes.scopes()
    &&& after.classes.generation() == before.classes.generation()
}

/// Whether a frame with a block runs.
pub open spec fn block_given(s: MachineModel) -> bool {
    s.frames.len() > 0 && s.top().block != Value::pack(Unpacked::Nil)
}

/// What a primitive method comes to.
pub open spec fn native_done<F: Floats>(
    floats: &F,
    native: Native,
    before: HeapModel,
    after: HeapModel,
    s: MachineModel,
    now: MachineModel,
    call: PendingModel,
    r: Result<Option<Unwind>, Error>,
) -> bool
    decreases call.args.len(), 0int,
{
    let nil = Value::pack(Unpacked::Nil);
    match native {
        Native::Call => {
            &&& call::proc_entered(before, after, s, now, call, call.receiver, unit(r))
            &&& r matches Ok(u) ==> u is None
        },
        Native::Send => if call.args.len() == 0 {
            &&& r matches Err(e) && error::raises(e, "ArgumentError"@, "no method name given"@)
            &&& stays(before, after, s, now)
        } else {
            match call.args[0]@ {
                Unpacked::Symbol(name) => dispatched(
                    floats,
                    before,
                    after,
                    s,
                    now,
                    PendingModel {
                        name,
                        args: call.args.skip(1),
                        target: Target::Method,
                        ..call
                    },
                    r,
                ),
                _ => {
                    &&& r matches Err(e) && error::refuses(
                        e,
                        "send"@,
                        "a method name that is not a Symbol"@,
                    )
                    &&& stays(before, after, s, now)
                },
            }
        },
        Native::MakeProc { lambda } => proc_made(before, after, s, now, call, lambda, r),
        Native::IsLambda => proc_asked(before, after, s, now, call.receiver, false, r),
        Native::Arity => proc_asked(before, after, s, now, call.receiver, true, r),
        Native::BlockGiven => pushes(before, after, s, now, object::truth(block_given(s)), r),
        Native::ClassOf => class_asked(before, after, s, now, call.receiver, r),
        Native::New => new_outcome(floats, before, after, s, now, call, r),
        Native::Equal => pushes(
            before,
            after,
            s,
            now,
            object::truth(
                call.receiver == match first(call.args) {
                    Some(v) => v,
                    None => nil,
                },
            ),
            r,
        ),
        Native::NilP => pushes(before, after, s, now, object::truth(call.receiver == nil), r),
        Native::ArrayPlus => arrays_joined(before, after, s, now, call, r),
        Native::Getter(slot) => slot_accessed(
            before,
            after,
            s,
            now,
            call.receiver,
            slot,
            None,
            r,
        ),
        Native::Setter(slot) => slot_accessed(
            before,
            after,
            s,
            now,
            call.receiver,
            slot,
            Some(
                match first(call.args) {
                    Some(v) => v,
                    None => nil,
                },
            ),
            r,
        ),
        Native::Raise => {
            &&& now == s
            &&& raise_outcome(
                floats,
                before,
                after,
                if s.frames.len() > 0 {
                    s.top().rescued
                } else {
                    None
                },
                call.args,
                raised_value(r),
            )
            &&& r matches Ok(u) ==> (u matches Some(x) && x is Exception)
        },
        Native::Throw => thrown(floats, before, s, now, call.args, r) && after == before,
        Native::Catch => caught(before, after, s, now, call, r),
        Native::ExceptionMessage => message_asked(before, after, s, now, call.receiver, r),
        Native::ExceptionBacktrace => pushes(before, after, s, now, nil, r),
    }
}

/// The exception that a result raises.
pub open spec fn raised_value(r: Result<Option<Unwind>, Error>) -> Result<Value, Error> {
    match r {
        Ok(Some(Unwind::Exception(v))) => Ok(v),
        Ok(_) => Ok(Value::pack(Unpacked::Nil)),
        Err(e) => Err(e),
    }
}

/// What dispatching a call comes to.
pub open spec fn dispatched<F: Floats>(
    floats: &F,
    before: HeapModel,
    after: HeapModel,
    s: MachineModel,
    now: MachineModel,
    call: PendingModel,
    r: Result<Option<Unwind>, Error>,
) -> bool
    decreases call.args.len(), 1int,
{
    match call.target {
        Target::Block(block) => {
            &&& call::proc_entered(before, after, s, now, call, block, unit(r))
            &&& r matches Ok(u) ==> u is None
        },
        Target::Method => match object::class_of_value(before, call.receiver) {
            None => {
                &&& r matches Err(e) && error::refuses(
                    e,
                    "a method call"@,
                    object::classless(call.receiver),
                )
                &&& stays(before, after, s, now)
            },
            Some(id) => {
                let t = before.classes.table();
                match class::lookup_of(t, id.0 as int, call.name) {
                    None => {
                        &&& looked(before, after)
                        &&& now == s
                        &&& r matches Err(e) && if allocates_class(before, call) {
                            error::leaves_open(
                                e,
                                "an uninitialised class or module"@,
                                "classes can be defined in two steps"@,
                            )
                        } else {
                            error::lacks(
                                e,
                                object::symbol_text(before, call.name),
                                match t[id.0 as int].name {
                                    Some(name) => name,
                                    None => "an anonymous class"@,
                                },
                            )
                        }
                    },
                    Some(method) => exists|mid: HeapModel|
                        {
                            &&& #[trigger] looked(before, mid)
                            &&& match body_place(before, method.body) {
                                None => {
                                    &&& r matches Err(e) && e is Malformed
                                    &&& stays(mid, after, s, now)
                                },
                                Some(place) => match before.definitions.all()[place] {
                                    Definition::Native(native) => native_done(
                                        floats,
                                        native,
                                        mid,
                                        after,
                                        s,
                                        now,
                                        call,
                                        r,
                                    ),
                                    Definition::Iseq(_) => if method.cref.0
                                        >= before.classes.scopes().len() {
                                        &&& r matches Err(e) && e is Malformed
                                        &&& stays(mid, after, s, now)
                                    } else {
                                        &&& method_entered(
                                            mid,
                                            after,
                                            s,
                                            now,
                                            PendingModel { cref: method.cref, ..call },
                                            place,
                                            unit(r),
                                        )
                                        &&& r matches Ok(u) ==> u is None
                                    },
                                },
                            }
                        },
                }
            },
        },
    }
}

/// Whether a call asks `Class` or `Module` for an instance that is not set up.
pub open spec fn allocates_class(m: HeapModel, call: PendingModel) -> bool {
    &&& object::symbol_text(m, call.name) == "allocate"@
    &&& object::class_id_of_value(m, call.receiver) matches Some(id) && (id
        == Builtin::Class.class_id() || id == Builtin::Module.class_id())
}

/// How many entries a call may need: those of the longest code it can enter,
/// its arguments, and what is made on the way.
pub open spec fn call_cost(m: HeapModel, call: PendingModel) -> nat {
    machine::weights(m.definitions.all()) + call.args.len() + call.keywords.len() + 4
}

/// What a call that needs at most `n` entries comes to: it takes up no more,
/// and runs out of room only where there is less, or where it joins two arrays
/// that are too long together.
pub open spec fn call_costs<T>(
    before: HandleScope,
    after: HandleScope,
    r: Result<T, Error>,
    n: nat,
    call: PendingModel,
) -> bool {
    &&& machine::spends(before@, before.room(), after@, after.room(), n)
    &&& machine::runs_out(r) ==> {
        ||| machine::tight(before@, before.room(), n)
        ||| call.target is Method && machine::overlong(before@, call.receiver, call.args)
    }
}

/// Perform a primitive method.
pub fn native_call<F: Floats>(
    scope: &mut HandleScope,
    machine: &mut Machine,
    call: Pending,
    native: Native,
    floats: &F,
) -> (r: Result<Option<Unwind>, Error>)
    requires
        old(scope).wf(),
        object::kernel_in(old(scope)@),
        machine::machine_ok(old(scope)@, old(machine)@),
        bind::pending_held(old(scope)@, call@),
        call@.target is Method,
        old(machine)@.ids < MAX_IDS,
    ensures
        final(scope).wf(),
        final(scope).scopes() == old(scope).scopes(),
        machine::grown(old(scope)@, final(scope)@),
        machine::machine_ok(final(scope)@, final(machine)@),
        ids_kept(old(machine)@, final(machine)@),
        r matches Ok(Some(u)) ==> machine::unwind_held(final(scope)@, u),
        call_costs(*old(scope), *final(scope), r, call_cost(old(scope)@, call@), call@),
        native_done(
            floats,
            native,
            old(scope)@,
            final(scope)@,
            old(machine)@,
            final(machine)@,
            call@,
            r,
        ),
    decreases call@.args.len(), 0int,
{
    let ghost before = scope@;
    let ghost s = machine@;
    match native {
        Native::Call => match call::push_proc_frame(scope, machine, &call, call.receiver) {
            Ok(_) => Ok(None),
            Err(e) => Err(e),
        },
        Native::Send => {
            if call.args.len() == 0 {
                return Err(Error::raise("ArgumentError", "no method name given"));
            }
            let name = match call.args[0].as_symbol() {
                Some(name) => name,
                None => {
                    return Err(Error::refuse("send", "a method name that is not a Symbol"));
                },
            };
            let mut args: Vec<Value> = bind::copy_values(&call.args);
            args.remove(0);
            let forwarded = Pending {
                name,
                receiver: call.receiver,
                args,
                keywords: call.keywords,
                block: call.block,
                block_is_literal: call.block_is_literal,
                cref: call.cref,
                target: Target::Method,
            };
            proof {
                let rest = call@.args.skip(1);
                assert(forwarded@.args =~= rest);
                assert(forwarded@ =~= (PendingModel {
                    name,
                    args: rest,
                    target: Target::Method,
                    ..call@
                }));
                assert(machine::all_held(before, rest)) by {
                    assert forall|i: int| 0 <= i < rest.len() implies machine::held(
                        before,
                        #[trigger] rest[i],
                    ) by {
                        assert(machine::held(before, call@.args[i + 1]));
                    }
                }
            }
            let done = dispatch(scope, machine, forwarded, floats);
            proof {
                if machine::overlong(before, call@.receiver, call@.args.skip(1)) {
                    let k = choose|k: int|
                        {
                            &&& 0 <= k < call@.args.skip(1).len()
                            &&& object::elements_in(before, call@.receiver) matches Some(left)
                            &&& object::elements_in(
                                before,
                                #[trigger] call@.args.skip(1)[k],
                            ) matches Some(right)
                            &&& left.len() + right.len() > u32::MAX
                        };
                    assert(call@.args[k + 1] == call@.args.skip(1)[k]);
                    assert(machine::overlong(before, call@.receiver, call@.args));
                }
            }
            done
        },
        Native::MakeProc { lambda } => native_make_proc(scope, machine, &call, lambda),
        Native::IsLambda => native_ask_proc(scope, machine, call.receiver, false),
        Native::Arity => native_ask_proc(scope, machine, call.receiver, true),
        Native::BlockGiven => {
            let given = if machine.frames.len() > 0 {
                let last: usize = machine.frames.len() - 1;
                assert(s.top() == machine.frames@[last as int]@);
                machine.frames[last].block != Value::nil()
            } else {
                false
            };
            push_immediate(scope, machine, bool_value(given))
        },
        Native::ClassOf => native_class(scope, machine, call.receiver),
        Native::New => native_new(scope, machine, call, floats),
        Native::Equal => {
            let other = match first_of(&call.args) {
                Some(other) => other,
                None => Value::nil(),
            };
            push_immediate(scope, machine, bool_value(call.receiver == other))
        },
        Native::NilP => push_immediate(scope, machine, bool_value(call.receiver == Value::nil())),
        Native::ArrayPlus => native_array_plus(scope, machine, &call),
        Native::Getter(slot) => native_slot(scope, machine, call.receiver, slot, None),
        Native::Setter(slot) => {
            let value = match first_of(&call.args) {
                Some(value) => {
                    assert(machine::held(before, call@.args[0]));
                    value
                },
                None => Value::nil(),
            };
            native_slot(scope, machine, call.receiver, slot, Some(value))
        },
        Native::Raise => {
            let rescued: Option<Value> = if machine.frames.len() > 0 {
                let last: usize = machine.frames.len() - 1;
                assert(s.top() == machine.frames@[last as int]@);
                assert(machine::call_ok(before, s.frames[last as int]));
                machine.frames[last].rescued
            } else {
                None
            };
            let raised = raise_argument(scope, rescued, &call.args, floats);
            proof {
                machine::lemma_grown(before, scope@);
            }
            match raised {
                Ok(exception) => Ok(Some(Unwind::Exception(exception))),
                Err(e) => Err(e),
            }
        },
        Native::Throw => native_throw(scope, machine, &call.args, floats),
        Native::Catch => native_catch(scope, machine, &call),
        Native::ExceptionMessage => native_message(scope, machine, call.receiver),
        Native::ExceptionBacktrace => push_immediate(scope, machine, Value::nil()),
    }
}

fn push_immediate(scope: &HandleScope, machine: &mut Machine, value: Value) -> (r: Result<
    Option<Unwind>,
    Error,
>)
    requires
        machine::machine_ok(scope@, old(machine)@),
        !(value@ is Heap),
    ensures
        machine::machine_ok(scope@, final(machine)@),
        pushes(scope@, scope@, old(machine)@, final(machine)@, value, r),
{
    let ghost s = machine@;
    machine.stack.push(value);
    proof {
        call::lemma_pushed(scope@, s, value);
        assert(machine@ =~= s.pushing(value));
    }
    Ok(None)
}

/// Dispatch a call: push a frame for it, or perform it outright.
pub fn dispatch<F: Floats>(
    scope: &mut HandleScope,
    machine: &mut Machine,
    call: Pending,
    floats: &F,
) -> (r: Result<Option<Unwind>, Error>)
    requires
        old(scope).wf(),
        object::kernel_in(old(scope)@),
        machine::machine_ok(old(scope)@, old(machine)@),
        bind::pending_held(old(scope)@, call@),
        old(machine)@.ids < MAX_IDS,
    ensures
        final(scope).wf(),
        final(scope).scopes() == old(scope).scopes(),
        machine::grown(old(scope)@, final(scope)@),
        machine::machine_ok(final(scope)@, final(machine)@),
        ids_kept(old(machine)@, final(machine)@),
        r matches Ok(Some(u)) ==> machine::unwind_held(final(scope)@, u),
        call_costs(*old(scope), *final(scope), r, call_cost(old(scope)@, call@), call@),
        dispatched(
            floats,
            old(scope)@,
            final(scope)@,
            old(machine)@,
            final(machine)@,
            call@,
            r,
        ),
    decreases call@.args.len(), 1int,
{
    let ghost before = scope@;
    let ghost s = machine@;
    if let Target::Block(block) = call.target {
        return match call::push_proc_frame(scope, machine, &call, block) {
            Ok(_) => Ok(None),
            Err(e) => Err(e),
        };
    }
    proof {
        machine::lemma_held_is_live(before, call.receiver);
    }
    let id = match object::class_of(scope, call.receiver) {
        Some(id) => id,
        None => {
            return Err(object::no_class(call.receiver));
        },
    };
    let found = scope.classes_mut().lookup(id, call.name);
    let ghost mid = scope@;
    proof {
        assert(before.keeps_classes(mid.classes)) by {
            assert forall|v: Value| #[trigger]
                class::is_class_root(mid.classes.table(), v) implies before.live(v) by {
                assert(before.is_root(v));
            }
        }
        assert(looked(before, mid));
        machine::lemma_grown(before, mid);
        call::lemma_pending_held(before, mid, call@);
        assert(machine::machine_ok(mid, s));
    }
    let method = match found {
        Some(method) => method,
        None => {
            let name = object::symbol_name(scope, call.name);
            let asked: String = "allocate".to_owned();
            if name == asked {
                if let Some(of) = object::class_id_of(scope, call.receiver) {
                    if of == Builtin::Class.id() || of == Builtin::Module.id() {
                        return Err(
                            Error::open_question(
                                "an uninitialised class or module",
                                "classes can be defined in two steps",
                            ),
                        );
                    }
                }
            }
            let class = match object::entry_name(scope, id) {
                Some(class) => class,
                None => "an anonymous class".to_owned(),
            };
            return Err(Error::NoSuchMethod { name, class });
        },
    };
    let body = match scope.definitions().get(method.body) {
        Some(definition) => definition.same(),
        None => {
            return Err(Error::malformed("a method without a body"));
        },
    };
    match body {
        Definition::Native(native) => native_call(scope, machine, call, native, floats),
        Definition::Iseq(_) => {
            let scopes: usize = scope.classes().scope_count();
            if method.cref.index() >= scopes {
                return Err(Error::malformed("a lexical scope that does not exist"));
            }
            let place: usize = match method.body.as_fixnum() {
                Some(n) => {
                    let total: usize = scope.definitions().len();
                    n as usize
                },
                None => 0,
            };
            let ghost wanted = PendingModel { cref: method.cref, ..call@ };
            let inner = Pending {
                name: call.name,
                receiver: call.receiver,
                args: call.args,
                keywords: call.keywords,
                block: call.block,
                block_is_literal: call.block_is_literal,
                cref: method.cref,
                target: call.target,
            };
            assert(inner@ =~= wanted);
            assert(bind::pending_held(mid, wanted));
            let done = enter_method(scope, machine, &inner, place);
            proof {
                call::lemma_grown_trans(before, mid, scope@);
            }
            match done {
                Ok(_) => Ok(None),
                Err(e) => Err(e),
            }
        },
    }
}

} // verus!
