//! An evaluation: a frame, and the loop that runs it.

use std::sync::Arc;

use vstd::prelude::*;

use crate::bytecode;
use crate::bytecode::Iseq;
use crate::class::{Builtin, CrefId};
use crate::double::Floats;
use crate::heap::{HandleScope, Heap, HeapModel};
use crate::interp::bind;
use crate::interp::call;
use crate::interp::call::MAX_IDS;
use crate::interp::error::Error;
use crate::interp::machine;
use crate::interp::machine::{Call, CallModel, Landing, Machine, MachineModel, Step, Unwind};
use crate::interp::make;
use crate::interp::object;
use crate::interp::step;
use crate::kernel;
use crate::value::{SymbolId, Unpacked, Value};

verus! {

broadcast use Value::law_pack;

/// How many instructions one evaluation may run before it is taken to be
/// stuck.
pub const BUDGET: u64 = 50_000_000;

// ---------------------------------------------------------------------------
// One turn
// ---------------------------------------------------------------------------

/// How a turn of the loop ended.
pub enum Turn {
    /// There is another.
    On,
    /// The evaluation has its value.
    Value(Value),
    /// It has none.
    Failed(Error),
}

/// Where an unwind took the machine, and what that makes of the turn.
pub open spec fn landed<F: Floats>(
    floats: &F,
    m: HeapModel,
    s: MachineModel,
    now: MachineModel,
    unwind: Unwind,
    turn: Turn,
) -> bool {
    let (out, landing) = machine::unwound(s, unwind);
    &&& now == out
    &&& match landing {
        Landing::Caught => turn is On,
        Landing::Finished(v) => turn == Turn::Value(v),
        Landing::Escaped => turn matches Turn::Failed(e) && machine::escaping(floats, m, unwind, e),
    }
}

/// A turn of the loop: an instruction, and the search for what wants an
/// unwind where there is one. What an instruction raises becomes an exception
/// object here, so any `rescue` can take it; that the machine cannot run a
/// program is no exception, and nothing takes it.
#[verifier::opaque]
pub open spec fn turned<F: Floats>(
    floats: &F,
    before: HeapModel,
    after: HeapModel,
    s: MachineModel,
    now: MachineModel,
    turn: Turn,
) -> bool {
    exists|mid: HeapModel, out: MachineModel, r: Result<Step, Error>|
        {
            &&& #[trigger] step::stepped(floats, before, mid, s, out, r)
            &&& match r {
                Ok(Step::Next) => turn is On && now == out && after == mid,
                Ok(Step::Done(v)) => turn == Turn::Value(v) && now == out && after == mid,
                Ok(Step::Unwind(u)) => landed(floats, mid, out, now, u, turn) && after == mid,
                Err(Error::Raise { class, message }) => raised(
                    floats,
                    mid,
                    after,
                    out,
                    now,
                    class@,
                    message@,
                    turn,
                ),
                Err(e) => turn == Turn::Failed(e) && now == out && after == mid,
            }
        }
}

/// What a raise makes of a turn.
pub open spec fn raised<F: Floats>(
    floats: &F,
    before: HeapModel,
    after: HeapModel,
    s: MachineModel,
    now: MachineModel,
    class: Seq<char>,
    message: Seq<char>,
    turn: Turn,
) -> bool {
    match kernel::constant_named(before, class) {
        None => {
            &&& turn matches Turn::Failed(e) && e is Malformed
            &&& now == s
        },
        Some(object) => {
            ||| (turn matches Turn::Failed(e) && e is Exhausted) && now == s
            ||| exists|v: Value|
                {
                    &&& #[trigger] make::exception_made(before, after, v, object, message)
                    &&& landed(floats, after, s, now, Unwind::Exception(v), turn)
                }
        },
    }
}

/// What a turn takes up of a heap's room, and when it may run out of it.
pub open spec fn paid(
    before: HeapModel,
    room: int,
    after: HeapModel,
    left: int,
    s: MachineModel,
    turn: Turn,
) -> bool {
    let cost = step::step_cost(before, s) + 2;
    &&& machine::spends(before, room, after, left, cost)
    &&& turn matches Turn::Failed(e) ==> e is Exhausted ==> step::strained(before, room, s, cost)
}

/// What every turn keeps.
pub open spec fn turn_keeps(
    before: HeapModel,
    after: HeapModel,
    s: MachineModel,
    now: MachineModel,
    turn: Turn,
) -> bool {
    &&& machine::grown(before, after)
    &&& machine::machine_ok(after, now)
    &&& s.ids <= now.ids <= s.ids + 1
    &&& turn is On ==> now.frames.len() > 0
    &&& turn matches Turn::Value(v) ==> machine::held(after, v)
}

/// Find what wants an unwind.
fn land<F: Floats>(scope: &HandleScope, machine: &mut Machine, unwind: Unwind, floats: &F) -> (r:
    Turn)
    requires
        scope.wf(),
        object::kernel_in(scope@),
        machine::machine_ok(scope@, old(machine)@),
        machine::unwind_held(scope@, unwind),
    ensures
        landed(floats, scope@, old(machine)@, final(machine)@, unwind, r),
        turn_keeps(scope@, scope@, old(machine)@, final(machine)@, r),
        final(machine)@.ids == old(machine)@.ids,
{
    proof {
        machine::law_unwinding(scope@, machine@, unwind);
    }
    match machine.unwind_to_handler(unwind) {
        Landing::Caught => Turn::On,
        Landing::Finished(v) => Turn::Value(v),
        Landing::Escaped => Turn::Failed(machine::escaped(scope, unwind, floats)),
    }
}

/// One turn of the loop.
pub fn turn<F: Floats>(scope: &mut HandleScope, machine: &mut Machine, floats: &F) -> (r: Turn)
    requires
        old(scope).wf(),
        object::kernel_in(old(scope)@),
        machine::machine_ok(old(scope)@, old(machine)@),
        old(machine)@.frames.len() > 0,
        old(machine)@.ids < MAX_IDS,
    ensures
        final(scope).wf(),
        final(scope).scopes() == old(scope).scopes(),
        turned(floats, old(scope)@, final(scope)@, old(machine)@, final(machine)@, r),
        paid(
            old(scope)@,
            old(scope).room(),
            final(scope)@,
            final(scope).room(),
            old(machine)@,
            r,
        ),
        turn_keeps(old(scope)@, final(scope)@, old(machine)@, final(machine)@, r),
{
    let ghost before = scope@;
    let ghost s = machine@;
    proof {
        reveal(turned);
    }
    let outcome = step::step(scope, machine, floats);
    let ghost mid = scope@;
    let ghost out = machine@;
    let ghost did = outcome;
    assert(step::stepped(floats, before, mid, s, out, did));
    match outcome {
        Ok(Step::Next) => Turn::On,
        Ok(Step::Done(v)) => Turn::Value(v),
        Ok(Step::Unwind(u)) => land(scope, machine, u, floats),
        Err(Error::Raise { class, message }) => {
            let made = make::exception_new(scope, class, message.as_str());
            proof {
                assert(machine::grown(mid, scope@));
                machine::lemma_grown(mid, scope@);
                call::lemma_grown_trans(before, mid, scope@);
            }
            match made {
                Ok(v) => {
                    assert(machine::held(scope@, v));
                    let r = land(scope, machine, Unwind::Exception(v), floats);
                    assert(raised(floats, mid, scope@, out, machine@, class@, message@, r));
                    r
                },
                Err(e) => Turn::Failed(e),
            }
        },
        Err(e) => Turn::Failed(e),
    }
}

// ---------------------------------------------------------------------------
// The loop
// ---------------------------------------------------------------------------

/// An evaluation with so many turns left: it ends with a value, with an error,
/// or when the turns run out, and leaves so much room. It runs out of room only
/// in a turn that needs more than there is.
pub open spec fn runs<F: Floats>(
    floats: &F,
    before: HeapModel,
    room: int,
    s: MachineModel,
    turns: nat,
    after: HeapModel,
    rest: int,
    r: Result<Value, Error>,
) -> bool
    decreases turns,
{
    if turns == 0 {
        (r matches Err(e) && e is Budget) && after == before && rest == room
    } else {
        exists|mid: HeapModel, left: int, now: MachineModel, turn: Turn|
            {
                &&& #[trigger] turned(floats, before, mid, s, now, turn)
                &&& #[trigger] paid(before, room, mid, left, s, turn)
                &&& match turn {
                    Turn::On => runs(floats, mid, left, now, (turns - 1) as nat, after, rest, r),
                    Turn::Value(v) => r == Ok::<Value, Error>(v) && after == mid && rest
                        == left,
                    Turn::Failed(e) => r == Err::<Value, Error>(e) && after == mid && rest == left,
                }
            }
    }
}

/// Run the machine.
pub fn run<F: Floats>(scope: &mut HandleScope, machine: &mut Machine, floats: &F) -> (r: Result<
    Value,
    Error,
>)
    requires
        old(scope).wf(),
        object::kernel_in(old(scope)@),
        machine::machine_ok(old(scope)@, old(machine)@),
        old(machine)@.frames.len() > 0,
        old(machine)@.ids <= 1,
    ensures
        final(scope).wf(),
        final(scope).scopes() == old(scope).scopes(),
        machine::grown(old(scope)@, final(scope)@),
        runs(
            floats,
            old(scope)@,
            old(scope).room(),
            old(machine)@,
            BUDGET as nat,
            final(scope)@,
            final(scope).room(),
            r,
        ),
        r matches Ok(v) ==> machine::held(final(scope)@, v),
{
    let ghost before = scope@;
    let ghost room = scope.room();
    let ghost s = machine@;
    let mut budget: u64 = BUDGET;
    while budget > 0
        invariant
            budget <= BUDGET,
            before == old(scope)@,
            room == old(scope).room(),
            s == old(machine)@,
            scope.wf(),
            scope.scopes() == old(scope).scopes(),
            object::kernel_in(scope@),
            machine::machine_ok(scope@, machine@),
            machine@.frames.len() > 0,
            machine@.ids <= 1 + (BUDGET - budget),
            machine::grown(before, scope@),
            forall|after: HeapModel, rest: int, r: Result<Value, Error>| #[trigger]
                runs(floats, scope@, scope.room(), machine@, budget as nat, after, rest, r) ==> runs(
                    floats,
                    before,
                    room,
                    s,
                    BUDGET as nat,
                    after,
                    rest,
                    r,
                ),
        decreases budget,
    {
        let ghost here = scope@;
        let ghost had = scope.room();
        let ghost at = machine@;
        let ghost left = budget;
        let turn = turn(scope, machine, floats);
        budget = budget - 1;
        let ghost went = turn;
        proof {
            call::lemma_grown_trans(before, here, scope@);
            assert(turned(floats, here, scope@, at, machine@, went));
            assert(paid(here, had, scope@, scope.room(), at, went));
            assert forall|after: HeapModel, rest: int, r: Result<Value, Error>| #[trigger]
                runs(floats, scope@, scope.room(), machine@, budget as nat, after, rest, r)
                    && went is On implies runs(
                floats,
                before,
                room,
                s,
                BUDGET as nat,
                after,
                rest,
                r,
            ) by {
                assert(runs(floats, here, had, at, left as nat, after, rest, r));
            }
        }
        match turn {
            Turn::On => {},
            Turn::Value(v) => {
                assert(runs(floats, here, had, at, left as nat, scope@, scope.room(), Ok(v)));
                return Ok(v);
            },
            Turn::Failed(e) => {
                assert(runs(floats, here, had, at, left as nat, scope@, scope.room(), Err(e)));
                return Err(e);
            },
        }
    }
    let r: Result<Value, Error> = Err(Error::Budget);
    assert(runs(floats, scope@, scope.room(), machine@, 0, scope@, scope.room(), r));
    r
}

// ---------------------------------------------------------------------------
// The outermost scope
// ---------------------------------------------------------------------------

/// The scope an evaluation runs in.
///
/// Kept across evaluations, its locals are seen by the next one: they live in
/// an environment of the heap, as those of every scope do.
#[derive(Debug, Clone)]
pub struct Frame {
    /// The environment, `nil` before the first evaluation.
    pub env: Value,
    /// How many locals there is room for.
    pub slots: usize,
    /// `self`, `nil` before the first evaluation.
    pub receiver: Value,
    /// The lexical scope the code is read in.
    pub cref: CrefId,
}

/// A frame in order on a heap.
pub open spec fn frame_ok(m: HeapModel, f: Frame) -> bool {
    &&& machine::held(m, f.env)
    &&& machine::held(m, f.receiver)
    &&& f.cref.0 < m.classes.scopes().len()
}

/// A frame as it is made, with room for so many locals.
pub open spec fn fresh_frame(f: Frame, slots: nat) -> bool {
    f.env@ is Nil && f.receiver@ is Nil && f.slots == slots && f.cref == CrefId(0)
}

/// The locals an environment holds; none where it is not one.
pub open spec fn kept_locals(m: HeapModel, env: Value) -> Seq<Value> {
    match make::env_locals(m, env) {
        Some(locals) => locals,
        None => Seq::empty(),
    }
}

/// An environment with room for so many locals: the one there is where it is
/// wide enough, or a wider one with the same locals.
pub open spec fn env_fitted(
    before: HeapModel,
    after: HeapModel,
    env: Value,
    slots: nat,
    fitted: Value,
) -> bool {
    let kept = kept_locals(before, env);
    if make::env_locals(before, env) is Some && kept.len() >= slots {
        fitted == env && after == before
    } else {
        exists|mid: HeapModel|
            {
                &&& #[trigger] call::rooted_more(before, mid)
                &&& make::made(
                    mid,
                    after,
                    fitted,
                    make::slots_object(None, widened(kept, slots)),
                )
            }
    }
}

/// The slots of a wider environment.
pub open spec fn widened(kept: Seq<Value>, slots: nat) -> Seq<Value> {
    Seq::new(
        slots + 1,
        |i: int|
            if 1 <= i <= kept.len() {
                kept[i - 1]
            } else {
                Value::pack(Unpacked::Nil)
            },
    )
}

impl Frame {
    /// A frame with room for so many locals, all `nil`.
    #[must_use]
    pub fn new(slots: usize) -> (r: Frame)
        ensures
            fresh_frame(r, slots as nat),
    {
        Frame { env: Value::nil(), slots, receiver: Value::nil(), cref: CrefId(0) }
    }

    /// Grow to hold at least so many locals, keeping those already set.
    pub fn reserve(&mut self, slots: usize)
        ensures
            *final(self) == (Frame {
                slots: if old(self).slots < slots {
                    slots
                } else {
                    old(self).slots
                },
                ..*old(self)
            }),
    {
        if self.slots < slots {
            self.slots = slots;
        }
    }

    /// The environment, made or widened to fit.
    fn fit(&mut self, scope: &mut HandleScope) -> (r: Result<Value, Error>)
        requires
            old(scope).wf(),
            machine::held(old(scope)@, old(self).env),
        ensures
            final(scope).wf(),
            final(scope).scopes() == old(scope).scopes(),
            final(scope).room() >= old(scope).room() - 1,
            machine::grown(old(scope)@, final(scope)@),
            match r {
                Ok(v) => {
                    &&& machine::held(final(scope)@, v)
                    &&& env_fitted(
                        old(scope)@,
                        final(scope)@,
                        old(self).env,
                        old(self).slots as nat,
                        v,
                    )
                    &&& *final(self) == (Frame { env: v, ..*old(self) })
                },
                Err(e) => {
                    &&& e is Exhausted
                    &&& !make::fits(*old(scope), old(self).slots as nat + 1)
                    &&& *final(self) == *old(self)
                },
            },
    {
        let ghost before = scope@;
        let env = self.env;
        let needed: usize = self.slots;
        proof {
            machine::lemma_held_is_live(before, env);
        }
        let existing = make::env_len(scope, env);
        if let Some(len) = existing {
            if len >= needed {
                return Ok(env);
            }
        }
        if needed >= u32::MAX as usize {
            return Err(Error::exhausted("more locals"));
        }
        let len: usize = match existing {
            Some(len) => len,
            None => 0,
        };
        let ghost kept = kept_locals(before, env);
        let mut slots: Vec<Value> = Vec::new();
        slots.push(Value::nil());
        let mut i: usize = 0;
        while i < needed
            invariant
                i <= needed < usize::MAX,
                len == kept.len(),
                kept == kept_locals(before, env),
                len > 0 ==> make::env_locals(before, env) is Some,
                scope.wf(),
                scope@ == before,
                scope@.live(env),
                slots@.len() == i + 1,
                forall|k: int|
                    0 <= k < slots@.len() ==> #[trigger] slots@[k] == widened(
                        kept,
                        needed as nat,
                    )[k],
                forall|k: int| 0 <= k < slots@.len() ==> before.live(#[trigger] slots@[k]),
            decreases needed - i,
        {
            let value = if i < len {
                match make::env_get(scope, env, i) {
                    Some(v) => v,
                    None => Value::nil(),
                }
            } else {
                Value::nil()
            };
            slots.push(value);
            i += 1;
        }
        bind::hold_all(scope, &slots);
        let ghost mid = scope@;
        proof {
            assert(slots@ =~= widened(kept, needed as nat));
            assert(call::rooted_more(before, mid));
        }
        match make::new_slots(scope, None, slots) {
            Ok(v) => {
                self.env = v;
                Ok(v)
            },
            Err(e) => Err(e),
        }
    }

    /// A local, where there is room for it.
    #[must_use]
    pub fn local(&self, scope: &HandleScope, slot: usize) -> (r: Option<Value>)
        requires
            scope.wf(),
            scope@.live(self.env),
        ensures
            r == make::env_local(scope@, self.env, slot as int),
    {
        make::env_get(scope, self.env, slot)
    }
}

// ---------------------------------------------------------------------------
// An evaluation
// ---------------------------------------------------------------------------

/// The object the outermost code runs on: the one there is, or a plain
/// `Object` without slots.
pub open spec fn main_ready(before: HeapModel, after: HeapModel, was: Value, now: Value) -> bool {
    if was != Value::pack(Unpacked::Nil) {
        now == was && after == before
    } else {
        make::made(
            before,
            after,
            now,
            make::slots_object(
                Some(object::builtin_object(before, Builtin::Object)),
                Seq::empty(),
            ),
        )
    }
}

/// The frame an evaluation starts with. Its own `return` target, it has no
/// call for a `break` to end.
pub open spec fn first_call(f: Frame, iseq: Iseq, symbols: Seq<SymbolId>) -> CallModel {
    CallModel {
        definition: None,
        iseq,
        symbols,
        env: f.env,
        receiver: f.receiver,
        block: Value::pack(Unpacked::Nil),
        cref: f.cref,
        pc: 0,
        base: 0,
        keeps_receiver: false,
        id: 1,
        home: 1,
        breaks: 0,
        tag: None,
        rescued: None,
        parked: Seq::empty(),
    }
}

/// The code's symbols linked. The body table is left alone.
pub open spec fn code_linked(
    before: HeapModel,
    after: HeapModel,
    iseq: Iseq,
    symbols: Seq<SymbolId>,
) -> bool {
    &&& after == (HeapModel { symbols: after.symbols, ..before })
    &&& after.symbols@ == bytecode::linked_table(
        before.symbols@,
        bytecode::pool(iseq.symbols@),
        iseq.symbols@.len() as int,
    )
    &&& call::links_to(after.symbols@, iseq, symbols)
}

/// A frame made ready to run code: room for its locals, a `self`, and the
/// code's symbols linked.
pub open spec fn prepared(
    before: HeapModel,
    ready: HeapModel,
    was: Frame,
    f: Frame,
    iseq: Iseq,
    s: MachineModel,
) -> bool {
    let wanted = iseq.locals@.len();
    exists|a: HeapModel, b: HeapModel|
        {
            &&& #[trigger] env_fitted(before, a, was.env, f.slots as nat, f.env)
            &&& #[trigger] main_ready(a, b, was.receiver, f.receiver)
            &&& f.slots == (if was.slots < wanted {
                wanted
            } else {
                was.slots as nat
            })
            &&& f.cref == was.cref
            &&& code_linked(b, ready, iseq, s.top().symbols)
            &&& s == (MachineModel {
                stack: Seq::empty(),
                frames: seq![first_call(f, iseq, s.top().symbols)],
                ids: 1,
            })
        }
}

/// Whether a heap has no room for an evaluation to start.
pub open spec fn cramped(m: HeapModel, room: int, f: Frame, iseq: Iseq) -> bool {
    ||| room < 2
    ||| f.slots >= u32::MAX
    ||| iseq.locals@.len() >= u32::MAX
    ||| m.symbols@.len() + iseq.symbols@.len() > u32::MAX
}

/// An evaluation: the frame is made ready, which makes two objects at most,
/// and the code runs.
pub open spec fn evaluated<F: Floats>(
    floats: &F,
    before: HeapModel,
    room: int,
    after: HeapModel,
    rest: int,
    was: Frame,
    f: Frame,
    iseq: Iseq,
    r: Result<Value, Error>,
) -> bool {
    exists|ready: HeapModel, left: int, s: MachineModel|
        {
            &&& #[trigger] prepared(before, ready, was, f, iseq, s)
            &&& left >= room - 2
            &&& #[trigger] runs(floats, ready, left, s, BUDGET as nat, after, rest, r)
        }
}

/// Make a frame ready to run code.
fn prepare(scope: &mut HandleScope, frame: &mut Frame, iseq: &Arc<Iseq>) -> (r: Result<
    Machine,
    Error,
>)
    requires
        old(scope).wf(),
        object::kernel_in(old(scope)@),
        frame_ok(old(scope)@, *old(frame)),
    ensures
        final(scope).wf(),
        final(scope).scopes() == old(scope).scopes(),
        machine::grown(old(scope)@, final(scope)@),
        frame_ok(final(scope)@, *final(frame)),
        final(scope).room() >= old(scope).room() - 2,
        match r {
            Ok(machine) => {
                &&& machine::machine_ok(final(scope)@, machine@)
                &&& prepared(
                    old(scope)@,
                    final(scope)@,
                    *old(frame),
                    *final(frame),
                    **iseq,
                    machine@,
                )
            },
            Err(e) => e is Exhausted && cramped(
                old(scope)@,
                old(scope).room(),
                *old(frame),
                **iseq,
            ),
        },
{
    let ghost before = scope@;
    let ghost was = *frame;
    let locals: usize = iseq.locals.len();
    frame.reserve(locals);
    let fitted = frame.fit(scope);
    let ghost a = scope@;
    proof {
        machine::lemma_grown(before, a);
    }
    let env = match fitted {
        Ok(env) => env,
        Err(e) => {
            return Err(e);
        },
    };
    if frame.receiver == Value::nil() {
        let class = scope.classes().object(Builtin::Object.id());
        proof {
            make::lemma_builtin_is_live(a, Builtin::Object);
        }
        let slots: Vec<Value> = Vec::new();
        let made = make::new_slots(scope, Some(class), slots);
        proof {
            assert(machine::grown(a, scope@));
            machine::lemma_grown(a, scope@);
            call::lemma_grown_trans(before, a, scope@);
        }
        match made {
            Ok(v) => {
                frame.receiver = v;
            },
            Err(e) => {
                return Err(e);
            },
        }
    }
    let ghost b = scope@;
    assert(main_ready(a, b, was.receiver, frame.receiver));
    let names: usize = iseq.symbols.len();
    let known: usize = scope.symbols().len();
    if names > u32::MAX as usize || known > (u32::MAX as usize) - names {
        return Err(Error::exhausted("more symbols"));
    }
    let symbols = iseq.link(scope.symbols_mut());
    let ghost ready = scope@;
    let call = Call {
        definition: None,
        iseq: bytecode::share(iseq),
        symbols,
        env,
        receiver: frame.receiver,
        block: Value::nil(),
        cref: frame.cref,
        pc: 0,
        base: 0,
        keeps_receiver: false,
        id: 1,
        home: 1,
        breaks: 0,
        tag: None,
        rescued: None,
        parked: Vec::new(),
    };
    let mut frames: Vec<Call> = Vec::new();
    frames.push(call);
    let machine = Machine { stack: Vec::new(), frames, ids: 1 };
    proof {
        bytecode::lemma_linked_table(
            b.symbols@,
            bytecode::pool(iseq.symbols@),
            iseq.symbols@.len() as int,
        );
        assert(machine::grown(b, ready));
        machine::lemma_grown(b, ready);
        call::lemma_grown_trans(before, b, ready);
        assert(machine@.top() =~= first_call(
            *frame,
            call::code_of(iseq),
            machine@.top().symbols,
        ));
        assert(machine::call_ok(ready, machine@.frames[0]));
        assert(code_linked(b, ready, call::code_of(iseq), machine@.top().symbols));
        assert(machine@ =~= (MachineModel {
            stack: Seq::empty(),
            frames: seq![first_call(*frame, call::code_of(iseq), machine@.top().symbols)],
            ids: 1,
        }));
        assert(env_fitted(before, a, was.env, frame.slots as nat, frame.env));
    }
    Ok(machine)
}

/// Run code in a frame, which may hold locals from before.
pub fn eval_in<F: Floats>(
    scope: &mut HandleScope,
    frame: &mut Frame,
    iseq: &Arc<Iseq>,
    floats: &F,
) -> (r: Result<Value, Error>)
    requires
        old(scope).wf(),
        object::kernel_in(old(scope)@),
        frame_ok(old(scope)@, *old(frame)),
    ensures
        final(scope).wf(),
        final(scope).scopes() == old(scope).scopes(),
        machine::grown(old(scope)@, final(scope)@),
        object::kernel_in(final(scope)@),
        frame_ok(final(scope)@, *final(frame)),
        r matches Ok(v) ==> machine::held(final(scope)@, v) && final(scope)@.live(v),
        ({
            ||| evaluated(
                floats,
                old(scope)@,
                old(scope).room(),
                final(scope)@,
                final(scope).room(),
                *old(frame),
                *final(frame),
                **iseq,
                r,
            )
            ||| (r matches Err(e) && e is Exhausted) && final(scope).room() >= old(scope).room() - 2
                && cramped(old(scope)@, old(scope).room(), *old(frame), **iseq)
        }),
{
    let ghost before = scope@;
    let prepared = prepare(scope, frame, iseq);
    let ghost ready = scope@;
    match prepared {
        Ok(machine) => {
            let mut machine = machine;
            let ghost s = machine@;
            let ghost left = scope.room();
            let r = run(scope, &mut machine, floats);
            proof {
                machine::lemma_grown(ready, scope@);
                call::lemma_grown_trans(before, ready, scope@);
                assert(runs(floats, ready, left, s, BUDGET as nat, scope@, scope.room(), r));
                assert(r matches Ok(v) ==> v@ is Heap ==> scope@.is_root(v));
            }
            r
        },
        Err(e) => Err(e),
    }
}

/// An evaluation in a frame of its own.
pub open spec fn ran<F: Floats>(
    floats: &F,
    before: HeapModel,
    room: int,
    after: HeapModel,
    rest: int,
    was: Frame,
    f: Frame,
    iseq: Iseq,
    r: Result<Value, Error>,
) -> bool {
    &&& fresh_frame(was, iseq.locals@.len())
    &&& {
        ||| evaluated(floats, before, room, after, rest, was, f, iseq, r)
        ||| (r matches Err(e) && e is Exhausted) && rest >= room - 2 && cramped(
            before,
            room,
            was,
            iseq,
        )
    }
}

/// Run code in a frame of its own.
pub fn eval<F: Floats>(heap: Heap, iseq: &Arc<Iseq>, floats: &F) -> (r: (
    Heap,
    Result<Value, Error>,
))
    requires
        heap.wf(),
        heap@.sound(),
        object::kernel_in(heap@),
    ensures
        r.0.wf(),
        r.0@.sound(),
        object::kernel_in(r.0@),
        exists|after: HeapModel, was: Frame, f: Frame| #[trigger]
            ran(floats, heap@, heap.room(), after, r.0.room(), was, f, **iseq, r.1) && r.0@ == (
            HeapModel { roots: heap@.roots, ..after }),
{
    let ghost start = heap@;
    let mut frame = Frame::new(iseq.locals.len());
    let ghost was = frame;
    let ghost room = heap.room();
    let mut scope = heap.scope();
    assert(scope.room() == room);
    let result = eval_in(&mut scope, &mut frame, iseq, floats);
    let ghost after = scope@;
    let ghost f = frame;
    let ghost outcome = result;
    let ghost rest = scope.room();
    let closed = scope.close();
    proof {
        assert(after.roots.take(start.roots.len() as int) =~= start.roots);
        assert(closed@ == (HeapModel { roots: start.roots, ..after }));
        assert(ran(floats, start, room, after, rest, was, f, call::code_of(iseq), outcome));
    }
    let r: (Heap, Result<Value, Error>) = (closed, result);
    assert(r.1 == outcome);
    assert(ran(floats, heap@, heap.room(), after, r.0.room(), was, f, **iseq, r.1));
    r
}

} // verus!
