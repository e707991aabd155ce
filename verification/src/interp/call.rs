//! Calls: taken off the stack, and entered.

use std::sync::Arc;

use vstd::prelude::*;

use crate::bytecode;
use crate::bytecode::{BlockRef, CallSite, Iseq};
use crate::class::Builtin;
use crate::heap;
use crate::heap::{HandleScope, HeapModel};
use crate::interp::bind;
use crate::interp::bind::{Binding, Pending, PendingModel, Target};
use crate::interp::error;
use crate::interp::error::Error;
use crate::interp::machine;
use crate::interp::machine::{Call, CallModel, Machine, MachineModel};
use crate::interp::make;
use crate::interp::object;
use crate::interp::object::{ProcModel, PROC_BREAK};
use crate::method;
use crate::method::{Definition, MAX_DEFINITIONS};
use crate::value;
use crate::value::{SymbolId, Unpacked, Value};

verus! {

broadcast use Value::law_pack;

/// More frames than an evaluation can enter.
pub const MAX_IDS: u64 = 0x1000_0000_0000_0000;

/// The frames that an exit from a new frame looks for.
#[derive(Debug, Clone, Copy, PartialEq, Eq, Structural)]
pub struct Links {
    pub id: u64,
    pub home: u64,
    pub breaks: u64,
}

// ---------------------------------------------------------------------------
// Taking a call off the stack
// ---------------------------------------------------------------------------

/// The first `n` arguments, with the elements of an array in the place of each
/// that is splatted.
pub open spec fn expanded(m: HeapModel, args: Seq<Value>, splats: Seq<u16>, n: int) -> Seq<Value>
    decreases n,
{
    if n <= 0 {
        Seq::empty()
    } else {
        let before = expanded(m, args, splats, n - 1);
        let arg = args[n - 1];
        match object::elements_in(m, arg) {
            Some(elements) => if splats.contains((n - 1) as u16) {
                before + elements
            } else {
                before.push(arg)
            },
            None => before.push(arg),
        }
    }
}

fn marks(splats: &Vec<u16>, index: u16) -> (r: bool)
    ensures
        r == splats@.contains(index),
{
    let mut i: usize = 0;
    while i < splats.len()
        invariant
            i <= splats.len(),
            forall|k: int| 0 <= k < i ==> splats@[k] != index,
        decreases splats.len() - i,
    {
        if splats[i] == index {
            assert(splats@[i as int] == index);
            return true;
        }
        i += 1;
    }
    false
}

/// Splice the elements of splatted arrays into the arguments.
pub fn expand_splats(scope: &mut HandleScope, args: Vec<Value>, splats: &Vec<u16>) -> (r: Vec<
    Value,
>)
    requires
        old(scope).wf(),
        object::kernel_in(old(scope)@),
        machine::all_held(old(scope)@, args@),
        args@.len() <= u16::MAX + 1,
    ensures
        final(scope).wf(),
        final(scope).scopes() == old(scope).scopes(),
        final(scope).room() == old(scope).room(),
        final(scope)@ == (HeapModel { roots: final(scope)@.roots, ..old(scope)@ }),
        old(scope)@.roots.is_prefix_of(final(scope)@.roots),
        r@ == expanded(old(scope)@, args@, splats@, args@.len() as int),
        machine::all_held(final(scope)@, r@),
{
    let ghost before = scope@;
    let mut out: Vec<Value> = Vec::new();
    let mut i: usize = 0;
    while i < args.len()
        invariant
            scope.wf(),
            scope.scopes() == old(scope).scopes(),
            scope.room() == old(scope).room(),
            before == old(scope)@,
            object::kernel_in(before),
            i <= args.len(),
            args@.len() <= u16::MAX + 1,
            machine::all_held(before, args@),
            scope@ == (HeapModel { roots: scope@.roots, ..before }),
            before.roots.is_prefix_of(scope@.roots),
            out@ == expanded(before, args@, splats@, i as int),
            forall|k: int| 0 <= k < out@.len() ==> scope@.live(#[trigger] out@[k]),
        decreases args.len() - i,
    {
        let arg = args[i];
        proof {
            assert(machine::held(before, args@[i as int]));
            machine::lemma_held_is_live(before, arg);
        }
        let mut spliced = false;
        if marks(splats, i as u16) {
            if let Some(elements) = object::array_elements(scope, arg) {
                let mut more = elements;
                out.append(&mut more);
                spliced = true;
            }
        }
        if !spliced {
            out.push(arg);
        }
        i += 1;
    }
    bind::hold_all(scope, &out);
    out
}

/// The block a call passes.
pub open spec fn block_ready(
    before: HeapModel,
    after: HeapModel,
    frame: CallModel,
    block_ref: BlockRef,
    passed: Value,
    block: Value,
) -> bool {
    match block_ref {
        BlockRef::Absent => block == Value::pack(Unpacked::Nil) && after == before,
        BlockRef::Pass => {
            &&& block == passed
            &&& block == Value::pack(Unpacked::Nil) || object::is_proc(before, block)
            &&& after == before
        },
        BlockRef::Literal(child) => proc_ready(before, after, frame, child, false, block),
    }
}

/// What making a `Proc` of a nested body does: the body is in the body table,
/// and the `Proc` captures the frame.
pub open spec fn proc_ready(
    before: HeapModel,
    after: HeapModel,
    frame: CallModel,
    child: u32,
    lambda: bool,
    v: Value,
) -> bool {
    &&& child < frame.iseq.children@.len()
    &&& exists|place: int|
        {
            &&& #[trigger] child_added(before, after, frame, child, place)
            &&& make::made(
                (HeapModel { definitions: after.definitions, ..before }),
                after,
                v,
                make::slots_object(
                    Some(object::builtin_object(before, Builtin::Proc)),
                    make::proc_slots(
                        place,
                        frame.env,
                        frame.receiver,
                        frame.block,
                        lambda,
                        frame.cref,
                        frame.home,
                    ),
                ),
            )
        }
}

/// Whether a nested body is in the body table, which has grown by it at most.
/// What is nested in a body is added on the first ask; what is nested in the
/// code of an evaluation, where the table does not hold it yet.
pub open spec fn child_added(
    before: HeapModel,
    after: HeapModel,
    frame: CallModel,
    child: u32,
    place: int,
) -> bool {
    let all = after.definitions.all();
    &&& 0 <= place < all.len()
    &&& all[place] == Definition::Iseq(frame.iseq.children@[child as int])
    &&& all == before.definitions.all() || all == before.definitions.all().push(all[place])
    &&& frame.definition matches Some(parent) ==> {
        let known = before.definitions.children();
        let key = method::nested_key(parent as int, child as int);
        if known.contains_key(key) {
            place == known[key] && all == before.definitions.all()
        } else {
            place == before.definitions.all().len()
        }
    }
}

/// The place of a body nested in a frame's code.
pub fn place_child(scope: &mut HandleScope, frame: &Call, child: u32) -> (r: usize)
    requires
        old(scope).wf(),
        machine::call_ok(old(scope)@, frame@),
        child < frame@.iseq.children@.len(),
        old(scope)@.definitions.all().len() < MAX_DEFINITIONS,
    ensures
        final(scope).wf(),
        final(scope).scopes() == old(scope).scopes(),
        final(scope).room() == old(scope).room(),
        final(scope)@ == (HeapModel { definitions: final(scope)@.definitions, ..old(scope)@ }),
        machine::grown(old(scope)@, final(scope)@),
        child_added(old(scope)@, final(scope)@, frame@, child, r as int),
{
    match frame.definition {
        Some(parent) => scope.definitions_mut().intern_child(parent, child),
        None => scope.definitions_mut().hold(&frame.iseq.children[child as usize]),
    }
}

/// Make a `Proc` of a body nested in a frame's code.
pub fn child_proc(scope: &mut HandleScope, frame: &Call, child: u32, lambda: bool) -> (r: Result<
    Value,
    Error,
>)
    requires
        old(scope).wf(),
        object::kernel_in(old(scope)@),
        machine::call_ok(old(scope)@, frame@),
    ensures
        final(scope).wf(),
        final(scope).scopes() == old(scope).scopes(),
        machine::grown(old(scope)@, final(scope)@),
        heap::persists(old(scope)@, final(scope)@),
        machine::costs(*old(scope), *final(scope), r, 1),
        r matches Ok(v) ==> machine::held(final(scope)@, v) && proc_ready(
            old(scope)@,
            final(scope)@,
            frame@,
            child,
            lambda,
            v,
        ),
        r matches Err(e) ==> e is Exhausted || e is Malformed && child
            >= frame@.iseq.children@.len() && final(scope)@ == old(scope)@,
{
    let ghost before = scope@;
    if child as usize >= frame.iseq.children.len() {
        return Err(Error::malformed("a nested body"));
    }
    if !scope.definitions().has_room() {
        return Err(Error::exhausted("another body"));
    }
    let place: usize = place_child(scope, frame, child);
    let ghost mid = scope@;
    proof {
        machine::lemma_grown(before, mid);
        assert(forall|v: Value| #[trigger] before.is_root(v) ==> mid.is_root(v));
        assert(machine::held(before, frame@.env) && machine::held(before, frame@.receiver)
            && machine::held(before, frame@.block));
        assert(child_added(before, mid, frame@, child, place as int));
    }
    let total: usize = scope.definitions().len();
    let made = make::make_proc(
        scope,
        place,
        frame.env,
        frame.receiver,
        frame.block,
        lambda,
        frame.cref,
        frame.home,
    );
    proof {
        if made is Ok {
            assert(child_added(before, scope@, frame@, child, place as int));
            assert(mid == (HeapModel { definitions: scope@.definitions, ..before }));
            lemma_definitions_only(before, mid);
            heap::lemma_persists_trans(before, mid, scope@);
        }
    }
    made
}

/// Another body table reaches no less.
pub proof fn lemma_definitions_only(m: HeapModel, after: HeapModel)
    requires
        after == (HeapModel { definitions: after.definitions, symbols: after.symbols, ..m }),
    ensures
        heap::persists(m, after),
        forall|v: Value| #[trigger] m.is_root(v) ==> after.is_root(v),
        forall|a: u64| #[trigger]
            m.objects.contains_key(a) && m.reachable(a) ==> after.reachable(a),
{
    assert forall|a: u64| #[trigger]
        m.objects.contains_key(a) && m.reachable(a) implies after.reachable(a) by {
        heap::lemma_more_roots(m, after, a);
    }
}

/// How many operands a call site takes.
pub open spec fn operands(site: CallSite, has_receiver: bool) -> int {
    (if site.block is Pass {
        1int
    } else {
        0
    }) + site.keywords@.len() + site.argc + (if has_receiver {
        1int
    } else {
        0
    })
}

/// Whether a frame has the names and the operands a call site asks for.
pub open spec fn site_ok(s: MachineModel, site: CallSite, has_receiver: bool) -> bool {
    &&& operands(site, has_receiver) <= s.stack.len()
    &&& site.name < s.top().symbols.len()
    &&& forall|i: int|
        0 <= i < site.keywords@.len() ==> (#[trigger] site.keywords@[i]) < s.top().symbols.len()
}

/// Where a call site's keyword values end.
pub open spec fn keywords_end(s: MachineModel, site: CallSite) -> int {
    s.stack.len() - if site.block is Pass {
        1int
    } else {
        0
    }
}

/// Where a call site's arguments end.
pub open spec fn args_end(s: MachineModel, site: CallSite) -> int {
    keywords_end(s, site) - site.keywords@.len()
}

/// The call a site takes off the stack, in the reverse of the order its
/// operands were pushed: a block, keyword values, arguments, the receiver.
pub open spec fn taken_call(
    m: HeapModel,
    s: MachineModel,
    site: CallSite,
    has_receiver: bool,
    block: Value,
) -> PendingModel {
    let end = args_end(s, site);
    let start = end - site.argc;
    PendingModel {
        name: s.top().symbols[site.name as int],
        receiver: if has_receiver {
            s.stack[start - 1]
        } else {
            s.top().receiver
        },
        args: expanded(m, s.stack.subrange(start, end), site.splats@, site.argc as int),
        keywords: Seq::new(
            site.keywords@.len(),
            |i: int| (s.top().symbols[site.keywords@[i] as int], s.stack[end + i]),
        ),
        block,
        block_is_literal: site.block is Literal,
        cref: s.top().cref,
        target: Target::Method,
    }
}

/// The stack without a call site's operands.
pub open spec fn without_operands(
    s: MachineModel,
    site: CallSite,
    has_receiver: bool,
) -> MachineModel {
    MachineModel { stack: s.stack.take(s.stack.len() - operands(site, has_receiver)), ..s }
}

/// What taking a call off the stack comes to.
pub open spec fn call_taken(
    before: HeapModel,
    after: HeapModel,
    s: MachineModel,
    now: MachineModel,
    site: CallSite,
    has_receiver: bool,
    r: Result<Pending, Error>,
) -> bool {
    match r {
        Ok(call) => {
            &&& site_ok(s, site, has_receiver)
            &&& now == without_operands(s, site, has_receiver)
            &&& call@ == taken_call(before, s, site, has_receiver, call@.block)
            &&& exists|mid: HeapModel|
                {
                    &&& #[trigger] rooted_more(before, mid)
                    &&& block_ready(
                        mid,
                        after,
                        s.top(),
                        site.block,
                        s.stack.last(),
                        call@.block,
                    )
                }
        },
        Err(e) => {
            &&& now == s
            &&& rooted_more(before, after) || e is Exhausted
            &&& e is Malformed ==> !site_ok(s, site, has_receiver) || (
            site.block matches BlockRef::Literal(child) && child >= s.top().iseq.children@.len())
            &&& e is Malformed || e is Exhausted || {
                &&& site.block is Pass
                &&& s.stack.last() != Value::pack(Unpacked::Nil)
                &&& !object::is_proc(before, s.stack.last())
                &&& error::refuses(e, "&"@, "a block argument that is not a Proc"@)
            }
        },
    }
}

/// The codes of the body table take no more for a call than those nested in
/// the frame do.
pub proof fn lemma_taken_weights(
    before: HeapModel,
    after: HeapModel,
    s: MachineModel,
    now: MachineModel,
    site: CallSite,
    has_receiver: bool,
    r: Result<Pending, Error>,
)
    requires
        call_taken(before, after, s, now, site, has_receiver, r),
        r is Ok,
    ensures
        machine::weights(after.definitions.all()) <= machine::weights(before.definitions.all())
            + machine::nested(s.top().iseq.children@),
{
    let call = r->Ok_0;
    let mid = choose|mid: HeapModel|
        {
            &&& #[trigger] rooted_more(before, mid)
            &&& block_ready(mid, after, s.top(), site.block, s.stack.last(), call@.block)
        };
    if let BlockRef::Literal(child) = site.block {
        let place = choose|place: int| #[trigger] child_added(mid, after, s.top(), child, place);
        let was = before.definitions.all();
        let all = after.definitions.all();
        machine::lemma_nested(s.top().iseq.children@, child as int);
        if all != was {
            assert(all.drop_last() =~= was);
        }
    }
}

/// A heap with more roots.
pub open spec fn rooted_more(before: HeapModel, after: HeapModel) -> bool {
    &&& after == (HeapModel { roots: after.roots, ..before })
    &&& before.roots.is_prefix_of(after.roots)
}

fn names_known(names: &Vec<u32>, known: usize) -> (r: bool)
    ensures
        r == forall|i: int| 0 <= i < names@.len() ==> (#[trigger] names@[i]) < known,
{
    let mut i: usize = 0;
    while i < names.len()
        invariant
            i <= names.len(),
            forall|k: int| 0 <= k < i ==> (#[trigger] names@[k]) < known,
        decreases names.len() - i,
    {
        if names[i] as usize >= known {
            assert(names@[i as int] >= known);
            return false;
        }
        i += 1;
    }
    true
}

/// An array that is held keeps its elements where nothing reachable changes.
proof fn lemma_same_elements(m: HeapModel, after: HeapModel, v: Value)
    requires
        m.sound(),
        machine::held(m, v),
        heap::persists(m, after),
        after.classes.table() == m.classes.table(),
    ensures
        object::elements_in(after, v) == object::elements_in(m, v),
{
    if v@ is Heap {
        machine::lemma_held_is_live(m, v);
        heap::law_roots_are_reachable(m, v, v@->Heap_0);
        assert(m.objects.contains_key(v@->Heap_0) && m.reachable(v@->Heap_0));
    }
}

/// Take a call site's operands off the stack.
pub fn pop_call(
    scope: &mut HandleScope,
    machine: &mut Machine,
    site: &CallSite,
    has_receiver: bool,
) -> (r: Result<Pending, Error>)
    requires
        old(scope).wf(),
        object::kernel_in(old(scope)@),
        machine::machine_ok(old(scope)@, old(machine)@),
        old(machine)@.frames.len() > 0,
    ensures
        final(scope).wf(),
        final(scope).scopes() == old(scope).scopes(),
        machine::grown(old(scope)@, final(scope)@),
        heap::persists(old(scope)@, final(scope)@),
        machine::machine_ok(final(scope)@, final(machine)@),
        machine::costs(*old(scope), *final(scope), r, 1),
        call_taken(
            old(scope)@,
            final(scope)@,
            old(machine)@,
            final(machine)@,
            *site,
            has_receiver,
            r,
        ),
        r matches Ok(call) ==> {
            &&& bind::pending_held(final(scope)@, call@)
            &&& machine::overlong(final(scope)@, call@.receiver, call@.args) ==> machine::overlong(
                old(scope)@,
                call@.receiver,
                call@.args,
            )
        },
{
    let ghost before = scope@;
    let ghost s = machine@;
    let top: usize = machine.frames.len() - 1;
    assert(s.top() == machine.frames@[top as int]@);
    assert(machine::call_ok(before, s.frames[top as int]));
    let depth: usize = machine.stack.len();
    let known: usize = machine.frames[top].symbols.len();
    let passed: usize = match site.block {
        BlockRef::Pass => 1,
        _ => 0,
    };
    let received: usize = if has_receiver {
        1
    } else {
        0
    };
    let argc: usize = site.argc as usize;
    let count: usize = site.keywords.len();
    if depth < passed || depth - passed < count || depth - passed - count < argc + received {
        return Err(Error::malformed("fewer operands than a call takes"));
    }
    if site.name as usize >= known {
        return Err(Error::malformed("a call without a name"));
    }
    let end: usize = depth - passed - count;
    let start: usize = end - argc;
    if !names_known(&site.keywords, known) {
        return Err(Error::malformed("a keyword without a name"));
    }
    let mut keywords: Vec<(SymbolId, Value)> = Vec::new();
    let mut i: usize = 0;
    while i < count
        invariant
            i <= count,
            count == site.keywords@.len(),
            s == machine@,
            s.frames.len() > 0,
            top == s.frames.len() - 1,
            known == s.top().symbols.len(),
            end + count <= depth,
            depth == s.stack.len(),
            s.top() == machine.frames@[top as int]@,
            keywords@.len() == i,
            forall|k: int| 0 <= k < count ==> (#[trigger] site.keywords@[k]) < known,
            forall|k: int|
                0 <= k < i ==> #[trigger] keywords@[k] == (
                    s.top().symbols[site.keywords@[k] as int],
                    s.stack[end + k],
                ),
        decreases count - i,
    {
        let at: usize = site.keywords[i] as usize;
        keywords.push((machine.frames[top].symbols[at], machine.stack[end + i]));
        i += 1;
    }
    assert(site_ok(s, *site, has_receiver));
    let mut args: Vec<Value> = Vec::new();
    let mut j: usize = start;
    while j < end
        invariant
            start <= j <= end,
            s == machine@,
            end <= s.stack.len(),
            args@ == s.stack.subrange(start as int, j as int),
        decreases end - j,
    {
        args.push(machine.stack[j]);
        j += 1;
        assert(args@ =~= s.stack.subrange(start as int, j as int));
    }
    proof {
        assert(machine::all_held(before, args@)) by {
            assert forall|k: int| 0 <= k < args@.len() implies machine::held(
                before,
                #[trigger] args@[k],
            ) by {
                assert(args@[k] == s.stack[start + k]);
            }
        }
    }
    let args = expand_splats(scope, args, &site.splats);
    let ghost mid = scope@;
    proof {
        machine::lemma_grown(before, mid);
        make::lemma_rooting(before, mid);
        assert(rooted_more(before, mid));
        assert(machine::call_ok(mid, s.top()));
    }
    let block: Value = match site.block {
        BlockRef::Absent => Value::nil(),
        BlockRef::Pass => {
            let value = machine.stack[depth - 1];
            proof {
                assert(machine::held(mid, s.stack[depth - 1]));
                machine::lemma_held_is_live(mid, value);
            }
            if value != Value::nil() && object::proc_body(scope, value).is_none() {
                return Err(Error::refuse("&", "a block argument that is not a Proc"));
            }
            value
        },
        BlockRef::Literal(child) => {
            match child_proc(scope, &machine.frames[top], child, false) {
                Ok(value) => value,
                Err(e) => {
                    proof {
                        machine::lemma_grown(mid, scope@);
                        heap::lemma_persists_trans(before, mid, scope@);
                    }
                    return Err(e);
                },
            }
        },
    };
    let receiver: Value = if has_receiver {
        machine.stack[start - 1]
    } else {
        machine.frames[top].receiver
    };
    let call = Pending {
        name: machine.frames[top].symbols[site.name as usize],
        receiver,
        args,
        keywords,
        block,
        block_is_literal: match site.block {
            BlockRef::Literal(_) => true,
            _ => false,
        },
        cref: machine.frames[top].cref,
        target: Target::Method,
    };
    machine.stack.truncate(start - received);
    proof {
        let after = scope@;
        machine::lemma_grown(mid, after);
        heap::lemma_persists_trans(before, mid, after);
        assert(call@ =~= taken_call(before, s, *site, has_receiver, block));
        assert(machine@ =~= without_operands(s, *site, has_receiver));
        assert(machine::held(mid, call@.receiver)) by {
            if has_receiver {
                assert(machine::held(before, s.stack[start - 1]));
            }
        }
        assert forall|k: int| 0 <= k < call@.keywords.len() implies machine::held(
            after,
            (#[trigger] call@.keywords[k]).1,
        ) by {
            assert(machine::held(before, s.stack[end + k]));
            assert(machine::held(mid, s.stack[end + k]));
        }
        if machine::overlong(after, call@.receiver, call@.args) {
            let k = choose|k: int|
                {
                    &&& 0 <= k < call@.args.len()
                    &&& object::elements_in(after, call@.receiver) matches Some(left)
                    &&& object::elements_in(after, #[trigger] call@.args[k]) matches Some(right)
                    &&& left.len() + right.len() > u32::MAX
                };
            assert(machine::held(mid, call@.args[k]));
            lemma_same_elements(mid, after, call@.receiver);
            lemma_same_elements(mid, after, call@.args[k]);
            assert(object::elements_in(before, call@.args[k]) == object::elements_in(
                mid,
                call@.args[k],
            ));
        }
        assert(machine::machine_ok(mid, s));
        assert(machine::machine_ok(after, s));
        assert(machine::machine_ok(after, machine@)) by {
            assert forall|k: int| 0 <= k < machine@.stack.len() implies machine::held(
                after,
                #[trigger] machine@.stack[k],
            ) by {
                assert(machine@.stack[k] == s.stack[k]);
            }
        }
    }
    Ok(call)
}

// ---------------------------------------------------------------------------
// Entering a frame
// ---------------------------------------------------------------------------

/// The heap once a block that was not passed anywhere before knows the frame
/// that a `break` in it ends.
pub open spec fn break_set(m: HeapModel, block: Value, frame: u64) -> HeapModel {
    if object::is_proc(m, block) && object::proc_slot(m, block, PROC_BREAK as int) == Value::pack(
        Unpacked::Fixnum(0),
    ) {
        m.storing(
            block,
            heap::with_slot(
                m.object(block),
                PROC_BREAK as int,
                Value::pack(Unpacked::Fixnum(frame as i64)),
            ),
        )
    } else {
        m
    }
}

/// Tell a block which frame a `break` in it ends, if it does not know yet.
pub fn set_break_target(scope: &mut HandleScope, block: Value, frame: u64)
    requires
        old(scope).wf(),
        object::kernel_in(old(scope)@),
        old(scope)@.live(block),
        frame <= MAX_IDS,
    ensures
        final(scope).wf(),
        final(scope).scopes() == old(scope).scopes(),
        final(scope).room() == old(scope).room(),
        final(scope)@ == break_set(old(scope)@, block, frame),
{
    if object::proc_body(scope, block).is_none() {
        return;
    }
    let zero = match Value::fixnum(0) {
        Some(value) => value,
        None => Value::nil(),
    };
    if let Some(known) = scope.slot_of(block, PROC_BREAK) {
        if known == zero {
            let value = match Value::fixnum(frame as i64) {
                Some(value) => value,
                None => Value::nil(),
            };
            scope.store(block, PROC_BREAK, value);
        }
    }
}

/// A frame as it is entered.
pub open spec fn entered_call(
    call: PendingModel,
    definition: usize,
    iseq: Iseq,
    symbols: Seq<SymbolId>,
    env: Value,
    base: nat,
    links: Links,
) -> CallModel {
    CallModel {
        definition: Some(definition),
        iseq,
        symbols,
        env,
        receiver: call.receiver,
        block: call.block,
        cref: call.cref,
        pc: 0,
        base: base as usize,
        keeps_receiver: false,
        id: links.id,
        home: links.home,
        breaks: links.breaks,
        tag: None,
        rescued: None,
        parked: Seq::empty(),
    }
}

/// Whether symbols are a code's names, linked into a table.
pub open spec fn links_to(names: Seq<Seq<char>>, iseq: Iseq, symbols: Seq<SymbolId>) -> bool {
    &&& symbols.len() == iseq.symbols@.len()
    &&& forall|i: int|
        0 <= i < symbols.len() ==> (#[trigger] symbols[i]).0 < names.len()
            && names[symbols[i].0 as int] == iseq.symbols@[i]@
}

/// The heap once an environment was made and a code's names were linked.
pub open spec fn env_ready(
    before: HeapModel,
    mid: HeapModel,
    iseq: Iseq,
    outer: Value,
    env: Value,
) -> bool {
    &&& make::made(
        before,
        (HeapModel { symbols: before.symbols, ..mid }),
        env,
        make::slots_object(None, make::env_slots(outer, iseq.locals@.len())),
    )
    &&& mid.symbols@ == bytecode::linked_table(
        before.symbols@,
        bytecode::pool(iseq.symbols@),
        iseq.symbols@.len() as int,
    )
}

/// What entering a frame does: an environment is made for the code's locals,
/// the arguments are bound to its parameters, and the frame is on top.
pub open spec fn entered(
    before: HeapModel,
    after: HeapModel,
    s: MachineModel,
    now: MachineModel,
    call: PendingModel,
    definition: usize,
    iseq: Iseq,
    outer: Value,
    strict: bool,
    links: Links,
) -> bool {
    let frame = now.top();
    &&& now == (MachineModel { frames: s.frames.push(frame), ..s })
    &&& frame == entered_call(
        call,
        definition,
        iseq,
        frame.symbols,
        frame.env,
        s.stack.len(),
        links,
    )
    &&& links_to(after.symbols@, iseq, frame.symbols)
    &&& exists|mid: HeapModel|
        {
            &&& #[trigger] env_ready(before, mid, iseq, outer, frame.env)
            &&& bind::bound(mid, after, frame.env, iseq.params, frame.symbols, call, strict)
        }
}

/// Whether a frame cannot be entered because the arguments cannot be bound.
pub open spec fn not_entered(
    before: HeapModel,
    call: PendingModel,
    iseq: Iseq,
    outer: Value,
    strict: bool,
    e: Error,
) -> bool {
    exists|mid: HeapModel, env: Value, symbols: Seq<SymbolId>, why: bind::Refusal|
        {
            &&& #[trigger] env_ready(before, mid, iseq, outer, env)
            &&& links_to(mid.symbols@, iseq, symbols)
            &&& bind::refusal(mid, iseq.locals@.len(), iseq.params, symbols, call, strict) == Some(
                why,
            )
            &&& #[trigger] bind::refused(mid, iseq.params, call.args.len(), why, e)
            &&& #[trigger] symbols.len() == symbols.len()
        }
}

/// The heap as entering a frame leaves it: grown, and with every object that
/// was reachable as it was.
pub open spec fn stepped_heap(before: HeapModel, after: HeapModel) -> bool {
    &&& machine::grown(before, after)
    &&& heap::persists(before, after)
    &&& after.classes.table() == before.classes.table()
    &&& after.classes.scopes() == before.classes.scopes()
    &&& after.definitions == before.definitions
}

/// The code a handle refers to.
pub open spec fn code_of(iseq: &Arc<Iseq>) -> Iseq {
    **iseq
}

/// Enter a frame.
pub fn push_frame(
    scope: &mut HandleScope,
    machine: &mut Machine,
    call: &Pending,
    definition: usize,
    iseq: &Arc<Iseq>,
    outer: Value,
    binding: Binding,
    links: Links,
) -> (r: Result<(), Error>)
    requires
        old(scope).wf(),
        object::kernel_in(old(scope)@),
        machine::machine_ok(old(scope)@, old(machine)@),
        bind::pending_held(old(scope)@, call@),
        machine::held(old(scope)@, outer),
        definition < old(scope)@.definitions.all().len(),
        old(scope)@.definitions.all()[definition as int] == Definition::Iseq(*iseq),
        call.cref.0 < old(scope)@.classes.scopes().len(),
        value::fits_fixnum(links.home as int),
    ensures
        final(scope).wf(),
        final(scope).scopes() == old(scope).scopes(),
        stepped_heap(old(scope)@, final(scope)@),
        machine::costs(
            *old(scope),
            *final(scope),
            r,
            machine::weight(**iseq) + call@.args.len() + 2,
        ),
        machine::machine_ok(final(scope)@, final(machine)@),
        match r {
            Ok(_) => entered(
                old(scope)@,
                final(scope)@,
                old(machine)@,
                final(machine)@,
                call@,
                definition,
                **iseq,
                outer,
                binding is Strict,
                links,
            ),
            Err(e) => {
                &&& final(machine)@ == old(machine)@
                &&& e is Exhausted || not_entered(
                    old(scope)@,
                    call@,
                    **iseq,
                    outer,
                    binding is Strict,
                    e,
                )
            },
        },
{
    let ghost before = scope@;
    let ghost s = machine@;
    let ghost code = code_of(iseq);
    let env = match make::env_alloc(scope, outer, iseq.locals.len()) {
        Ok(env) => env,
        Err(e) => {
            proof {
                lemma_definitions_only(before, before);
            }
            return Err(e);
        },
    };
    let ghost allocated = scope@;
    let names: usize = iseq.symbols.len();
    let known: usize = scope.symbols().len();
    if names > u32::MAX as usize || known > (u32::MAX as usize) - names {
        proof {
            machine::lemma_grown(before, allocated);
        }
        return Err(Error::exhausted("more symbols"));
    }
    let symbols = iseq.link(scope.symbols_mut());
    let ghost mid = scope@;
    proof {
        bytecode::lemma_linked_table(
            before.symbols@,
            bytecode::pool(iseq.symbols@),
            iseq.symbols@.len() as int,
        );
        assert(allocated =~= (HeapModel { symbols: before.symbols, ..mid }));
        assert(env_ready(before, mid, code, outer, env));
        lemma_definitions_only(allocated, mid);
        assert forall|v: Value| #[trigger] before.is_root(v) implies allocated.is_root(v) by {
            if before.roots.contains(v) {
                let k = before.roots.index_of(v);
                assert(allocated.roots[k] == v);
            }
        }
        heap::lemma_persists_trans(before, allocated, mid);
        assert(machine::grown(before, mid));
        machine::lemma_grown(before, mid);
        lemma_pending_held(before, mid, call@);
        let slots = mid.object(env).body->Slots_0;
        assert(slots == make::env_slots(outer, iseq.locals@.len()));
        assert(make::env_locals(mid, env) is Some);
        assert(make::env_locals(mid, env)->0.len() == iseq.locals@.len());
        assert(machine::held(mid, env));
    }
    let bound = bind::bind(scope, env, &iseq.params, &symbols, call, binding);
    let ghost after = scope@;
    proof {
        let strict = binding is Strict;
        let why = bind::refusal(
            mid,
            iseq.locals@.len(),
            code.params,
            symbols@,
            call@,
            strict,
        );
        assert(links_to(mid.symbols@, code, symbols@));
        assert(machine::grown(mid, after));
        machine::lemma_grown(mid, after);
        assert(machine::grown(before, after)) by {
            lemma_grown_trans(before, mid, after);
        }
        assert(heap::persists(before, after)) by {
            assert forall|v: Value| #[trigger] before.is_root(v) implies mid.is_root(v) by {
                assert(allocated.is_root(v));
            }
            heap::lemma_still_reachable(before, mid);
            assert forall|a: u64| #[trigger]
                before.objects.contains_key(a) && before.reachable(
                    a,
                ) implies after.objects.contains_key(a) && after.objects[a]
                == before.objects[a] by {
                assert(mid.objects.contains_key(a) && mid.reachable(a));
                assert(Unpacked::Heap(a) != env@);
            }
        }
        if bound is Err {
            let e = bound->Err_0;
            if let Some(reason) = why {
                assert(bind::refused(mid, code.params, call@.args.len(), reason, e));
                assert(symbols@.len() == symbols@.len());
                assert(not_entered(before, call@, code, outer, strict, e));
            }
        }
    }
    match bound {
        Ok(_) => {
            let base: usize = machine.stack.len();
            let frame = Call {
                definition: Some(definition),
                iseq: bytecode::share(iseq),
                symbols,
                env,
                receiver: call.receiver,
                block: call.block,
                cref: call.cref,
                pc: 0,
                base,
                keeps_receiver: false,
                id: links.id,
                home: links.home,
                breaks: links.breaks,
                tag: None,
                rescued: None,
                parked: Vec::new(),
            };
            let ghost model = frame@;
            machine.frames.push(frame);
            proof {
                assert(model =~= entered_call(
                    call@,
                    definition,
                    code,
                    symbols@,
                    env,
                    s.stack.len(),
                    links,
                ));
                assert(machine@.frames =~= s.frames.push(model));
                lemma_pending_held(before, after, call@);
                assert(machine::held(after, env));
                assert(machine::call_ok(after, model));
                assert(machine::machine_ok(after, s));
                assert forall|i: int| 0 <= i < machine@.frames.len() implies machine::call_ok(
                    after,
                    #[trigger] machine@.frames[i],
                ) by {
                    if i < s.frames.len() {
                        assert(machine::call_ok(after, s.frames[i]));
                    }
                }
                assert(env_ready(before, mid, code, outer, model.env));
                assert(bind::bound(
                    mid,
                    after,
                    model.env,
                    code.params,
                    model.symbols,
                    call@,
                    binding is Strict,
                ));
            }
            Ok(())
        },
        Err(e) => Err(e),
    }
}

/// A heap that grows twice has grown.
pub proof fn lemma_grown_trans(a: HeapModel, b: HeapModel, c: HeapModel)
    requires
        machine::grown(a, b),
        machine::grown(b, c),
    ensures
        machine::grown(a, c),
{
}

/// What a call carries stays rooted.
pub proof fn lemma_pending_held(m: HeapModel, after: HeapModel, call: PendingModel)
    requires
        machine::grown(m, after),
        bind::pending_held(m, call),
    ensures
        bind::pending_held(after, call),
{
    machine::lemma_grown(m, after);
    assert(machine::held(m, call.receiver) && machine::held(m, call.block));
    assert(machine::all_held(m, call.args));
    assert forall|i: int| 0 <= i < call.keywords.len() implies machine::held(
        after,
        (#[trigger] call.keywords[i]).1,
    ) by {
        assert(machine::held(m, call.keywords[i].1));
    }
    if let Target::Block(v) = call.target {
        assert(machine::held(m, v));
    }
}

/// A machine in order stays so with another value that is rooted.
pub proof fn lemma_pushed(m: HeapModel, s: MachineModel, v: Value)
    requires
        machine::machine_ok(m, s),
        machine::held(m, v),
    ensures
        machine::machine_ok(m, s.pushing(v)),
{
    let now = s.pushing(v);
    assert forall|i: int| 0 <= i < now.stack.len() implies machine::held(
        m,
        #[trigger] now.stack[i],
    ) by {
        if i < s.stack.len() {
            assert(now.stack[i] == s.stack[i]);
        }
    }
    assert forall|i: int| 0 <= i < now.frames.len() implies machine::call_ok(
        m,
        #[trigger] now.frames[i],
    ) by {
        assert(now.frames[i] == s.frames[i]);
    }
}

/// Root a value and push it.
pub fn push_live(scope: &mut HandleScope, machine: &mut Machine, value: Value)
    requires
        old(scope).wf(),
        machine::machine_ok(old(scope)@, old(machine)@),
        old(scope)@.live(value),
    ensures
        final(scope).wf(),
        final(scope).scopes() == old(scope).scopes(),
        final(scope).room() == old(scope).room(),
        rooted_more(old(scope)@, final(scope)@),
        machine::grown(old(scope)@, final(scope)@),
        final(machine)@ == old(machine)@.pushing(value),
        machine::machine_ok(final(scope)@, final(machine)@),
        machine::held(final(scope)@, value),
{
    let ghost before = scope@;
    let ghost s = machine@;
    scope.hold(value);
    machine.stack.push(value);
    proof {
        machine::lemma_grown(before, scope@);
        if value@ is Heap {
            assert(scope@.roots[scope@.roots.len() - 1] == value);
        }
        assert(machine::machine_ok(scope@, s));
        lemma_pushed(scope@, s, value);
        assert(machine@ =~= s.pushing(value));
    }
}

/// The call that a `Proc`'s body gets: its own receiver and lexical scope, and
/// the block its defining scope had where the call passes none.
pub open spec fn inner_call(call: PendingModel, p: ProcModel) -> PendingModel {
    PendingModel {
        receiver: p.receiver,
        block: if call.block == Value::pack(Unpacked::Nil) {
            p.block
        } else {
            call.block
        },
        cref: p.cref,
        target: Target::Method,
        ..call
    }
}

/// The frames that an exit from a `Proc`'s body looks for. A lambda returns to
/// itself.
pub open spec fn proc_frame_links(p: ProcModel, id: u64) -> Links {
    Links {
        id,
        home: if p.lambda {
            id
        } else {
            p.home
        },
        breaks: p.breaks,
    }
}

/// The machine with another frame id handed out.
pub open spec fn with_id(s: MachineModel) -> MachineModel {
    MachineModel { ids: (s.ids + 1) as u64, ..s }
}

/// What calling a `Proc` comes to.
pub open spec fn proc_entered(
    before: HeapModel,
    after: HeapModel,
    s: MachineModel,
    now: MachineModel,
    call: PendingModel,
    block: Value,
    r: Result<(), Error>,
) -> bool {
    match object::proc_in(before, block) {
        None => {
            &&& r matches Err(e) && error::refuses(e, "call"@, "a receiver that is not a Proc"@)
            &&& now == s
            &&& after == before
        },
        Some(p) => if p.cref.0 >= before.classes.scopes().len() {
            r matches Err(e) && e is Malformed && now == s && after == before
        } else {
            let inner = inner_call(call, p);
            let iseq = *before.definitions.all()[p.definition]->Iseq_0;
            match r {
                Ok(_) => exists|mid: HeapModel|
                    {
                        &&& #[trigger] rooted_more(before, mid)
                        &&& entered(
                            mid,
                            after,
                            with_id(s),
                            now,
                            inner,
                            p.definition as usize,
                            iseq,
                            p.env,
                            p.lambda,
                            proc_frame_links(p, (s.ids + 1) as u64),
                        )
                    },
                Err(e) => {
                    &&& now == with_id(s)
                    &&& e is Exhausted || exists|mid: HeapModel|
                        {
                            &&& #[trigger] rooted_more(before, mid)
                            &&& not_entered(mid, inner, iseq, p.env, p.lambda, e)
                        }
                },
            }
        },
    }
}

fn copy_keywords(keywords: &Vec<(SymbolId, Value)>) -> (r: Vec<(SymbolId, Value)>)
    ensures
        r@ == keywords@,
{
    let mut out: Vec<(SymbolId, Value)> = Vec::new();
    let mut i: usize = 0;
    while i < keywords.len()
        invariant
            i <= keywords.len(),
            out@ == keywords@.take(i as int),
        decreases keywords.len() - i,
    {
        out.push(keywords[i]);
        i += 1;
        assert(out@ =~= keywords@.take(i as int));
    }
    assert(out@ =~= keywords@);
    out
}

/// A frame id read out of a slot fits one.
pub proof fn lemma_home_fits(m: HeapModel, v: Value)
    ensures
        value::fits_fixnum(
            object::frame_in(object::proc_slot(m, v, object::PROC_HOME as int)) as int,
        ),
{
    let slot = object::proc_slot(m, v, object::PROC_HOME as int);
    if let Unpacked::Fixnum(n) = slot@ {
        slot.law_fixnum_identity(n);
    }
}

/// Call a `Proc`.
pub fn push_proc_frame(
    scope: &mut HandleScope,
    machine: &mut Machine,
    call: &Pending,
    block: Value,
) -> (r: Result<(), Error>)
    requires
        old(scope).wf(),
        object::kernel_in(old(scope)@),
        machine::machine_ok(old(scope)@, old(machine)@),
        bind::pending_held(old(scope)@, call@),
        machine::held(old(scope)@, block),
        old(machine)@.ids < MAX_IDS,
    ensures
        final(scope).wf(),
        final(scope).scopes() == old(scope).scopes(),
        stepped_heap(old(scope)@, final(scope)@),
        machine::machine_ok(final(scope)@, final(machine)@),
        machine::costs(
            *old(scope),
            *final(scope),
            r,
            machine::weights(old(scope)@.definitions.all()) + call@.args.len() + 2,
        ),
        proc_entered(
            old(scope)@,
            final(scope)@,
            old(machine)@,
            final(machine)@,
            call@,
            block,
            r,
        ),
{
    let ghost before = scope@;
    let ghost s = machine@;
    proof {
        machine::lemma_held_is_live(before, block);
        lemma_definitions_only(before, before);
    }
    let parts = match object::proc_parts(scope, block) {
        Some(parts) => parts,
        None => {
            return Err(Error::refuse("call", "a receiver that is not a Proc"));
        },
    };
    let scopes: usize = scope.classes().scope_count();
    if parts.cref.index() >= scopes {
        return Err(Error::malformed("a lexical scope that does not exist"));
    }
    let ghost p = parts.model();
    scope.hold(parts.env);
    let ghost one = scope@;
    scope.hold(parts.receiver);
    let ghost two = scope@;
    scope.hold(parts.block);
    let ghost mid = scope@;
    proof {
        assert(rooted_more(before, mid));
        assert(machine::held(one, parts.env)) by {
            if parts.env@ is Heap {
                assert(one.roots[one.roots.len() - 1] == parts.env);
            }
        }
        assert(machine::held(two, parts.receiver)) by {
            if parts.receiver@ is Heap {
                assert(two.roots[two.roots.len() - 1] == parts.receiver);
            }
        }
        assert(machine::held(mid, parts.block)) by {
            if parts.block@ is Heap {
                assert(mid.roots[mid.roots.len() - 1] == parts.block);
            }
        }
        machine::lemma_grown(one, mid);
        machine::lemma_grown(two, mid);
        machine::lemma_grown(before, mid);
        lemma_pending_held(before, mid, call@);
        make::lemma_rooting(before, mid);
    }
    let inner = Pending {
        name: call.name,
        receiver: parts.receiver,
        args: bind::copy_values(&call.args),
        keywords: copy_keywords(&call.keywords),
        block: if call.block == Value::nil() {
            parts.block
        } else {
            call.block
        },
        block_is_literal: call.block_is_literal,
        cref: parts.cref,
        target: Target::Method,
    };
    assert(inner@ =~= inner_call(call@, p));
    assert(bind::pending_held(mid, inner@));
    machine.ids = machine.ids + 1;
    let id: u64 = machine.ids;
    let links = Links {
        id,
        home: if parts.lambda {
            id
        } else {
            parts.home
        },
        breaks: parts.breaks,
    };
    let binding = if parts.lambda {
        Binding::Strict
    } else {
        Binding::Loose
    };
    proof {
        lemma_home_fits(before, block);
        assert(machine@ =~= with_id(s));
        assert(machine::machine_ok(mid, s));
        assert(machine::machine_ok(mid, machine@)) by {
            assert forall|i: int| 0 <= i < machine@.frames.len() implies machine::call_ok(
                mid,
                #[trigger] machine@.frames[i],
            ) by {
                assert(machine@.frames[i] == s.frames[i]);
            }
        }
    }
    let r = push_frame(
        scope,
        machine,
        &inner,
        parts.definition,
        &parts.iseq,
        parts.env,
        binding,
        links,
    );
    proof {
        lemma_grown_trans(before, mid, scope@);
        heap::lemma_persists_trans(before, mid, scope@);
        machine::lemma_weight(before.definitions.all(), p.definition);
    }
    r
}

} // verus!
