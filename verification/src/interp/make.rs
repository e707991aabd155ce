//! What the interpreter makes: environments, arrays, strings, procs and
//! exceptions.

use vstd::prelude::*;
use vstd::string::*;
use vstd::utf8;

use crate::class::{Builtin, CrefId};
use crate::heap;
use crate::heap::{BodyModel, Handle, HandleScope, HeapModel, Object, Payload};
use crate::interp::error::Error;
use crate::interp::machine;
use crate::interp::object;
use crate::interp::object::bool_value;
use crate::kernel;
use crate::method;
use crate::text;
use crate::value;
use crate::value::{Unpacked, Value};

verus! {

broadcast use Value::law_pack;

/// The slot of an environment that links to the one around it. Locals start
/// behind it.
pub const ENV_HEADER: usize = 1;

/// What is left alone by everything that only makes objects.
pub open spec fn same_tables(before: HeapModel, after: HeapModel) -> bool {
    &&& after.classes.table() == before.classes.table()
    &&& after.classes.scopes() == before.classes.scopes()
    &&& after.classes.generation() == before.classes.generation()
    &&& after.definitions == before.definitions
    &&& after.regexps == before.regexps
    &&& after.last_match == before.last_match
    &&& after.symbols == before.symbols
}

/// Whether an object is new: nothing reached it before.
pub open spec fn unseen(before: HeapModel, v: Value) -> bool {
    !(before.objects.contains_key(v@->Heap_0) && before.reachable(v@->Heap_0))
}

/// What making an object does: the object is there, rooted and new, and
/// nothing that was reachable changed.
pub open spec fn made(before: HeapModel, after: HeapModel, v: Value, object: Object) -> bool {
    &&& after.has_object(v)
    &&& after.object(v) == object
    &&& unseen(before, v)
    &&& heap::persists(before, after)
    &&& before.roots.is_prefix_of(after.roots)
    &&& after.roots.contains(v)
    &&& same_tables(before, after)
}

/// Whether the heap and its count of slots allow another object.
pub open spec fn fits(scope: HandleScope, len: nat) -> bool {
    scope.roomy() && len <= u32::MAX
}

/// An object of slots.
pub open spec fn slots_object(class: Option<Value>, slots: Seq<Value>) -> Object {
    Object { class, frozen: false, body: BodyModel::Slots(slots) }
}

/// An object of bytes.
pub open spec fn bytes_object(class: Option<Value>, bytes: Seq<u8>) -> Object {
    Object { class, frozen: false, body: BodyModel::Bytes(bytes) }
}

/// A larger root set keeps what was reachable reachable.
pub proof fn lemma_rooting(m: HeapModel, more: HeapModel)
    requires
        more == (HeapModel { roots: more.roots, ..m }),
        m.roots.is_prefix_of(more.roots),
    ensures
        forall|a: u64| #[trigger]
            m.objects.contains_key(a) && m.reachable(a) ==> more.reachable(a),
        forall|v: Value| #[trigger] m.is_root(v) ==> more.is_root(v),
{
    assert forall|v: Value| #[trigger] m.is_root(v) implies more.is_root(v) by {
        if m.roots.contains(v) {
            let k = m.roots.index_of(v);
            assert(more.roots[k] == v);
        }
    }
    assert forall|a: u64| #[trigger]
        m.objects.contains_key(a) && m.reachable(a) implies more.reachable(a) by {
        heap::lemma_more_roots(m, more, a);
    }
}

/// Make an object of slots or bytes, all `nil` or zero.
fn blank(scope: &mut HandleScope, class: Option<Value>, payload: Payload, len: u32) -> (r: Handle)
    requires
        old(scope).wf(),
        old(scope).roomy(),
        class matches Some(c) ==> old(scope)@.live(c),
    ensures
        final(scope).wf(),
        final(scope).scopes() == old(scope).scopes(),
        final(scope).room() >= old(scope).room() - 1,
        final(scope).holds(r),
        made(
            old(scope)@,
            final(scope)@,
            final(scope).at(r),
            heap::fresh_object(class, payload, len),
        ),
{
    let ghost before = scope@;
    let handle: Option<Handle> = match class {
        Some(c) => Some(scope.root(c)),
        None => None,
    };
    let ghost rooted = *scope;
    let fresh = scope.allocate(handle, payload, len);
    proof {
        let v = scope.at(fresh);
        heap::lemma_born(rooted.inner(), scope.inner(), class, payload, len, v);
        lemma_rooting(before, rooted@);
        assert(heap::persists(before, scope@)) by {
            assert forall|a: u64| #[trigger]
                before.objects.contains_key(a) && before.reachable(
                    a,
                ) implies scope@.objects.contains_key(a) && scope@.objects[a]
                == before.objects[a] by {
                assert(rooted@.objects.contains_key(a) && rooted@.reachable(a));
            }
        }
        assert(scope@.roots[fresh.place()] == v);
        if before.objects.contains_key(v@->Heap_0) && before.reachable(v@->Heap_0) {
            assert(rooted@.reachable(v@->Heap_0));
        }
    }
    fresh
}

/// Make an object of slots.
pub fn new_slots(scope: &mut HandleScope, class: Option<Value>, slots: Vec<Value>) -> (r: Result<
    Value,
    Error,
>)
    requires
        old(scope).wf(),
        class matches Some(c) ==> old(scope)@.live(c),
        machine::all_held(old(scope)@, slots@),
    ensures
        final(scope).wf(),
        final(scope).scopes() == old(scope).scopes(),
        final(scope).room() >= old(scope).room() - 1,
        match r {
            Ok(v) => fits(*old(scope), slots@.len()) && made(
                old(scope)@,
                final(scope)@,
                v,
                slots_object(class, slots@),
            ),
            Err(e) => e is Exhausted && !fits(*old(scope), slots@.len()) && final(scope)@ == old(
                scope,
            )@,
        },
{
    let ghost before = scope@;
    let len: usize = slots.len();
    if !scope.has_room() {
        return Err(Error::exhausted("another object"));
    }
    if len > u32::MAX as usize {
        return Err(Error::exhausted("an object of this many slots"));
    }
    let handle = blank(scope, class, Payload::Slots, len as u32);
    let value = scope.get(handle);
    let ghost blank = scope@;
    let mut i: usize = 0;
    while i < len
        invariant
            scope.wf(),
            scope.scopes() == old(scope).scopes(),
            scope.room() >= old(scope).room() - 1,
            len == slots@.len(),
            len <= u32::MAX,
            i <= len,
            before == old(scope)@,
            machine::all_held(before, slots@),
            before.roots.is_prefix_of(blank.roots),
            made(before, blank, value, heap::fresh_object(class, Payload::Slots, len as u32)),
            scope@ == blank.storing(
                value,
                slots_object(
                    class,
                    slots@.take(i as int) + Seq::new(
                        (len - i) as nat,
                        |k: int| Value::pack(Unpacked::Nil),
                    ),
                ),
            ),
        decreases len - i,
    {
        let slot = slots[i];
        proof {
            assert(machine::held(before, slots@[i as int]));
            if slot@ is Heap {
                let k = before.roots.index_of(slot);
                assert(scope@.roots[k] == slot);
                assert(scope@.is_root(slot));
            }
            assert(scope@.has_object(value));
        }
        let ghost mid = scope@;
        scope.store(value, i, slot);
        proof {
            let nils = Seq::new((len - i) as nat, |k: int| Value::pack(Unpacked::Nil));
            let fewer = Seq::new((len - i - 1) as nat, |k: int| Value::pack(Unpacked::Nil));
            assert((slots@.take(i as int) + nils).update(i as int, slot) =~= slots@.take(i + 1)
                + fewer);
            assert(scope@.objects =~= blank.objects.insert(
                value@->Heap_0,
                slots_object(class, slots@.take(i + 1) + fewer),
            ));
        }
        i += 1;
    }
    proof {
        let none = Seq::new(0, |k: int| Value::pack(Unpacked::Nil));
        assert(slots@.take(len as int) + none =~= slots@);
        assert(heap::persists(before, scope@)) by {
            assert forall|a: u64| #[trigger]
                before.objects.contains_key(a) && before.reachable(
                    a,
                ) implies scope@.objects.contains_key(a) && scope@.objects[a]
                == before.objects[a] by {
                assert(a != value@->Heap_0);
            }
        }
    }
    Ok(value)
}

/// Make an object of bytes.
pub fn new_bytes(scope: &mut HandleScope, class: Option<Value>, bytes: Vec<u8>) -> (r: Result<
    Value,
    Error,
>)
    requires
        old(scope).wf(),
        class matches Some(c) ==> old(scope)@.live(c),
    ensures
        final(scope).wf(),
        final(scope).scopes() == old(scope).scopes(),
        final(scope).room() >= old(scope).room() - 1,
        match r {
            Ok(v) => fits(*old(scope), bytes@.len()) && made(
                old(scope)@,
                final(scope)@,
                v,
                bytes_object(class, bytes@),
            ),
            Err(e) => e is Exhausted && !fits(*old(scope), bytes@.len()) && final(scope)@ == old(
                scope,
            )@,
        },
{
    let ghost before = scope@;
    let len: usize = bytes.len();
    if !scope.has_room() {
        return Err(Error::exhausted("another object"));
    }
    if len > u32::MAX as usize {
        return Err(Error::exhausted("an object of this many bytes"));
    }
    let handle = blank(scope, class, Payload::Bytes, len as u32);
    let value = scope.get(handle);
    scope.set_bytes(handle, bytes);
    proof {
        assert(heap::persists(before, scope@)) by {
            assert forall|a: u64| #[trigger]
                before.objects.contains_key(a) && before.reachable(
                    a,
                ) implies scope@.objects.contains_key(a) && scope@.objects[a]
                == before.objects[a] by {
                assert(a != value@->Heap_0);
            }
        }
    }
    Ok(value)
}

/// What an environment holds as it is made.
pub open spec fn env_slots(outer: Value, slots: nat) -> Seq<Value> {
    seq![outer] + Seq::new(slots, |i: int| Value::pack(Unpacked::Nil))
}

/// Make an environment for `slots` locals, all `nil`, linked to `outer`.
pub fn env_alloc(scope: &mut HandleScope, outer: Value, slots: usize) -> (r: Result<Value, Error>)
    requires
        old(scope).wf(),
        machine::held(old(scope)@, outer),
    ensures
        final(scope).wf(),
        final(scope).scopes() == old(scope).scopes(),
        final(scope).room() >= old(scope).room() - 1,
        match r {
            Ok(v) => fits(*old(scope), slots as nat + 1) && made(
                old(scope)@,
                final(scope)@,
                v,
                slots_object(None, env_slots(outer, slots as nat)),
            ),
            Err(e) => e is Exhausted && !fits(*old(scope), slots as nat + 1) && final(scope)@
                == old(scope)@,
        },
{
    if slots >= u32::MAX as usize {
        return Err(Error::exhausted("a scope of this many locals"));
    }
    let mut all: Vec<Value> = Vec::new();
    all.push(outer);
    let mut i: usize = 0;
    while i < slots
        invariant
            i <= slots,
            all@ == env_slots(outer, i as nat),
        decreases slots - i,
    {
        all.push(Value::nil());
        assert(all@ =~= env_slots(outer, (i + 1) as nat));
        i += 1;
    }
    new_slots(scope, None, all)
}

/// The locals of an environment; `None` where the value is not one.
pub open spec fn env_locals(m: HeapModel, env: Value) -> Option<Seq<Value>> {
    if m.has_object(env) {
        match m.object(env).body {
            BodyModel::Slots(slots) => if slots.len() >= 1 {
                Some(slots.skip(1))
            } else {
                None
            },
            BodyModel::Bytes(_) => None,
        }
    } else {
        None
    }
}

/// How many locals an environment has; `None` where the value is not one.
pub fn env_len(scope: &HandleScope, env: Value) -> (r: Option<usize>)
    requires
        scope.wf(),
        scope@.live(env),
    ensures
        match r {
            Some(n) => env_locals(scope@, env) matches Some(locals) && n == locals.len(),
            None => env_locals(scope@, env) is None,
        },
{
    if env.is_immediate() || scope.payload_of(env) != Payload::Slots {
        return None;
    }
    let len: usize = scope.len_of(env);
    if len < 1 {
        None
    } else {
        Some(len - ENV_HEADER)
    }
}

/// What a local holds; `None` where there is no such local.
pub open spec fn env_local(m: HeapModel, env: Value, slot: int) -> Option<Value> {
    match env_locals(m, env) {
        Some(locals) => if 0 <= slot < locals.len() {
            Some(locals[slot])
        } else {
            None
        },
        None => None,
    }
}

/// What a local holds; `None` where there is no such local.
pub fn env_get(scope: &HandleScope, env: Value, slot: usize) -> (r: Option<Value>)
    requires
        scope.wf(),
        scope@.live(env),
    ensures
        r == env_local(scope@, env, slot as int),
        r matches Some(v) ==> scope@.live(v),
{
    match env_len(scope, env) {
        Some(len) => if slot < len {
            scope.slot_of(env, ENV_HEADER + slot)
        } else {
            None
        },
        None => None,
    }
}

/// A heap with a local written.
pub open spec fn env_written(m: HeapModel, env: Value, slot: int, value: Value) -> HeapModel {
    m.storing(env, heap::with_slot(m.object(env), slot + 1, value))
}

/// Write a local; whether there is one to write.
pub fn env_set(scope: &mut HandleScope, env: Value, slot: usize, value: Value) -> (r: bool)
    requires
        old(scope).wf(),
        old(scope)@.live(env),
        old(scope)@.live(value),
    ensures
        final(scope).wf(),
        final(scope).scopes() == old(scope).scopes(),
        final(scope).room() == old(scope).room(),
        r == (env_local(old(scope)@, env, slot as int) is Some),
        final(scope)@ == (if r {
            env_written(old(scope)@, env, slot as int, value)
        } else {
            old(scope)@
        }),
{
    match env_len(scope, env) {
        Some(len) => if slot < len {
            scope.store(env, ENV_HEADER + slot, value);
            true
        } else {
            false
        },
        None => false,
    }
}

/// The environment `depth` scopes out; `None` where there are not that many.
pub open spec fn env_out(m: HeapModel, env: Value, depth: nat) -> Option<Value>
    decreases depth,
{
    if depth == 0 {
        Some(env)
    } else if m.has_object(env) {
        match heap::slot_in(m.object(env), 0) {
            Some(outer) => env_out(m, outer, (depth - 1) as nat),
            None => None,
        }
    } else {
        None
    }
}

/// The environment `depth` scopes out; `None` where there are not that many.
pub fn env_outer(scope: &HandleScope, env: Value, depth: u16) -> (r: Option<Value>)
    requires
        scope.wf(),
        scope@.live(env),
    ensures
        r == env_out(scope@, env, depth as nat),
        r matches Some(v) ==> scope@.live(v),
{
    let mut at: Value = env;
    let mut left: u16 = depth;
    while left > 0
        invariant
            scope.wf(),
            scope@.live(at),
            env_out(scope@, env, depth as nat) == env_out(scope@, at, left as nat),
        decreases left,
    {
        if at.is_immediate() {
            return None;
        }
        match scope.slot_of(at, 0) {
            Some(outer) => {
                at = outer;
                left = left - 1;
            },
            None => {
                return None;
            },
        }
    }
    Some(at)
}

/// The class object of a builtin is alive.
pub proof fn lemma_builtin_is_live(m: HeapModel, builtin: Builtin)
    requires
        m.sound(),
        m.classes.wf(),
        object::kernel_in(m),
    ensures
        m.is_root(object::builtin_object(m, builtin)),
        m.live(object::builtin_object(m, builtin)),
{
    crate::boot::lemma_class_objects_reachable(m, builtin.rank());
}

/// Make an `Array`.
pub fn new_array(scope: &mut HandleScope, elements: Vec<Value>) -> (r: Result<Value, Error>)
    requires
        old(scope).wf(),
        object::kernel_in(old(scope)@),
        machine::all_held(old(scope)@, elements@),
    ensures
        final(scope).wf(),
        final(scope).scopes() == old(scope).scopes(),
        final(scope).room() >= old(scope).room() - 1,
        match r {
            Ok(v) => fits(*old(scope), elements@.len()) && made(
                old(scope)@,
                final(scope)@,
                v,
                slots_object(
                    Some(object::builtin_object(old(scope)@, Builtin::Array)),
                    elements@,
                ),
            ),
            Err(e) => e is Exhausted && !fits(*old(scope), elements@.len()) && final(scope)@
                == old(scope)@,
        },
{
    let class = scope.classes().object(Builtin::Array.id());
    proof {
        lemma_builtin_is_live(scope@, Builtin::Array);
    }
    new_slots(scope, Some(class), elements)
}

/// Make a `String` of bytes.
pub fn new_string(scope: &mut HandleScope, bytes: Vec<u8>) -> (r: Result<Value, Error>)
    requires
        old(scope).wf(),
        object::kernel_in(old(scope)@),
    ensures
        final(scope).wf(),
        final(scope).scopes() == old(scope).scopes(),
        final(scope).room() >= old(scope).room() - 1,
        match r {
            Ok(v) => fits(*old(scope), bytes@.len()) && made(
                old(scope)@,
                final(scope)@,
                v,
                bytes_object(Some(object::builtin_object(old(scope)@, Builtin::String)), bytes@),
            ),
            Err(e) => e is Exhausted && !fits(*old(scope), bytes@.len()) && final(scope)@ == old(
                scope,
            )@,
        },
{
    let class = scope.classes().object(Builtin::String.id());
    proof {
        lemma_builtin_is_live(scope@, Builtin::String);
    }
    new_bytes(scope, Some(class), bytes)
}

/// A text's bytes, cut to what an object can hold.
pub open spec fn clipped(bytes: Seq<u8>) -> Seq<u8> {
    if bytes.len() <= u32::MAX {
        bytes
    } else {
        bytes.take(u32::MAX as int)
    }
}

/// Make a `String` that holds a text.
pub fn string_new(scope: &mut HandleScope, text: &str) -> (r: Result<Value, Error>)
    requires
        old(scope).wf(),
        object::kernel_in(old(scope)@),
    ensures
        final(scope).wf(),
        final(scope).scopes() == old(scope).scopes(),
        final(scope).room() >= old(scope).room() - 1,
        match r {
            Ok(v) => old(scope).roomy() && made(
                old(scope)@,
                final(scope)@,
                v,
                bytes_object(
                    Some(object::builtin_object(old(scope)@, Builtin::String)),
                    clipped(utf8::encode_utf8(text@)),
                ),
            ),
            Err(e) => e is Exhausted && !old(scope).roomy() && final(scope)@ == old(scope)@,
        },
{
    let mut bytes: Vec<u8> = vstd::slice::slice_to_vec(text.as_bytes());
    if bytes.len() > u32::MAX as usize {
        bytes.truncate(u32::MAX as usize);
    }
    assert(bytes@ =~= clipped(utf8::encode_utf8(text@)));
    new_string(scope, bytes)
}

/// What making two objects, one in the other's slot, leaves of the first.
pub proof fn lemma_made_twice(a: HeapModel, b: HeapModel, c: HeapModel, v: Value, w: Value)
    requires
        a.sound(),
        b.sound(),
        made(a, b, v, b.object(v)),
        made(b, c, w, c.object(w)),
    ensures
        heap::persists(a, c),
        a.roots.is_prefix_of(c.roots),
        unseen(a, w),
        c.has_object(v),
        c.object(v) == b.object(v),
        c.roots.contains(v),
        v != w,
        same_tables(a, c),
{
    assert forall|x: Value| #[trigger] a.is_root(x) implies b.is_root(x) by {
        if a.roots.contains(x) {
            let k = a.roots.index_of(x);
            assert(b.roots[k] == x);
        }
    }
    heap::lemma_persists_trans(a, b, c);
    heap::lemma_still_reachable(a, b);
    assert(b.is_root(v));
    heap::law_roots_are_reachable(b, v, v@->Heap_0);
    assert(b.objects.contains_key(v@->Heap_0) && b.reachable(v@->Heap_0));
    let k = b.roots.index_of(v);
    assert(c.roots[k] == v);
    if a.objects.contains_key(w@->Heap_0) && a.reachable(w@->Heap_0) {
        assert(b.objects.contains_key(w@->Heap_0) && b.reachable(w@->Heap_0));
    }
}

/// What making an exception does: an instance of a class that says a text,
/// new, and nothing that was reachable changed.
pub open spec fn exception_made(
    before: HeapModel,
    after: HeapModel,
    v: Value,
    class: Value,
    message: Seq<char>,
) -> bool {
    let said = heap::slot_in(after.object(v), 0)->0;
    &&& after.has_object(v)
    &&& after.object(v) == slots_object(
        Some(class),
        seq![said, Value::pack(Unpacked::Nil)],
    )
    &&& after.has_object(said)
    &&& after.object(said) == bytes_object(
        Some(object::builtin_object(before, Builtin::String)),
        clipped(utf8::encode_utf8(message)),
    )
    &&& unseen(before, v)
    &&& heap::persists(before, after)
    &&& before.roots.is_prefix_of(after.roots)
    &&& after.roots.contains(v)
    &&& same_tables(before, after)
}

/// Make an instance of an exception class.
pub fn exception_of(scope: &mut HandleScope, class: Value, message: &str) -> (r: Result<
    Value,
    Error,
>)
    requires
        old(scope).wf(),
        object::kernel_in(old(scope)@),
        old(scope)@.is_root(class),
    ensures
        final(scope).wf(),
        final(scope).scopes() == old(scope).scopes(),
        final(scope).room() >= old(scope).room() - 2,
        old(scope).room() >= 2 ==> r is Ok,
        match r {
            Ok(v) => exception_made(old(scope)@, final(scope)@, v, class, message@),
            Err(e) => e is Exhausted && heap::persists(old(scope)@, final(scope)@) && old(
                scope,
            )@.roots.is_prefix_of(final(scope)@.roots) && same_tables(
                old(scope)@,
                final(scope)@,
            ),
        },
{
    let ghost before = scope@;
    let said = match string_new(scope, message) {
        Ok(said) => said,
        Err(e) => {
            return Err(e);
        },
    };
    let ghost mid = scope@;
    proof {
        assert forall|x: Value| #[trigger] before.is_root(x) implies mid.is_root(x) by {
            if before.roots.contains(x) {
                let k = before.roots.index_of(x);
                assert(mid.roots[k] == x);
            }
        }
        assert(mid.is_root(class));
    }
    let mut slots: Vec<Value> = Vec::new();
    slots.push(said);
    slots.push(Value::nil());
    assert(slots@ =~= seq![said, Value::pack(Unpacked::Nil)]);
    match new_slots(scope, Some(class), slots) {
        Ok(v) => {
            proof {
                lemma_made_twice(before, mid, scope@, said, v);
            }
            Ok(v)
        },
        Err(e) => Err(e),
    }
}

/// Make an instance of the exception class that a name means at the top
/// level.
pub fn exception_new(scope: &mut HandleScope, class: &str, message: &str) -> (r: Result<
    Value,
    Error,
>)
    requires
        old(scope).wf(),
        object::kernel_in(old(scope)@),
    ensures
        final(scope).wf(),
        final(scope).scopes() == old(scope).scopes(),
        final(scope).room() >= old(scope).room() - 2,
        match r {
            Ok(v) => kernel::constant_named(old(scope)@, class@) matches Some(c)
                && exception_made(old(scope)@, final(scope)@, v, c, message@),
            Err(e) => {
                &&& e is Malformed <==> kernel::constant_named(old(scope)@, class@) is None
                &&& e is Malformed || e is Exhausted && old(scope).room() < 2
                &&& heap::persists(old(scope)@, final(scope)@)
                &&& old(scope)@.roots.is_prefix_of(final(scope)@.roots)
                &&& same_tables(old(scope)@, final(scope)@)
            },
        },
{
    let symbol = match scope.symbols().find(class) {
        Some(symbol) => symbol,
        None => {
            return Err(Error::malformed("an exception class that is not defined"));
        },
    };
    proof {
        let names = scope@.symbols@;
        scope@.symbols.law_table();
        assert(names[names.index_of(class@)] == class@);
        assert(names.index_of(class@) == symbol.0);
    }
    let object = match scope.classes().const_get_here(Builtin::Object.id(), symbol) {
        Some(object) => object,
        None => {
            return Err(Error::malformed("an exception class that is not defined"));
        },
    };
    proof {
        let t = scope@.classes.table();
        let c = t[Builtin::Object.rank()];
        assert(crate::class::has_constant(c.constants, object)) by {
            assert(c.constants.contains_key(symbol.0) && c.constants[symbol.0] == object);
        }
        assert(crate::class::is_entry_root(t[Builtin::Object.rank()], object));
        assert(scope@.is_root(object));
    }
    exception_of(scope, object, message)
}

/// An exception that was made with a text holds that text, where an object can
/// hold it.
pub proof fn law_an_exception_says_its_message(
    before: HeapModel,
    after: HeapModel,
    v: Value,
    class: Value,
    message: Seq<char>,
)
    requires
        exception_made(before, after, v, class, message),
        utf8::encode_utf8(message).len() <= u32::MAX,
    ensures
        object::message_bytes(after, v) matches Some(bytes) && utf8::valid_utf8(bytes)
            && utf8::decode_utf8(bytes) == message,
{
    utf8::encode_utf8_valid_utf8(message);
    utf8::encode_utf8_decode_utf8(message);
}

/// What a `Proc` holds.
pub open spec fn proc_slots(
    definition: int,
    env: Value,
    receiver: Value,
    block: Value,
    lambda: bool,
    cref: CrefId,
    home: u64,
) -> Seq<Value> {
    seq![
        method::body_value(definition),
        env,
        receiver,
        object::truth(lambda),
        block,
        Value::pack(Unpacked::Fixnum(cref.0 as i64)),
        Value::pack(Unpacked::Fixnum(home as i64)),
        Value::pack(Unpacked::Fixnum(0)),
    ]
}

/// Make a `Proc`.
pub fn make_proc(
    scope: &mut HandleScope,
    definition: usize,
    env: Value,
    receiver: Value,
    block: Value,
    lambda: bool,
    cref: CrefId,
    home: u64,
) -> (r: Result<Value, Error>)
    requires
        old(scope).wf(),
        object::kernel_in(old(scope)@),
        machine::held(old(scope)@, env),
        machine::held(old(scope)@, receiver),
        machine::held(old(scope)@, block),
        definition < method::MAX_DEFINITIONS,
    ensures
        final(scope).wf(),
        final(scope).scopes() == old(scope).scopes(),
        final(scope).room() >= old(scope).room() - 1,
        match r {
            Ok(v) => {
                &&& old(scope).roomy()
                &&& value::fits_fixnum(home as int)
                &&& made(
                    old(scope)@,
                    final(scope)@,
                    v,
                    slots_object(
                        Some(object::builtin_object(old(scope)@, Builtin::Proc)),
                        proc_slots(definition as int, env, receiver, block, lambda, cref, home),
                    ),
                )
            },
            Err(e) => {
                &&& e is Exhausted
                &&& !old(scope).roomy() || !value::fits_fixnum(home as int)
                &&& final(scope)@ == old(scope)@
            },
        },
{
    if home > i64::MAX as u64 {
        return Err(Error::exhausted("another frame"));
    }
    let home_value = match Value::fixnum(home as i64) {
        Some(value) => value,
        None => {
            return Err(Error::exhausted("another frame"));
        },
    };
    let body = match Value::fixnum(definition as i64) {
        Some(value) => value,
        None => Value::nil(),
    };
    let zero = match Value::fixnum(0) {
        Some(value) => value,
        None => Value::nil(),
    };
    let class = scope.classes().object(Builtin::Proc.id());
    proof {
        lemma_builtin_is_live(scope@, Builtin::Proc);
    }
    let mut slots: Vec<Value> = Vec::new();
    slots.push(body);
    slots.push(env);
    slots.push(receiver);
    slots.push(bool_value(lambda));
    slots.push(block);
    slots.push(object::cref_value(cref));
    slots.push(home_value);
    slots.push(zero);
    assert(slots@ =~= proc_slots(definition as int, env, receiver, block, lambda, cref, home));
    new_slots(scope, Some(class), slots)
}

/// A `Proc` that was made is read back as it was made, with no frame to
/// `break` out of yet.
pub proof fn law_a_proc_keeps_its_parts(
    before: HeapModel,
    after: HeapModel,
    v: Value,
    definition: int,
    env: Value,
    receiver: Value,
    block: Value,
    lambda: bool,
    cref: CrefId,
    home: u64,
)
    requires
        object::kernel_in(before),
        made(
            before,
            after,
            v,
            slots_object(
                Some(object::builtin_object(before, Builtin::Proc)),
                proc_slots(definition, env, receiver, block, lambda, cref, home),
            ),
        ),
        0 <= definition < before.definitions.all().len(),
        before.definitions.wf(),
        before.definitions.all().len() <= method::MAX_DEFINITIONS,
        before.definitions.all()[definition] is Iseq,
        value::fits_fixnum(home as int),
    ensures
        object::proc_in(after, v) == Some(
            object::ProcModel {
                definition,
                env,
                receiver,
                block,
                lambda,
                cref,
                home,
                breaks: 0,
            },
        ),
{
    let slots = proc_slots(definition, env, receiver, block, lambda, cref, home);
    assert(slots.len() == 8);
    assert(object::is_proc(after, v));
}

} // verus!
