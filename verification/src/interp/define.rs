//! Constants, methods, and the bodies of classes and modules.

use vstd::prelude::*;
use vstd::string::*;

use crate::boot;
use crate::bytecode;
use crate::bytecode::{ClassDef, ConstScope, DefKind};
use crate::class;
use crate::class::{Builtin, ClassId, CrefId, CrefNode, Kind};
use crate::double::Floats;
use crate::heap;
use crate::heap::{HandleScope, HeapModel};
use crate::interp::call;
use crate::interp::call::MAX_IDS;
use crate::interp::equal;
use crate::interp::error;
use crate::interp::error::Error;
use crate::interp::machine;
use crate::interp::machine::{Call, CallModel, Machine, MachineModel};
use crate::interp::make;
use crate::interp::native;
use crate::interp::object;
use crate::kernel;
use crate::method;
use crate::text;
use crate::value::{SymbolId, Unpacked, Value};

verus! {

broadcast use Value::law_pack;

// ---------------------------------------------------------------------------
// Constants
// ---------------------------------------------------------------------------

/// What Ruby says of a value that is no class or module where one is needed.
pub open spec fn not_a_module<F: Floats>(floats: &F, m: HeapModel, v: Value, e: Error) -> bool {
    exists|shown: Seq<char>|
        {
            &&& #[trigger] equal::looks(floats, m, v, equal::nesting(m), shown)
            &&& error::raises(e, "TypeError"@, shown + " is not a class/module"@)
        }
}

/// The class or module a value is, for a name to be looked up in.
pub open spec fn module_outcome<F: Floats>(floats: &F, m: HeapModel, v: Value, r: Result<ClassId, Error>) -> bool {
    match object::class_id_of_value(m, v) {
        Some(id) => r == Ok::<ClassId, Error>(id),
        None => r matches Err(e) && not_a_module(floats, m, v, e),
    }
}

/// The class or module a value is, for a name to be looked up in.
pub fn module_of<F: Floats>(scope: &HandleScope, value: Value, floats: &F) -> (r: Result<
    ClassId,
    Error,
>)
    requires
        scope.wf(),
        object::kernel_in(scope@),
        scope@.live(value),
    ensures
        module_outcome(floats, scope@, value, r),
        r matches Ok(id) ==> scope@.classes.has(id),
{
    match object::class_id_of(scope, value) {
        Some(id) => Ok(id),
        None => {
            let shown = equal::inspect(scope, value, floats);
            Err(
                Error::raise_text("TypeError", text::join(shown.as_str(), " is not a class/module")),
            )
        },
    }
}

/// Where a constant reference reads from, and what it takes off the stack to
/// get there.
pub open spec fn base_outcome<F: Floats>(
    floats: &F,
    m: HeapModel,
    s: MachineModel,
    now: MachineModel,
    cref: CrefId,
    how: ConstScope,
    r: Result<ClassId, Error>,
) -> bool {
    match how {
        ConstScope::Lexical => r == Ok::<ClassId, Error>(
            m.classes.scopes()[cref.0 as int].class,
        ) && now == s,
        ConstScope::Top => r == Ok::<ClassId, Error>(Builtin::Object.class_id()) && now == s,
        ConstScope::Qualified => if s.stack.len() == 0 {
            r matches Err(e) && e is Malformed && now == s
        } else {
            module_outcome(floats, m, s.stack.last(), r) && now == s.popped()
        },
    }
}

/// A machine in order stays so without its last operand.
pub proof fn lemma_popped(m: HeapModel, s: MachineModel)
    requires
        machine::machine_ok(m, s),
        s.stack.len() > 0,
    ensures
        machine::machine_ok(m, s.popped()),
        machine::held(m, s.stack.last()),
{
    let now = s.popped();
    assert(machine::held(m, s.stack[s.stack.len() - 1]));
    assert forall|i: int| 0 <= i < now.stack.len() implies machine::held(
        m,
        #[trigger] now.stack[i],
    ) by {
        assert(now.stack[i] == s.stack[i]);
    }
    assert forall|i: int| 0 <= i < now.frames.len() implies machine::call_ok(
        m,
        #[trigger] now.frames[i],
    ) by {
        assert(now.frames[i] == s.frames[i]);
    }
}

/// Where a constant reference reads from.
pub fn const_base<F: Floats>(
    scope: &HandleScope,
    machine: &mut Machine,
    cref: CrefId,
    how: ConstScope,
    floats: &F,
) -> (r: Result<ClassId, Error>)
    requires
        scope.wf(),
        object::kernel_in(scope@),
        machine::machine_ok(scope@, old(machine)@),
        cref.0 < scope@.classes.scopes().len(),
    ensures
        machine::machine_ok(scope@, final(machine)@),
        base_outcome(floats, scope@, old(machine)@, final(machine)@, cref, how, r),
        r matches Ok(id) ==> scope@.classes.has(id),
{
    let ghost s = machine@;
    match how {
        ConstScope::Lexical => Ok(scope.classes().cref_class(cref)),
        ConstScope::Top => Ok(Builtin::Object.id()),
        ConstScope::Qualified => {
            match machine.stack.pop() {
                Some(value) => {
                    proof {
                        lemma_popped(scope@, s);
                        assert(machine@ =~= s.popped());
                        machine::lemma_held_is_live(scope@, value);
                    }
                    module_of(scope, value, floats)
                },
                None => {
                    assert(machine@ =~= s);
                    Err(Error::malformed("a constant without a module"))
                },
            }
        },
    }
}

/// What a constant reference finds.
pub open spec fn constant_found(
    m: HeapModel,
    cref: CrefId,
    from: ClassId,
    name: SymbolId,
    how: ConstScope,
) -> Option<Value> {
    match how {
        ConstScope::Lexical => class::const_bare(
            m.classes.table(),
            m.classes.scopes(),
            cref.0 as int,
            name,
        ),
        _ => class::const_qualified(m.classes.table(), from.0 as int, name),
    }
}

/// What a constant reference finds.
pub fn find_constant(
    scope: &HandleScope,
    cref: CrefId,
    from: ClassId,
    name: SymbolId,
    how: ConstScope,
) -> (r: Option<Value>)
    requires
        scope.wf(),
        object::kernel_in(scope@),
        cref.0 < scope@.classes.scopes().len(),
        scope@.classes.has(from),
    ensures
        r == constant_found(scope@, cref, from, name, how),
        r matches Some(v) ==> scope@.live(v),
{
    let found = match how {
        ConstScope::Lexical => scope.classes().const_get(cref, name),
        _ => scope.classes().const_get_qualified(from, name),
    };
    proof {
        if let Some(v) = found {
            let t = scope@.classes.table();
            class::lemma_constant_is_root(t, scope@.classes.scopes(), cref.0 as int, from.0 as int, name);
            assert(scope@.is_root(v));
        }
    }
    found
}

/// What Ruby says of a constant that is not there. A qualified reference names
/// the module it searched.
pub open spec fn uninitialized_text(
    m: HeapModel,
    from: ClassId,
    name: SymbolId,
    how: ConstScope,
) -> Seq<char> {
    match how {
        ConstScope::Qualified => "uninitialized constant "@
            + (match m.classes.table()[from.0 as int].name {
            Some(owner) => owner,
            None => "an anonymous module"@,
        }) + "::"@ + object::symbol_text(m, name),
        _ => "uninitialized constant "@ + object::symbol_text(m, name),
    }
}

/// What Ruby says of a constant that is not there.
pub fn uninitialized(scope: &HandleScope, from: ClassId, name: SymbolId, how: ConstScope) -> (r:
    Error)
    requires
        scope@.classes.has(from),
    ensures
        error::raises(r, "NameError"@, uninitialized_text(scope@, from, name, how)),
{
    let constant = object::symbol_name(scope, name);
    match how {
        ConstScope::Qualified => {
            let owner = match object::entry_name(scope, from) {
                Some(owner) => owner,
                None => "an anonymous module".to_owned(),
            };
            let mut out: String = "uninitialized constant ".to_owned();
            out.append(owner.as_str());
            out.append("::");
            out.append(constant.as_str());
            Error::raise_text("NameError", out)
        },
        _ => Error::raise_text("NameError", text::join("uninitialized constant ", constant.as_str())),
    }
}

/// What `defined?` answers where the heap knows: a word, or `nil`.
pub open spec fn word_outcome(
    before: HeapModel,
    after: HeapModel,
    answer: Option<Seq<char>>,
    r: Result<Value, Error>,
) -> bool {
    match answer {
        None => r == Ok::<Value, Error>(Value::pack(Unpacked::Nil)) && after == before,
        Some(word) => match r {
            Ok(v) => make::made(
                before,
                after,
                v,
                make::bytes_object(
                    Some(object::builtin_object(before, Builtin::String)),
                    make::clipped(vstd::utf8::encode_utf8(word)),
                ),
            ),
            Err(e) => e is Exhausted && after == before,
        },
    }
}

/// What `defined?` answers where the heap knows.
pub fn defined_word(scope: &mut HandleScope, answer: Option<&'static str>) -> (r: Result<
    Value,
    Error,
>)
    requires
        old(scope).wf(),
        object::kernel_in(old(scope)@),
    ensures
        final(scope).wf(),
        final(scope).scopes() == old(scope).scopes(),
        machine::grown(old(scope)@, final(scope)@),
        r matches Ok(v) ==> machine::held(final(scope)@, v),
        machine::costs(*old(scope), *final(scope), r, 1),
        word_outcome(
            old(scope)@,
            final(scope)@,
            match answer {
                Some(word) => Some(word@),
                None => None,
            },
            r,
        ),
{
    match answer {
        None => Ok(Value::nil()),
        Some(word) => make::string_new(scope, word),
    }
}

/// What `defined?` answers of a name: a word, or that this heap cannot tell
/// an undefined name from one it never loaded.
pub open spec fn answer_outcome(
    before: HeapModel,
    after: HeapModel,
    answer: Option<Seq<char>>,
    r: Result<Value, Error>,
) -> bool {
    match answer {
        None => {
            &&& r matches Err(e) && error::leaves_open(
                e,
                "`defined?` of a name this heap has never seen"@,
                "`require` can load the file that would define it (#39)"@,
            )
            &&& after == before
        },
        Some(word) => word_outcome(before, after, answer, r),
    }
}

/// What `defined?` answers of a name.
pub fn defined_answer(scope: &mut HandleScope, answer: Option<&'static str>) -> (r: Result<
    Value,
    Error,
>)
    requires
        old(scope).wf(),
        object::kernel_in(old(scope)@),
    ensures
        final(scope).wf(),
        final(scope).scopes() == old(scope).scopes(),
        machine::grown(old(scope)@, final(scope)@),
        r matches Ok(v) ==> machine::held(final(scope)@, v),
        machine::costs(*old(scope), *final(scope), r, 1),
        answer_outcome(
            old(scope)@,
            final(scope)@,
            match answer {
                Some(word) => Some(word@),
                None => None,
            },
            r,
        ),
{
    if answer.is_none() {
        return Err(
            Error::open_question(
                "`defined?` of a name this heap has never seen",
                "`require` can load the file that would define it (#39)",
            ),
        );
    }
    defined_word(scope, answer)
}

// ---------------------------------------------------------------------------
// Singleton classes
// ---------------------------------------------------------------------------

/// What asking a value for its singleton class comes to.
pub open spec fn singleton_outcome(
    before: HeapModel,
    after: HeapModel,
    receiver: Value,
    r: Result<ClassId, Error>,
) -> bool {
    match object::class_id_of_value(before, receiver) {
        Some(id) => match before.classes.table()[id.0 as int].singleton {
            Some(singleton) => r == Ok::<ClassId, Error>(singleton) && after == before,
            None => match r {
                Ok(singleton) => boot::singled(before, after, id, singleton),
                Err(e) => e is Exhausted && after == before,
            },
        },
        None => if !(receiver@ is Heap) {
            &&& r matches Err(e) && error::raises(e, "TypeError"@, "can't define singleton"@)
            &&& after == before
        } else if boot::class_in(before, receiver) is None {
            r matches Err(e) && e is Malformed && after == before
        } else {
            match r {
                Ok(singleton) => boot::singleton_of_object(
                    before.rooting(receiver),
                    after,
                    receiver,
                    singleton,
                ),
                Err(e) => e is Exhausted && after == before,
            }
        },
    }
}

/// The singleton class of a value, defined on the first ask.
pub fn singleton_of(scope: &mut HandleScope, receiver: Value) -> (r: Result<ClassId, Error>)
    requires
        old(scope).wf(),
        object::kernel_in(old(scope)@),
        old(scope)@.live(receiver),
    ensures
        final(scope).wf(),
        final(scope).scopes() == old(scope).scopes(),
        machine::grown(old(scope)@, final(scope)@),
        r matches Ok(id) ==> final(scope)@.classes.has(id),
        machine::costs(
            *old(scope),
            *final(scope),
            r,
            old(scope)@.classes.table().len() + 1,
        ),
        singleton_outcome(old(scope)@, final(scope)@, receiver, r),
{
    let ghost before = scope@;
    if let Some(id) = object::class_id_of(scope, receiver) {
        let ghost t = before.classes.table();
        assert(class::class_ok(t, id.0 as int));
        let lacking: usize = scope.missing_singletons(id);
        let total: usize = scope.classes().len();
        if lacking > u32::MAX as usize || !scope.has_room_for(lacking as u32) || total
            > u32::MAX as usize - lacking {
            proof {
                if t[id.0 as int].singleton is Some {
                    assert(boot::missing(t, id.0 as int) == 0);
                    assert(total <= u32::MAX) by {
                        assert(class::table_ok(t));
                    }
                }
            }
            if let Some(singleton) = scope.classes().singleton(id) {
                return Ok(singleton);
            }
            return Err(Error::exhausted("another class"));
        }
        let singleton = scope.singleton_class(id);
        return Ok(singleton);
    }
    if receiver.is_immediate() {
        return Err(Error::raise("TypeError", "can't define singleton"));
    }
    if scope.class_of_value(receiver).is_none() {
        return Err(Error::malformed("an object without a class"));
    }
    if !scope.has_room() || !scope.classes().has_room() {
        return Err(Error::exhausted("another class"));
    }
    let handle = scope.root(receiver);
    let ghost rooted = scope@;
    proof {
        assert(scope.at(handle) == receiver);
        assert(boot::class_in(rooted, receiver) == boot::class_in(before, receiver));
    }
    let singleton = scope.singleton_class_of(handle);
    Ok(singleton)
}

// ---------------------------------------------------------------------------
// Methods
// ---------------------------------------------------------------------------

/// What `def` does: the body is in the body table, and the entry has the
/// method.
pub open spec fn method_defined(
    before: HeapModel,
    after: HeapModel,
    frame: CallModel,
    owner: ClassId,
    name: SymbolId,
    child: u32,
    cref: CrefId,
) -> bool {
    &&& child < frame.iseq.children@.len()
    &&& exists|place: int|
        {
            &&& #[trigger] call::child_added(before, after, frame, child, place)
            &&& after.classes.table() == class::with_method(
                before.classes.table(),
                owner.0 as int,
                name,
                method::body_value(place),
                cref,
            )
        }
    &&& after.classes.scopes() == before.classes.scopes()
    &&& after == (HeapModel {
        definitions: after.definitions,
        classes: after.classes,
        ..before
    })
}

/// Define a method whose body is nested in a frame's code.
pub fn define_method_on(
    scope: &mut HandleScope,
    frame: &Call,
    owner: ClassId,
    name: SymbolId,
    child: u32,
    cref: CrefId,
) -> (r: Result<(), Error>)
    requires
        old(scope).wf(),
        machine::call_ok(old(scope)@, frame@),
        old(scope)@.classes.has(owner),
    ensures
        final(scope).wf(),
        final(scope).scopes() == old(scope).scopes(),
        machine::grown(old(scope)@, final(scope)@),
        machine::costs(*old(scope), *final(scope), r, 1),
        match r {
            Ok(_) => method_defined(
                old(scope)@,
                final(scope)@,
                frame@,
                owner,
                name,
                child,
                cref,
            ),
            Err(e) => {
                &&& e is Exhausted || e is Malformed && child >= frame@.iseq.children@.len()
                &&& final(scope)@ == old(scope)@
            },
        },
{
    let ghost before = scope@;
    if child as usize >= frame.iseq.children.len() {
        return Err(Error::malformed("a nested body"));
    }
    if !scope.definitions().has_room() {
        return Err(Error::exhausted("another body"));
    }
    let place: usize = call::place_child(scope, frame, child);
    let ghost mid = scope@;
    let total: usize = scope.definitions().len();
    let body = match Value::fixnum(place as i64) {
        Some(body) => body,
        None => Value::nil(),
    };
    assert(body == method::body_value(place as int));
    scope.classes_mut().define_method_in(owner, name, body, cref);
    proof {
        let t = before.classes.table();
        let now = scope@.classes.table();
        assert forall|v: Value| #[trigger] class::is_class_root(now, v) implies mid.live(v) by {
            kernel::lemma_method_roots(t, owner.0 as int, name, body, cref, v);
            if v != body {
                assert(mid.is_root(v));
            }
        }
        assert(mid.keeps_classes(scope@.classes));
        assert(call::child_added(before, scope@, frame@, child, place as int));
    }
    Ok(())
}

// ---------------------------------------------------------------------------
// Class bodies
// ---------------------------------------------------------------------------

/// A module's name: what it is bound to, inside the name of what it is bound
/// in.
pub open spec fn qualified_text(m: HeapModel, cbase: ClassId, name: SymbolId) -> Seq<char> {
    let leaf = object::symbol_text(m, name);
    match m.classes.table()[cbase.0 as int].name {
        Some(outer) => if cbase != Builtin::Object.class_id() {
            outer + "::"@ + leaf
        } else {
            leaf
        },
        None => leaf,
    }
}

/// A module's name.
pub fn qualified_name(scope: &HandleScope, cbase: ClassId, name: SymbolId) -> (r: String)
    requires
        scope@.classes.has(cbase),
    ensures
        r@ == qualified_text(scope@, cbase, name),
{
    let leaf = object::symbol_name(scope, name);
    match object::entry_name(scope, cbase) {
        Some(outer) => if cbase != Builtin::Object.id() {
            text::join3(outer.as_str(), "::", leaf.as_str())
        } else {
            leaf
        },
        None => leaf,
    }
}

/// What a body keyword opens.
pub open spec fn opens_kind(kind: DefKind) -> Kind {
    match kind {
        DefKind::Module => Kind::Module,
        _ => Kind::Class,
    }
}

/// What a body keyword is called.
pub open spec fn noun(kind: DefKind) -> Seq<char> {
    match kind {
        DefKind::Module => "module"@,
        _ => "class"@,
    }
}

/// Whether a heap differs by one constant.
pub open spec fn constant_bound(
    before: HeapModel,
    after: HeapModel,
    owner: ClassId,
    name: SymbolId,
    value: Value,
) -> bool {
    &&& after == (HeapModel { classes: after.classes, ..before })
    &&& after.classes.table() == class::with_constant(
        before.classes.table(),
        owner.0 as int,
        name,
        value,
    )
    &&& after.classes.scopes() == before.classes.scopes()
}

/// Set a constant.
pub fn bind_constant(scope: &mut HandleScope, owner: ClassId, name: SymbolId, value: Value)
    requires
        old(scope).wf(),
        old(scope)@.classes.has(owner),
        old(scope)@.live(value),
    ensures
        final(scope).wf(),
        final(scope).scopes() == old(scope).scopes(),
        final(scope).room() == old(scope).room(),
        constant_bound(old(scope)@, final(scope)@, owner, name, value),
        machine::grown(old(scope)@, final(scope)@),
{
    let ghost before = scope@;
    scope.classes_mut().const_set(owner, name, value);
    proof {
        let t = before.classes.table();
        let now = scope@.classes.table();
        assert forall|v: Value| #[trigger] class::is_class_root(now, v) implies before.live(v) by {
            kernel::lemma_constant_roots(t, owner.0 as int, name, value, v);
            if v != value {
                assert(before.is_root(v));
            }
        }
        assert(before.keeps_classes(scope@.classes));
    }
}

/// What creating a class or module does: it is defined under its full name, a
/// class gets its singleton class, and the constant is bound.
pub open spec fn created(
    before: HeapModel,
    after: HeapModel,
    cbase: ClassId,
    name: SymbolId,
    kind: DefKind,
    parent: Option<ClassId>,
    id: ClassId,
) -> bool {
    exists|plain: HeapModel, ready: HeapModel|
        {
            &&& #[trigger] boot::defined(
                before,
                plain,
                id,
                Some(qualified_text(before, cbase, name)),
                opens_kind(kind),
                parent,
                false,
            )
            &&& singleton_added(plain, ready, kind, id)
            &&& #[trigger] constant_bound(
                ready,
                after,
                cbase,
                name,
                ready.classes.table()[id.0 as int].object,
            )
        }
}

/// Whether a new class got its singleton class, and a module none.
pub open spec fn singleton_added(
    before: HeapModel,
    after: HeapModel,
    kind: DefKind,
    id: ClassId,
) -> bool {
    if kind is Module {
        after == before
    } else {
        exists|singleton: ClassId| #[trigger] boot::singled(before, after, id, singleton)
    }
}

/// The class a superclass expression names.
pub open spec fn superclass_in(m: HeapModel, v: Value) -> Option<ClassId> {
    match object::class_id_of_value(m, v) {
        Some(id) => if m.classes.table()[id.0 as int].kind is Class {
            Some(id)
        } else {
            None
        },
        None => None,
    }
}

/// Whether a class, or one it inherits from, has a singleton method of a name.
pub open spec fn answers_to(t: Seq<class::ClassModel>, id: int, name: SymbolId) -> bool
    decreases id,
{
    &&& 0 <= id < t.len()
    &&& {
        ||| t[id].singleton matches Some(s) && class::lookup_of(t, s.0 as int, name) is Some
        ||| t[id].superclass matches Some(p) && p.0 < id && answers_to(t, p.0 as int, name)
    }
}

/// Whether defining a class that inherits from another would have to run its
/// `inherited`.
pub open spec fn hooked(m: HeapModel, id: ClassId) -> bool {
    m.symbols@.contains("inherited"@) && answers_to(
        m.classes.table(),
        id.0 as int,
        SymbolId(m.symbols@.index_of("inherited"@) as u32),
    )
}

/// Whether defining a class that inherits from another would have to run its
/// `inherited`.
fn has_hook(scope: &HandleScope, id: ClassId) -> (r: bool)
    requires
        scope.wf(),
        scope@.classes.has(id),
    ensures
        r == hooked(scope@, id),
{
    let name = match scope.symbols().find("inherited") {
        Some(name) => name,
        None => {
            return false;
        },
    };
    proof {
        scope@.symbols.law_table();
        let names = scope@.symbols@;
        assert(names.contains("inherited"@)) by {
            assert(names[name.0 as int] == "inherited"@);
        }
        assert(names[names.index_of("inherited"@)] == "inherited"@);
        assert(names.index_of("inherited"@) == name.0);
    }
    let ghost t = scope@.classes.table();
    let mut cursor: Option<ClassId> = Some(id);
    while cursor.is_some()
        invariant
            scope.wf(),
            scope@.symbols@.contains("inherited"@),
            scope@.symbols@.index_of("inherited"@) == name.0,
            t == scope@.classes.table(),
            cursor matches Some(c) ==> c.0 < t.len(),
            answers_to(t, id.0 as int, name) <==> match cursor {
                Some(c) => answers_to(t, c.0 as int, name),
                None => false,
            },
        decreases (match cursor {
            Some(c) => c.0 + 1,
            None => 0,
        }),
    {
        let c = cursor.unwrap();
        assert(class::class_ok(t, c.0 as int));
        if let Some(single) = scope.classes().singleton(c) {
            if scope.classes().lookup_uncached(single, name).is_some() {
                return true;
            }
        }
        cursor = scope.classes().superclass(c);
    }
    false
}

/// What finding or creating the module that a body opens comes to.
pub open spec fn reopen_outcome<F: Floats>(
    floats: &F,
    before: HeapModel,
    after: HeapModel,
    cbase: ClassId,
    name: SymbolId,
    kind: DefKind,
    superclass: Option<Value>,
    r: Result<ClassId, Error>,
) -> bool {
    let t = before.classes.table();
    let leaf = object::symbol_text(before, name);
    let wanted = match superclass {
        Some(v) => superclass_in(before, v),
        None => None,
    };
    if superclass is Some && wanted is None {
        &&& after == before
        &&& r matches Err(e) && exists|shown: Seq<char>|
            {
                &&& #[trigger] equal::names_class(floats, before, superclass->0, shown)
                &&& error::raises(
                    e,
                    "TypeError"@,
                    "superclass must be an instance of Class (given an instance of "@ + shown
                        + ")"@,
                )
            }
    } else {
        match class::const_here(t, cbase.0 as int, name) {
            Some(existing) => {
                &&& after == before
                &&& match object::class_id_of_value(before, existing) {
                    None => r matches Err(e) && error::raises(
                        e,
                        "TypeError"@,
                        leaf + " is not a class"@,
                    ),
                    Some(id) => if t[id.0 as int].kind != opens_kind(kind) {
                        r matches Err(e) && error::raises(
                            e,
                            "TypeError"@,
                            leaf + " is not a "@ + noun(kind),
                        )
                    } else if wanted is Some && t[id.0 as int].superclass != wanted {
                        r matches Err(e) && error::raises(
                            e,
                            "TypeError"@,
                            "superclass mismatch for class "@ + leaf,
                        )
                    } else {
                        r == Ok::<ClassId, Error>(id)
                    },
                }
            },
            None => {
                let parent = if kind is Module {
                    None
                } else if wanted is Some {
                    wanted
                } else {
                    Some(Builtin::Object.class_id())
                };
                if parent is Some && hooked(before, parent->0) {
                    &&& after == before
                    &&& r matches Err(e) && error::leaves_open(
                        e,
                        "a class under one with an `inherited` method"@,
                        "hooks run"@,
                    )
                } else {
                    match r {
                        Ok(id) => created(before, after, cbase, name, kind, parent, id),
                        Err(e) => e is Exhausted,
                    }
                }
            },
        }
    }
}

/// Find the module that a body opens, or create it.
pub fn define_or_reopen<F: Floats>(
    scope: &mut HandleScope,
    cbase: ClassId,
    name: SymbolId,
    kind: DefKind,
    superclass: Option<Value>,
    floats: &F,
) -> (r: Result<ClassId, Error>)
    requires
        old(scope).wf(),
        object::kernel_in(old(scope)@),
        old(scope)@.classes.has(cbase),
        superclass matches Some(v) ==> old(scope)@.live(v),
    ensures
        final(scope).wf(),
        final(scope).scopes() == old(scope).scopes(),
        machine::grown(old(scope)@, final(scope)@),
        r matches Ok(id) ==> final(scope)@.classes.has(id),
        machine::costs(
            *old(scope),
            *final(scope),
            r,
            old(scope)@.classes.table().len() + 2,
        ),
        reopen_outcome(floats, old(scope)@, final(scope)@, cbase, name, kind, superclass, r),
{
    let ghost before = scope@;
    let ghost t = before.classes.table();
    let mut wanted: Option<ClassId> = None;
    if let Some(value) = superclass {
        wanted = match object::class_id_of(scope, value) {
            Some(id) => if scope.classes().kind(id) == Kind::Class {
                Some(id)
            } else {
                None
            },
            None => None,
        };
        if wanted.is_none() {
            let shown = equal::class_name(scope, value, floats);
            return Err(
                Error::raise_text(
                    "TypeError",
                    text::join3(
                        "superclass must be an instance of Class (given an instance of ",
                        shown.as_str(),
                        ")",
                    ),
                ),
            );
        }
    }
    let is_module = match kind {
        DefKind::Module => true,
        _ => false,
    };
    if let Some(existing) = scope.classes().const_get_here(cbase, name) {
        proof {
            class::lemma_here_is_root(t, cbase.0 as int, name);
            assert(before.is_root(existing));
        }
        let leaf = object::symbol_name(scope, name);
        let id = match object::class_id_of(scope, existing) {
            Some(id) => id,
            None => {
                return Err(
                    Error::raise_text("TypeError", text::join(leaf.as_str(), " is not a class")),
                );
            },
        };
        let found_module = match scope.classes().kind(id) {
            Kind::Module => true,
            Kind::Class => false,
        };
        if found_module != is_module {
            let word: &'static str = if is_module {
                "module"
            } else {
                "class"
            };
            return Err(
                Error::raise_text("TypeError", text::join3(leaf.as_str(), " is not a ", word)),
            );
        }
        if let Some(w) = wanted {
            let same = match scope.classes().superclass(id) {
                Some(s) => s == w,
                None => false,
            };
            if !same {
                return Err(
                    Error::raise_text(
                        "TypeError",
                        text::join("superclass mismatch for class ", leaf.as_str()),
                    ),
                );
            }
        }
        return Ok(id);
    }
    if !is_module {
        let parent = match wanted {
            Some(w) => w,
            None => Builtin::Object.id(),
        };
        if has_hook(scope, parent) {
            return Err(
                Error::open_question("a class under one with an `inherited` method", "hooks run"),
            );
        }
    }
    if !scope.has_room() || !scope.classes().has_room() {
        return Err(Error::exhausted("another class"));
    }
    let path = qualified_name(scope, cbase, name);
    let ghost parent: Option<ClassId> = if kind is Module {
        None
    } else if wanted is Some {
        wanted
    } else {
        Some(Builtin::Object.class_id())
    };
    let id = if is_module {
        scope.define_module(Some(path.as_str()))
    } else {
        let parent = match wanted {
            Some(w) => w,
            None => Builtin::Object.id(),
        };
        scope.define_class(Some(path.as_str()), Some(parent))
    };
    let ghost plain = scope@;
    proof {
        assert(boot::defined(
            before,
            plain,
            id,
            Some(qualified_text(before, cbase, name)),
            opens_kind(kind),
            parent,
            false,
        ));
        assert(machine::grown(before, plain));
    }
    if !is_module {
        let lacking: usize = scope.missing_singletons(id);
        let total: usize = scope.classes().len();
        if lacking > u32::MAX as usize || !scope.has_room_for(lacking as u32) || total
            > u32::MAX as usize - lacking {
            return Err(Error::exhausted("another class"));
        }
        let singleton = scope.singleton_class(id);
        assert(boot::singled(plain, scope@, id, singleton));
    }
    let ghost ready = scope@;
    proof {
        assert(singleton_added(plain, ready, kind, id));
        assert(machine::grown(plain, ready));
        call::lemma_grown_trans(before, plain, ready);
    }
    let object = scope.classes().object(id);
    proof {
        boot::lemma_class_objects_reachable(ready, id.0 as int);
    }
    bind_constant(scope, cbase, name, object);
    proof {
        call::lemma_grown_trans(before, ready, scope@);
        assert(constant_bound(
            ready,
            scope@,
            cbase,
            name,
            ready.classes.table()[id.0 as int].object,
        ));
        assert(created(before, scope@, cbase, name, kind, parent, id));
    }
    Ok(id)
}

/// How many operands a body keyword takes.
pub open spec fn body_operands(def: ClassDef) -> int {
    if def.kind is Singleton {
        1
    } else {
        (if def.superclass {
            1int
        } else {
            0
        }) + (if def.scoped {
            1int
        } else {
            0
        })
    }
}

/// The machine without a body keyword's operands.
pub open spec fn without_definee(s: MachineModel, def: ClassDef) -> MachineModel {
    MachineModel { stack: s.stack.take(s.stack.len() - body_operands(def)), ..s }
}

/// Whether a frame has what a body keyword names.
pub open spec fn body_ok(s: MachineModel, def: ClassDef) -> bool {
    &&& body_operands(def) <= s.stack.len()
    &&& !(def.kind is Singleton) ==> def.name < s.top().symbols.len()
    &&& def.body < s.top().iseq.children@.len()
}

/// What finding the module a body opens comes to.
pub open spec fn definee_outcome<F: Floats>(
    floats: &F,
    before: HeapModel,
    after: HeapModel,
    s: MachineModel,
    def: ClassDef,
    r: Result<ClassId, Error>,
) -> bool {
    if def.kind is Singleton {
        singleton_outcome(before, after, s.stack.last(), r)
    } else {
        let within = s.stack[s.stack.len() - body_operands(def)];
        let superclass = if def.superclass {
            Some(s.stack.last())
        } else {
            None
        };
        let name = s.top().symbols[def.name as int];
        if def.scoped && object::class_id_of_value(before, within) is None {
            &&& after == before
            &&& r matches Err(e) && not_a_module(floats, before, within, e)
        } else {
            let cbase = if def.scoped {
                object::class_id_of_value(before, within)->0
            } else {
                before.classes.scopes()[s.top().cref.0 as int].class
            };
            reopen_outcome(floats, before, after, cbase, name, def.kind, superclass, r)
        }
    }
}

/// Find the module a body opens.
fn definee<F: Floats>(
    scope: &mut HandleScope,
    machine: &Machine,
    def: &ClassDef,
    floats: &F,
) -> (r: Result<ClassId, Error>)
    requires
        old(scope).wf(),
        object::kernel_in(old(scope)@),
        machine::machine_ok(old(scope)@, machine@),
        machine@.frames.len() > 0,
        body_ok(machine@, *def),
    ensures
        final(scope).wf(),
        final(scope).scopes() == old(scope).scopes(),
        machine::grown(old(scope)@, final(scope)@),
        r matches Ok(id) ==> final(scope)@.classes.has(id),
        machine::costs(
            *old(scope),
            *final(scope),
            r,
            old(scope)@.classes.table().len() + 2,
        ),
        definee_outcome(floats, old(scope)@, final(scope)@, machine@, *def, r),
{
    let ghost before = scope@;
    let ghost s = machine@;
    let top: usize = machine.frames.len() - 1;
    let depth: usize = machine.stack.len();
    assert(s.top() == machine.frames@[top as int]@);
    assert(machine::call_ok(before, s.frames[top as int]));
    if def.kind == DefKind::Singleton {
        let value = machine.stack[depth - 1];
        proof {
            assert(machine::held(before, s.stack[depth - 1]));
            machine::lemma_held_is_live(before, value);
        }
        return singleton_of(scope, value);
    }
    let above: usize = if def.superclass {
        1
    } else {
        0
    };
    let superclass: Option<Value> = if def.superclass {
        let value = machine.stack[depth - 1];
        proof {
            assert(machine::held(before, s.stack[depth - 1]));
            machine::lemma_held_is_live(before, value);
        }
        Some(value)
    } else {
        None
    };
    let cbase = if def.scoped {
        let value = machine.stack[depth - above - 1];
        proof {
            assert(machine::held(before, s.stack[depth - above - 1]));
            machine::lemma_held_is_live(before, value);
        }
        match module_of(scope, value, floats) {
            Ok(cbase) => cbase,
            Err(e) => {
                return Err(e);
            },
        }
    } else {
        scope.classes().cref_class(machine.frames[top].cref)
    };
    let name = machine.frames[top].symbols[def.name as usize];
    define_or_reopen(scope, cbase, name, def.kind, superclass, floats)
}

/// The heap once a lexical scope was opened and a body put in the body table.
pub open spec fn scope_opened(
    before: HeapModel,
    after: HeapModel,
    frame: CallModel,
    id: ClassId,
    child: u32,
    place: int,
) -> bool {
    &&& after == (HeapModel {
        roots: after.roots,
        classes: after.classes,
        definitions: after.definitions,
        ..before
    })
    &&& before.roots.is_prefix_of(after.roots)
    &&& after.classes.table() == before.classes.table()
    &&& after.classes.scopes() == before.classes.scopes().push(
        CrefNode { class: id, parent: Some(frame.cref) },
    )
    &&& call::child_added(before, after, frame, child, place)
}

/// The frame of a body as it is entered: `self` is the module.
pub open spec fn body_call(
    m: HeapModel,
    frame: CallModel,
    id: ClassId,
    child: u32,
    place: int,
    symbols: Seq<SymbolId>,
    env: Value,
    base: nat,
    number: u64,
) -> CallModel {
    CallModel {
        definition: Some(place as usize),
        iseq: *frame.iseq.children@[child as int],
        symbols,
        env,
        receiver: m.classes.table()[id.0 as int].object,
        block: Value::pack(Unpacked::Nil),
        cref: CrefId(m.classes.scopes().len() as u32),
        pc: 0,
        base: base as usize,
        keeps_receiver: false,
        id: number,
        home: number,
        breaks: 0,
        tag: None,
        rescued: None,
        parked: Seq::empty(),
    }
}

/// What entering a body does: a lexical scope is opened inside the one the
/// keyword is in, and the body runs in a frame of its own.
pub open spec fn body_entered(
    before: HeapModel,
    after: HeapModel,
    s: MachineModel,
    now: MachineModel,
    id: ClassId,
    child: u32,
) -> bool {
    let frame = now.top();
    let iseq = *s.top().iseq.children@[child as int];
    &&& now == (MachineModel { frames: s.frames.push(frame), ids: (s.ids + 1) as u64, ..s })
    &&& call::links_to(after.symbols@, iseq, frame.symbols)
    &&& exists|mid: HeapModel, place: int|
        {
            &&& #[trigger] scope_opened(before, mid, s.top(), id, child, place)
            &&& call::env_ready(mid, after, iseq, Value::pack(Unpacked::Nil), frame.env)
            &&& frame == body_call(
                before,
                s.top(),
                id,
                child,
                place,
                frame.symbols,
                frame.env,
                s.stack.len(),
                (s.ids + 1) as u64,
            )
        }
}

/// What a body keyword comes to.
pub open spec fn class_opened<F: Floats>(
    floats: &F,
    before: HeapModel,
    after: HeapModel,
    s: MachineModel,
    now: MachineModel,
    def: ClassDef,
    r: Result<(), Error>,
) -> bool {
    if !body_ok(s, def) {
        r matches Err(e) && e is Malformed && now == s && after == before
    } else {
        match r {
            Ok(_) => exists|mid: HeapModel, id: ClassId|
                {
                    &&& #[trigger] definee_outcome(floats, before, mid, s, def, Ok(id))
                    &&& body_entered(mid, after, without_definee(s, def), now, id, def.body)
                },
            Err(e) => {
                &&& now == without_definee(s, def)
                &&& e is Exhausted || definee_outcome(floats, before, after, s, def, Err(e))
            },
        }
    }
}

/// Enter a body nested in the frame that runs.
fn enter_body(scope: &mut HandleScope, machine: &mut Machine, id: ClassId, child: u32) -> (r: Result<
    (),
    Error,
>)
    requires
        old(scope).wf(),
        object::kernel_in(old(scope)@),
        machine::machine_ok(old(scope)@, old(machine)@),
        old(machine)@.frames.len() > 0,
        old(machine)@.ids < MAX_IDS,
        old(scope)@.classes.has(id),
        child < old(machine)@.top().iseq.children@.len(),
    ensures
        final(scope).wf(),
        final(scope).scopes() == old(scope).scopes(),
        machine::grown(old(scope)@, final(scope)@),
        machine::machine_ok(final(scope)@, final(machine)@),
        machine::costs(
            *old(scope),
            *final(scope),
            r,
            machine::weight(*old(machine)@.top().iseq.children@[child as int]) + 2,
        ),
        match r {
            Ok(_) => body_entered(
                old(scope)@,
                final(scope)@,
                old(machine)@,
                final(machine)@,
                id,
                child,
            ),
            Err(e) => e is Exhausted && final(machine)@ == old(machine)@,
        },
{
    let ghost before = scope@;
    let ghost s = machine@;
    let top: usize = machine.frames.len() - 1;
    assert(s.top() == machine.frames@[top as int]@);
    assert(machine::call_ok(before, s.frames[top as int]));
    if !scope.classes().has_scope_room() {
        return Err(Error::exhausted("another lexical scope"));
    }
    if !scope.definitions().has_room() {
        return Err(Error::exhausted("another body"));
    }
    let outer = machine.frames[top].cref;
    let place: usize = call::place_child(scope, &machine.frames[top], child);
    let ghost one = scope@;
    let cref = scope.classes_mut().push_cref(outer, id);
    proof {
        assert(one.keeps_classes(scope@.classes)) by {
            assert forall|v: Value| #[trigger]
                class::is_class_root(scope@.classes.table(), v) implies one.live(v) by {
                assert(one.is_root(v));
            }
        }
    }
    let receiver = scope.classes().object(id);
    let ghost two = scope@;
    proof {
        boot::lemma_class_objects_reachable(two, id.0 as int);
    }
    scope.hold(receiver);
    let ghost mid = scope@;
    proof {
        assert(scope_opened(before, mid, s.top(), id, child, place as int));
        assert(machine::held(mid, receiver)) by {
            assert(mid.roots[mid.roots.len() - 1] == receiver);
        }
        assert(machine::grown(before, mid));
        machine::lemma_grown(before, mid);
    }
    let total: usize = scope.definitions().len();
    let iseq = bytecode::share(&machine.frames[top].iseq.children[child as usize]);
    let ghost code = call::code_of(&iseq);
    let nil = Value::nil();
    let env = match make::env_alloc(scope, nil, iseq.locals.len()) {
        Ok(env) => env,
        Err(e) => {
            return Err(e);
        },
    };
    let ghost allocated = scope@;
    proof {
        assert(machine::grown(mid, allocated));
        call::lemma_grown_trans(before, mid, allocated);
        machine::lemma_grown(before, allocated);
    }
    let names: usize = iseq.symbols.len();
    let known: usize = scope.symbols().len();
    if names > u32::MAX as usize || known > (u32::MAX as usize) - names {
        return Err(Error::exhausted("more symbols"));
    }
    let symbols = iseq.link(scope.symbols_mut());
    let ghost after = scope@;
    proof {
        bytecode::lemma_linked_table(
            mid.symbols@,
            bytecode::pool(code.symbols@),
            code.symbols@.len() as int,
        );
        assert(allocated =~= (HeapModel { symbols: mid.symbols, ..after }));
        assert(call::env_ready(mid, after, code, nil, env));
        assert(machine::grown(allocated, after));
        call::lemma_grown_trans(before, allocated, after);
        machine::lemma_grown(before, after);
        machine::lemma_grown(mid, after);
    }
    machine.ids = machine.ids + 1;
    let number: u64 = machine.ids;
    let base: usize = machine.stack.len();
    let frame = Call {
        definition: Some(place),
        iseq,
        symbols,
        env,
        receiver,
        block: nil,
        cref,
        pc: 0,
        base,
        keeps_receiver: false,
        id: number,
        home: number,
        breaks: 0,
        tag: None,
        rescued: None,
        parked: Vec::new(),
    };
    let ghost model = frame@;
    machine.frames.push(frame);
    proof {
        assert(model =~= body_call(
            before,
            s.top(),
            id,
            child,
            place as int,
            symbols@,
            env,
            s.stack.len(),
            number,
        ));
        assert(machine@.frames =~= s.frames.push(model));
        assert(machine::held(after, receiver));
        assert(machine::call_ok(after, model));
        assert(machine::machine_ok(after, s));
        assert forall|i: int| 0 <= i < machine@.frames.len() implies machine::call_ok(
            after,
            #[trigger] machine@.frames[i],
        ) by {
            if i < s.frames.len() {
                assert(machine::call_ok(after, s.frames[i]));
            }
        }
    }
    Ok(())
}

/// How many entries opening a body may need: a singleton class for every
/// class in line, and what the longest body nested in the frame takes.
pub open spec fn open_cost(m: HeapModel, s: MachineModel) -> nat {
    m.classes.table().len() + machine::nested(s.top().iseq.children@) + 4
}

/// Open the body of a class, a module or a singleton class.
pub fn open_class<F: Floats>(
    scope: &mut HandleScope,
    machine: &mut Machine,
    def: &ClassDef,
    floats: &F,
) -> (r: Result<(), Error>)
    requires
        old(scope).wf(),
        object::kernel_in(old(scope)@),
        machine::machine_ok(old(scope)@, old(machine)@),
        old(machine)@.frames.len() > 0,
        old(machine)@.ids < MAX_IDS,
    ensures
        final(scope).wf(),
        final(scope).scopes() == old(scope).scopes(),
        machine::grown(old(scope)@, final(scope)@),
        machine::machine_ok(final(scope)@, final(machine)@),
        native::ids_kept(old(machine)@, final(machine)@),
        machine::costs(
            *old(scope),
            *final(scope),
            r,
            open_cost(old(scope)@, old(machine)@),
        ),
        class_opened(
            floats,
            old(scope)@,
            final(scope)@,
            old(machine)@,
            final(machine)@,
            *def,
            r,
        ),
{
    let ghost before = scope@;
    let ghost s = machine@;
    let top: usize = machine.frames.len() - 1;
    assert(s.top() == machine.frames@[top as int]@);
    let depth: usize = machine.stack.len();
    let singleton = def.kind == DefKind::Singleton;
    let mut operands: usize = 0;
    if singleton {
        operands = 1;
    } else {
        if def.superclass {
            operands = operands + 1;
        }
        if def.scoped {
            operands = operands + 1;
        }
    }
    if depth < operands {
        return Err(Error::malformed("fewer operands than a body takes"));
    }
    if !singleton && def.name as usize >= machine.frames[top].symbols.len() {
        return Err(Error::malformed("a body without a name"));
    }
    if def.body as usize >= machine.frames[top].iseq.children.len() {
        return Err(Error::malformed("a nested body"));
    }
    let found = definee(scope, machine, def, floats);
    let ghost mid = scope@;
    machine.stack.truncate(depth - operands);
    let ghost left = machine@;
    proof {
        machine::lemma_grown(before, mid);
        assert(left =~= without_definee(s, *def));
        assert(machine::machine_ok(mid, s));
        assert(machine::machine_ok(mid, left)) by {
            assert forall|i: int| 0 <= i < left.stack.len() implies machine::held(
                mid,
                #[trigger] left.stack[i],
            ) by {
                assert(left.stack[i] == s.stack[i]);
            }
            assert forall|i: int| 0 <= i < left.frames.len() implies machine::call_ok(
                mid,
                #[trigger] left.frames[i],
            ) by {
                assert(left.frames[i] == s.frames[i]);
            }
        }
    }
    let id = match found {
        Ok(id) => id,
        Err(e) => {
            return Err(e);
        },
    };
    assert(left.top() == s.top());
    let r = enter_body(scope, machine, id, def.body);
    proof {
        machine::lemma_nested(s.top().iseq.children@, def.body as int);
        call::lemma_grown_trans(before, mid, scope@);
        assert(definee_outcome(floats, before, mid, s, *def, Ok(id)));
    }
    r
}

} // verus!
