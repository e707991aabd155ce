//! What every heap starts with: the builtin classes, the exception classes,
//! the outermost lexical scope, and the methods the interpreter performs
//! itself.

use vstd::prelude::*;

use crate::boot;
use crate::bytecode;
use crate::class;
use crate::class::{Builtin, ClassId, ClassModel, CrefId, CrefNode, Kind};
use crate::exception;
use crate::exception::{ErrorClass, ERROR_CLASSES};
use crate::heap;
use crate::heap::{HandleScope, Heap, HeapModel, Object, Payload};
use crate::method;
use crate::method::{Definition, Native, MAX_DEFINITIONS};
use crate::mixin;
use crate::shared::symbols;
use crate::shared::symbols::Symbols;
use crate::value::{SymbolId, Unpacked, Value};

verus! {

broadcast use {Value::law_pack, Symbols::law_table};

/// How many classes of [`Builtin`] there are.
pub const BUILTINS: usize = 15;

/// How many names the primitive methods have.
pub const PRIMITIVES: usize = 25;

/// How many primitive bodies there are.
pub const PRIMITIVE_BODIES: usize = 17;

/// How many builtins mix a module in.
pub const MIXINS: usize = 6;

/// The bytes of a class object.
pub const CLASS_BYTES: u64 = 24;

// ---------------------------------------------------------------------------
// Primitives
// ---------------------------------------------------------------------------

/// The body of a group of primitive methods.
pub open spec fn primitive_body(group: int) -> Native {
    if group == 0 {
        Native::Call
    } else if group == 1 {
        Native::IsLambda
    } else if group == 2 {
        Native::Arity
    } else if group == 3 {
        Native::Send
    } else if group == 4 {
        Native::MakeProc { lambda: false }
    } else if group == 5 {
        Native::MakeProc { lambda: true }
    } else if group == 6 {
        Native::BlockGiven
    } else if group == 7 {
        Native::ClassOf
    } else if group == 8 {
        Native::New
    } else if group == 9 {
        Native::ArrayPlus
    } else if group == 10 {
        Native::Raise
    } else if group == 11 {
        Native::Throw
    } else if group == 12 {
        Native::Catch
    } else if group == 13 {
        Native::ExceptionMessage
    } else if group == 14 {
        Native::ExceptionBacktrace
    } else if group == 15 {
        Native::Equal
    } else {
        Native::NilP
    }
}

/// A primitive method: its class, its name, and the group its body is from.
pub open spec fn primitive(i: int) -> (Builtin, Seq<char>, int) {
    if i == 0 {
        (Builtin::Proc, "call"@, 0)
    } else if i == 1 {
        (Builtin::Proc, "()"@, 0)
    } else if i == 2 {
        (Builtin::Proc, "[]"@, 0)
    } else if i == 3 {
        (Builtin::Proc, "yield"@, 0)
    } else if i == 4 {
        (Builtin::Proc, "==="@, 0)
    } else if i == 5 {
        (Builtin::Proc, "lambda?"@, 1)
    } else if i == 6 {
        (Builtin::Proc, "arity"@, 2)
    } else if i == 7 {
        (Builtin::Kernel, "send"@, 3)
    } else if i == 8 {
        (Builtin::Kernel, "__send__"@, 3)
    } else if i == 9 {
        (Builtin::Kernel, "public_send"@, 3)
    } else if i == 10 {
        (Builtin::Kernel, "proc"@, 4)
    } else if i == 11 {
        (Builtin::Kernel, "lambda"@, 5)
    } else if i == 12 {
        (Builtin::Kernel, "block_given?"@, 6)
    } else if i == 13 {
        (Builtin::Kernel, "class"@, 7)
    } else if i == 14 {
        (Builtin::Class, "new"@, 8)
    } else if i == 15 {
        (Builtin::Array, "+"@, 9)
    } else if i == 16 {
        (Builtin::Kernel, "raise"@, 10)
    } else if i == 17 {
        (Builtin::Kernel, "fail"@, 10)
    } else if i == 18 {
        (Builtin::Kernel, "throw"@, 11)
    } else if i == 19 {
        (Builtin::Kernel, "catch"@, 12)
    } else if i == 20 {
        (Builtin::Exception, "message"@, 13)
    } else if i == 21 {
        (Builtin::Exception, "to_s"@, 13)
    } else if i == 22 {
        (Builtin::Exception, "backtrace"@, 14)
    } else if i == 23 {
        (Builtin::Kernel, "equal?"@, 15)
    } else {
        (Builtin::Kernel, "nil?"@, 16)
    }
}

fn primitive_native(group: usize) -> (r: Native)
    requires
        group < PRIMITIVE_BODIES,
    ensures
        r == primitive_body(group as int),
{
    if group == 0 {
        Native::Call
    } else if group == 1 {
        Native::IsLambda
    } else if group == 2 {
        Native::Arity
    } else if group == 3 {
        Native::Send
    } else if group == 4 {
        Native::MakeProc { lambda: false }
    } else if group == 5 {
        Native::MakeProc { lambda: true }
    } else if group == 6 {
        Native::BlockGiven
    } else if group == 7 {
        Native::ClassOf
    } else if group == 8 {
        Native::New
    } else if group == 9 {
        Native::ArrayPlus
    } else if group == 10 {
        Native::Raise
    } else if group == 11 {
        Native::Throw
    } else if group == 12 {
        Native::Catch
    } else if group == 13 {
        Native::ExceptionMessage
    } else if group == 14 {
        Native::ExceptionBacktrace
    } else if group == 15 {
        Native::Equal
    } else {
        Native::NilP
    }
}

fn primitive_row(i: usize) -> (r: (Builtin, &'static str, usize))
    requires
        i < PRIMITIVES,
    ensures
        r.0 == primitive(i as int).0,
        r.1@ == primitive(i as int).1,
        r.2 == primitive(i as int).2,
        r.2 < PRIMITIVE_BODIES,
{
    if i == 0 {
        (Builtin::Proc, "call", 0)
    } else if i == 1 {
        (Builtin::Proc, "()", 0)
    } else if i == 2 {
        (Builtin::Proc, "[]", 0)
    } else if i == 3 {
        (Builtin::Proc, "yield", 0)
    } else if i == 4 {
        (Builtin::Proc, "===", 0)
    } else if i == 5 {
        (Builtin::Proc, "lambda?", 1)
    } else if i == 6 {
        (Builtin::Proc, "arity", 2)
    } else if i == 7 {
        (Builtin::Kernel, "send", 3)
    } else if i == 8 {
        (Builtin::Kernel, "__send__", 3)
    } else if i == 9 {
        (Builtin::Kernel, "public_send", 3)
    } else if i == 10 {
        (Builtin::Kernel, "proc", 4)
    } else if i == 11 {
        (Builtin::Kernel, "lambda", 5)
    } else if i == 12 {
        (Builtin::Kernel, "block_given?", 6)
    } else if i == 13 {
        (Builtin::Kernel, "class", 7)
    } else if i == 14 {
        (Builtin::Class, "new", 8)
    } else if i == 15 {
        (Builtin::Array, "+", 9)
    } else if i == 16 {
        (Builtin::Kernel, "raise", 10)
    } else if i == 17 {
        (Builtin::Kernel, "fail", 10)
    } else if i == 18 {
        (Builtin::Kernel, "throw", 11)
    } else if i == 19 {
        (Builtin::Kernel, "catch", 12)
    } else if i == 20 {
        (Builtin::Exception, "message", 13)
    } else if i == 21 {
        (Builtin::Exception, "to_s", 13)
    } else if i == 22 {
        (Builtin::Exception, "backtrace", 14)
    } else if i == 23 {
        (Builtin::Kernel, "equal?", 15)
    } else {
        (Builtin::Kernel, "nil?", 16)
    }
}

/// The bodies of the primitive methods.
pub open spec fn primitive_definitions(n: nat) -> Seq<Definition> {
    Seq::new(n, |g: int| Definition::Native(primitive_body(g)))
}

/// The symbol table once the names of the first `n` primitives are in it.
pub open spec fn primitive_names(names: Seq<Seq<char>>, n: int) -> Seq<Seq<char>>
    decreases n,
{
    if n <= 0 {
        names
    } else {
        symbols::interned(primitive_names(names, n - 1), primitive(n - 1).1)
    }
}

/// The class table once the first `n` primitives are defined, with their
/// bodies in the body table from `base` on.
pub open spec fn primitive_table(
    t: Seq<ClassModel>,
    names: Seq<Seq<char>>,
    base: int,
    n: int,
) -> Seq<ClassModel>
    decreases n,
{
    if n <= 0 {
        t
    } else {
        let (class, name, group) = primitive(n - 1);
        class::with_method(
            primitive_table(t, names, base, n - 1),
            class.rank(),
            SymbolId(names.index_of(name) as u32),
            method::body_value(base + group),
            CrefId::root(),
        )
    }
}

/// When each entry last changed, once the first `n` primitives are defined from
/// a generation on.
pub open spec fn primitive_stamps(stamps: Seq<u64>, from: u64, n: int) -> Seq<u64>
    decreases n,
{
    if n <= 0 {
        stamps
    } else {
        primitive_stamps(stamps, from, n - 1).update(
            primitive(n - 1).0.rank(),
            from.wrapping_add(n as u64),
        )
    }
}

/// What installing the primitives does.
pub open spec fn primitives_installed(before: HeapModel, after: HeapModel) -> bool {
    &&& after.symbols@ == primitive_names(before.symbols@, PRIMITIVES as int)
    &&& after.definitions.all() == before.definitions.all() + primitive_definitions(
        PRIMITIVE_BODIES as nat,
    )
    &&& after.definitions.keyed() == before.definitions.keyed()
    &&& after.definitions.children() == before.definitions.children()
    &&& after.classes.cached() == Map::<u64, Option<class::Method>>::empty()
    &&& after.classes.generation() == before.classes.generation().wrapping_add(PRIMITIVES as u64)
    &&& after.classes.stamps() == primitive_stamps(
        before.classes.stamps(),
        before.classes.generation(),
        PRIMITIVES as int,
    )
    &&& after.classes.table() == primitive_table(
        before.classes.table(),
        after.symbols@,
        before.definitions.all().len() as int,
        PRIMITIVES as int,
    )
    &&& after.classes.scopes() == before.classes.scopes()
    &&& after.objects == before.objects
    &&& after.roots == before.roots
    &&& after.regexps == before.regexps
    &&& after.last_match == before.last_match
}

/// What a primitive table leaves alone.
proof fn lemma_primitive_table(t: Seq<ClassModel>, names: Seq<Seq<char>>, base: int, n: int)
    requires
        0 <= n <= PRIMITIVES,
        t.len() >= BUILTINS,
    ensures
        primitive_table(t, names, base, n).len() == t.len(),
        forall|i: int|
            0 <= i < t.len() ==> (#[trigger] primitive_table(t, names, base, n)[i]) == (ClassModel {
                methods: primitive_table(t, names, base, n)[i].methods,
                ..t[i]
            }),
    decreases n,
{
    if n > 0 {
        lemma_primitive_table(t, names, base, n - 1);
    }
}

/// Names that are in the table stay where they are as it grows.
proof fn lemma_primitive_names(names: Seq<Seq<char>>, n: int)
    requires
        0 <= n <= PRIMITIVES,
        names.no_duplicates(),
    ensures
        primitive_names(names, n).no_duplicates(),
        names.is_prefix_of(primitive_names(names, n)),
        primitive_names(names, n).len() <= names.len() + n,
        forall|i: int| 0 <= i < n ==> primitive_names(names, n).contains((#[trigger] primitive(i)).1),
    decreases n,
{
    if n > 0 {
        lemma_primitive_names(names, n - 1);
        let before = primitive_names(names, n - 1);
        let name = primitive(n - 1).1;
        let after = symbols::interned(before, name);
        assert(before.is_prefix_of(after));
        assert(after.contains(name)) by {
            if !before.contains(name) {
                assert(after[before.len() as int] == name);
            }
        }
        assert forall|i: int| 0 <= i < n implies after.contains((#[trigger] primitive(i)).1) by {
            if i < n - 1 {
                let k = before.index_of(primitive(i).1);
                assert(after[k] == primitive(i).1);
            }
        }
    }
}

/// Define the methods that the interpreter performs itself.
pub fn install_primitives(scope: &mut HandleScope)
    requires
        old(scope).wf(),
        old(scope)@.classes.table().len() >= BUILTINS,
        old(scope)@.symbols@.len() + PRIMITIVES <= u32::MAX,
        old(scope)@.definitions.all().len() + PRIMITIVE_BODIES <= MAX_DEFINITIONS,
    ensures
        final(scope).wf(),
        final(scope).scopes() == old(scope).scopes(),
        final(scope).room() == old(scope).room(),
        final(scope).accounts() == old(scope).accounts(),
        primitives_installed(old(scope)@, final(scope)@),
{
    let ghost before = scope@;
    let ghost base = before.definitions.all().len() as int;
    let mut i: usize = 0;
    while i < PRIMITIVES
        invariant
            scope.wf(),
            i <= PRIMITIVES,
            before.symbols.wf(),
            before.symbols@.len() + PRIMITIVES <= u32::MAX,
            scope@ == (HeapModel { symbols: scope@.symbols, ..before }),
            scope@.symbols@ == primitive_names(before.symbols@, i as int),
            scope.scopes() == old(scope).scopes(),
            scope.room() == old(scope).room(),
            scope.accounts() == old(scope).accounts(),
        decreases PRIMITIVES - i,
    {
        let (_, name, _) = primitive_row(i);
        proof {
            lemma_primitive_names(before.symbols@, i as int);
        }
        scope.symbols_mut().intern(name);
        i += 1;
    }
    let ghost names = scope@.symbols@;
    let mut bodies: Vec<Value> = Vec::new();
    let mut g: usize = 0;
    while g < PRIMITIVE_BODIES
        invariant
            scope.wf(),
            g <= PRIMITIVE_BODIES,
            base == before.definitions.all().len(),
            base + PRIMITIVE_BODIES <= MAX_DEFINITIONS,
            scope@.symbols@ == names,
            scope@ == (HeapModel {
                symbols: scope@.symbols,
                definitions: scope@.definitions,
                ..before
            }),
            scope@.definitions.all() == before.definitions.all() + primitive_definitions(g as nat),
            scope@.definitions.keyed() == before.definitions.keyed(),
            scope@.definitions.children() == before.definitions.children(),
            bodies@.len() == g,
            forall|k: int| 0 <= k < g ==> #[trigger] bodies@[k] == method::body_value(base + k),
            scope.scopes() == old(scope).scopes(),
            scope.room() == old(scope).room(),
            scope.accounts() == old(scope).accounts(),
        decreases PRIMITIVE_BODIES - g,
    {
        let ghost all = scope@.definitions.all();
        let body = scope.definitions_mut().add(Definition::Native(primitive_native(g)));
        bodies.push(body);
        proof {
            assert(scope@.definitions.all() =~= before.definitions.all() + primitive_definitions(
                (g + 1) as nat,
            ));
        }
        g += 1;
    }
    proof {
        lemma_primitive_names(before.symbols@, PRIMITIVES as int);
    }
    let ghost t = before.classes.table();
    let mut j: usize = 0;
    while j < PRIMITIVES
        invariant
            scope.wf(),
            j <= PRIMITIVES,
            t == before.classes.table(),
            t.len() >= BUILTINS,
            base + PRIMITIVE_BODIES <= MAX_DEFINITIONS,
            base >= 0,
            bodies@.len() == PRIMITIVE_BODIES,
            forall|k: int|
                0 <= k < PRIMITIVE_BODIES ==> #[trigger] bodies@[k] == method::body_value(base + k),
            scope@.symbols@ == names,
            names.no_duplicates(),
            names.len() <= u32::MAX,
            forall|k: int| 0 <= k < PRIMITIVES ==> names.contains((#[trigger] primitive(k)).1),
            scope@.definitions.all() == before.definitions.all() + primitive_definitions(
                PRIMITIVE_BODIES as nat,
            ),
            scope@.definitions.keyed() == before.definitions.keyed(),
            scope@.definitions.children() == before.definitions.children(),
            j > 0 ==> scope@.classes.cached() == Map::<u64, Option<class::Method>>::empty(),
            scope@.classes.generation() == before.classes.generation().wrapping_add(j as u64),
            scope@.classes.stamps() == primitive_stamps(
                before.classes.stamps(),
                before.classes.generation(),
                j as int,
            ),
            scope@.objects == before.objects,
            scope@.roots == before.roots,
            scope@.regexps == before.regexps,
            scope@.last_match == before.last_match,
            scope@.classes.scopes() == before.classes.scopes(),
            scope@.classes.table() == primitive_table(t, names, base, j as int),
            scope.scopes() == old(scope).scopes(),
            scope.room() == old(scope).room(),
            scope.accounts() == old(scope).accounts(),
        decreases PRIMITIVES - j,
    {
        let (builtin, name, group) = primitive_row(j);
        assert(names.contains(primitive(j as int).1));
        let ghost mid = scope@;
        let symbol = scope.symbols_mut().intern(name);
        let body = bodies[group];
        let ghost u = scope@.classes.table();
        proof {
            lemma_primitive_table(t, names, base, j as int);
        }
        scope.classes_mut().define_method(builtin.id(), symbol, body);
        proof {
            let now = scope@.classes.table();
            assert(now == primitive_table(t, names, base, j + 1));
            assert(body == method::body_value(base + group));
            assert(mid.live(body));
            assert forall|v: Value| #[trigger] class::is_class_root(now, v) implies mid.live(v) by {
                lemma_method_roots(u, builtin.rank(), symbol, body, CrefId::root(), v);
                if v != body {
                    assert(mid.is_root(v));
                }
            }
            assert(mid.keeps_classes(scope@.classes));
        }
        j += 1;
    }
}

/// Defining a method adds its body to what the table holds, at most.
pub proof fn lemma_method_roots(
    t: Seq<ClassModel>,
    id: int,
    name: SymbolId,
    body: Value,
    cref: CrefId,
    v: Value,
)
    requires
        0 <= id < t.len(),
        class::is_class_root(class::with_method(t, id, name, body, cref), v),
    ensures
        v == body || class::is_class_root(t, v),
{
    let now = class::with_method(t, id, name, body, cref);
    let j = choose|j: int| 0 <= j < now.len() && class::is_entry_root(#[trigger] now[j], v);
    if j != id {
        assert(class::is_entry_root(t[j], v));
    } else {
        let methods = now[j].methods;
        if class::has_body(methods, v) && v != body {
            let k = choose|k: u32| #[trigger] methods.contains_key(k) && methods[k].0 == v;
            assert(t[j].methods.contains_key(k) && t[j].methods[k].0 == v);
            assert(class::has_body(t[j].methods, v));
        }
        if v != body {
            assert(class::is_entry_root(t[j], v));
        }
    }
}

/// Setting a constant adds its value to what the table holds, at most.
pub proof fn lemma_constant_roots(
    t: Seq<ClassModel>,
    id: int,
    name: SymbolId,
    value: Value,
    v: Value,
)
    requires
        0 <= id < t.len(),
        class::is_class_root(class::with_constant(t, id, name, value), v),
    ensures
        v == value || class::is_class_root(t, v),
{
    let now = class::with_constant(t, id, name, value);
    let j = choose|j: int| 0 <= j < now.len() && class::is_entry_root(#[trigger] now[j], v);
    if j != id {
        assert(class::is_entry_root(t[j], v));
    } else {
        let constants = now[j].constants;
        if class::has_constant(constants, v) && v != value {
            let k = choose|k: u32| #[trigger] constants.contains_key(k) && constants[k] == v;
            assert(t[j].constants.contains_key(k) && t[j].constants[k] == v);
            assert(class::has_constant(t[j].constants, v));
        }
        if v != value {
            assert(class::is_entry_root(t[j], v));
        }
    }
}

// ---------------------------------------------------------------------------
// The class hierarchy
// ---------------------------------------------------------------------------

/// The superclass of a builtin, as a table entry.
pub open spec fn parent_id(builtin: Builtin) -> Option<ClassId> {
    match builtin.parent() {
        Some(parent) => Some(parent.class_id()),
        None => None,
    }
}

/// The run of a builtin that has mixed in what it mixes in.
pub open spec fn builtin_run(builtin: Builtin) -> Seq<ClassId> {
    match builtin.mixed_in() {
        Some(module) => seq![builtin.class_id(), module.class_id()],
        None => seq![builtin.class_id()],
    }
}

/// A builtin's entry, but for what it holds and who has it.
pub open spec fn is_builtin(c: ClassModel, builtin: Builtin) -> bool {
    &&& c.name == Some(builtin.text())
    &&& c.kind == builtin.kind_of()
    &&& c.superclass == parent_id(builtin)
    &&& c.own == builtin_run(builtin)
    &&& c.origin == 0
    &&& c.singleton is None
    &&& !c.is_singleton
}

/// An exception class's entry, but for what it holds.
pub open spec fn is_error(c: ClassModel, error: ErrorClass) -> bool {
    &&& c.name == Some(error.text())
    &&& c.kind is Class
    &&& c.superclass == Some(error.parent_id())
    &&& c.own == seq![error.class_id()]
    &&& c.origin == 0
    &&& c.singleton is None
    &&& !c.is_singleton
}

/// Whether the entry at `i` has a class object of its own that holds its id.
pub open spec fn has_class_body(m: HeapModel, i: int) -> bool {
    let object = m.classes.table()[i].object;
    &&& m.has_object(object)
    &&& m.object(object) == boot::class_object(m.object(object).class, ClassId(i as u32))
}

/// Whether no two entries share a class object.
pub open spec fn distinct_objects(t: Seq<ClassModel>) -> bool {
    forall|i: int, j: int|
        0 <= i < j < t.len() ==> (#[trigger] t[i]).object@ != (#[trigger] t[j]).object@
}

/// The first builtins, before anything is mixed in.
spec fn builtins_defined(m: HeapModel, n: int) -> bool {
    let t = m.classes.table();
    &&& t.len() == n
    &&& forall|b: Builtin| #[trigger]
        b.rank() < n ==> t[b.rank()] == class::fresh_class(
            b.class_id(),
            t[b.rank()].object,
            Some(b.text()),
            b.kind_of(),
            parent_id(b),
            false,
        )
    &&& forall|i: int| 0 <= i < n ==> #[trigger] has_class_body(m, i)
    &&& distinct_objects(t)
}

/// A heap that differs in its class table and its objects alone.
spec fn classes_changed(before: HeapModel, after: HeapModel) -> bool {
    &&& after.classes.scopes() == before.classes.scopes()
    &&& after.roots == before.roots
    &&& after.definitions == before.definitions
    &&& after.regexps == before.regexps
    &&& after.last_match == before.last_match
    &&& after.symbols == before.symbols
}

/// The value of a constant that can be reached by its name from anywhere.
pub open spec fn constant_named(m: HeapModel, name: Seq<char>) -> Option<Value> {
    if m.symbols@.contains(name) {
        class::const_here(
            m.classes.table(),
            Builtin::Object.rank(),
            SymbolId(m.symbols@.index_of(name) as u32),
        )
    } else {
        None
    }
}

/// Whether a name is that of a class every heap starts with.
pub open spec fn kernel_named(name: Seq<char>) -> bool {
    ||| exists|b: Builtin| #[trigger] b.text() == name
    ||| exists|e: ErrorClass| #[trigger] e.text() == name
}

/// A heap whose only constants are `Object`'s, under names of classes every
/// heap starts with.
pub open spec fn kernel_constants(m: HeapModel) -> bool {
    let t = m.classes.table();
    &&& forall|i: int|
        0 <= i < t.len() && i != Builtin::Object.rank() ==> (#[trigger] t[i]).constants == Map::<
            u32,
            Value,
        >::empty()
    &&& forall|k: u32| #[trigger]
        t[Builtin::Object.rank()].constants.contains_key(k) ==> k < m.symbols@.len()
            && kernel_named(m.symbols@[k as int])
}

/// What the entries of a table are called, in order.
pub open spec fn class_names(t: Seq<ClassModel>) -> Seq<Seq<char>> {
    Seq::new(t.len(), |i: int| t[i].name->0)
}

/// The symbol table of a new heap: what was in it, the names of the builtins,
/// of the exception classes and of the primitives.
pub open spec fn booted_names(names: Seq<Seq<char>>, t: Seq<ClassModel>) -> Seq<Seq<char>> {
    primitive_names(
        bytecode::linked_table(
            bytecode::linked_table(
                names,
                class_names(t.take(BUILTINS as int)),
                BUILTINS as int,
            ),
            class_names(t.skip(BUILTINS as int)),
            ERROR_CLASSES as int,
        ),
        PRIMITIVES as int,
    )
}

/// When each entry of a new heap last changed: a builtin as the last module was
/// mixed in, an exception class as it was defined, and what has primitives as
/// the last of them was.
pub open spec fn booted_stamps(generation: u64) -> Seq<u64> {
    primitive_stamps(
        Seq::new(
            (BUILTINS + ERROR_CLASSES) as nat,
            |i: int|
                generation.wrapping_add(
                    if i < BUILTINS {
                        (BUILTINS + MIXINS) as u64
                    } else {
                        (MIXINS + i + 1) as u64
                    },
                ),
        ),
        generation.wrapping_add((BUILTINS + MIXINS + ERROR_CLASSES) as u64),
        PRIMITIVES as int,
    )
}

/// Names that go into a table go in alike from pools that start alike.
proof fn lemma_linked_alike(
    names: Seq<Seq<char>>,
    one: Seq<Seq<char>>,
    other: Seq<Seq<char>>,
    n: int,
)
    requires
        forall|k: int| 0 <= k < n ==> #[trigger] one[k] == other[k],
    ensures
        bytecode::linked_table(names, one, n) == bytecode::linked_table(names, other, n),
    decreases n,
{
    if n > 0 {
        lemma_linked_alike(names, one, other, n - 1);
        assert(one[n - 1] == other[n - 1]);
    }
}

/// Whether an address is that of a class object.
pub open spec fn is_class_address(m: HeapModel, a: u64) -> bool {
    exists|i: int|
        0 <= i < m.classes.table().len() && (#[trigger] m.classes.table()[i]).object@
            == Unpacked::Heap(a)
}

/// Whether a heap has room for `n` class objects before a collection is due.
pub open spec fn calm(heap: Heap, n: nat) -> bool {
    n > 0 ==> heap.pending() + (n - 1) * CLASS_BYTES < heap.threshold()
}

/// What a heap without classes has become once it has `n`: their objects were
/// made and no others, and no other object has changed. Where no collection
/// came in between, all that was there is there, and what was counted is so
/// many objects more.
pub open spec fn classes_made(start: Heap, now: Heap, n: nat) -> bool {
    let was = start.counters();
    let is = now.counters();
    &&& now@.classes.table().len() == n
    &&& is.total_allocated == was.total_allocated.wrapping_add(n as u64)
    &&& was.blocks <= is.blocks <= was.blocks + n
    &&& forall|a: u64| #[trigger]
        now@.objects.contains_key(a) && !is_class_address(now@, a) ==> start@.objects.contains_key(
            a,
        ) && now@.objects[a] == start@.objects[a]
    &&& calm(start, n) ==> {
        &&& is.collections == was.collections
        &&& is.live_objects == was.live_objects
        &&& is.live_bytes == was.live_bytes
        &&& is.large_objects == was.large_objects
        &&& now.threshold() == start.threshold()
        &&& now.pending() == heap::capped(start.pending() + n * CLASS_BYTES)
        &&& forall|a: u64| #[trigger]
            start@.objects.contains_key(a) ==> now@.objects.contains_key(a)
                && now@.objects[a] == start@.objects[a] && !is_class_address(now@, a)
    }
}

/// Another class defined.
proof fn lemma_class_made(
    start: Heap,
    prev: Heap,
    now: Heap,
    n: nat,
    id: ClassId,
    name: Option<Seq<char>>,
    kind: Kind,
    superclass: Option<ClassId>,
)
    requires
        classes_made(start, prev, n),
        n < u32::MAX,
        boot::defined(prev@, now@, id, name, kind, superclass, false),
        heap::tallied(prev, now, Payload::Slots, boot::CLASS_SLOTS),
        !prev.due() ==> boot::all_kept(prev@, now@, now@.classes.table()[id.0 as int].object),
    ensures
        classes_made(start, now, n + 1),
{
    let t = prev@.classes.table();
    let u = now@.classes.table();
    let object = u[id.0 as int].object;
    assert(heap::object_bytes(Payload::Slots, boot::CLASS_SLOTS) == CLASS_BYTES);
    assert(object@ is Heap);
    assert forall|a: u64| is_class_address(prev@, a) implies is_class_address(now@, a) by {
        let i = choose|i: int|
            0 <= i < t.len() && (#[trigger] t[i]).object@ == Unpacked::Heap(a);
        assert(u[i] == t[i]);
    }
    assert forall|a: u64| #[trigger]
        now@.objects.contains_key(a) && !is_class_address(now@, a) implies start@.objects.contains_key(
        a,
    ) && now@.objects[a] == start@.objects[a] by {
        assert(object@ != Unpacked::Heap(a)) by {
            assert(u[id.0 as int].object == object);
        }
        assert(prev@.objects.contains_key(a));
    }
    if calm(start, n + 1) {
        assert(calm(start, n));
        assert(!prev.due());
        assert forall|a: u64| #[trigger] start@.objects.contains_key(a) implies now@.objects.contains_key(
            a,
        ) && now@.objects[a] == start@.objects[a] && !is_class_address(now@, a) by {
            assert(prev@.objects.contains_key(a));
            if is_class_address(now@, a) {
                let i = choose|i: int|
                    0 <= i < u.len() && (#[trigger] u[i]).object@ == Unpacked::Heap(a);
                if i < t.len() {
                    assert(u[i] == t[i]);
                    assert(is_class_address(prev@, a));
                }
            }
        }
    }
}

/// What leaves the class objects where they are, and all others alone, makes
/// and counts none.
proof fn lemma_classes_kept(start: Heap, prev: Heap, now: Heap, n: nat)
    requires
        classes_made(start, prev, n),
        now.accounts() == prev.accounts(),
        now@.objects.dom() == prev@.objects.dom(),
        forall|a: u64| #[trigger]
            now@.objects.contains_key(a) && !is_class_address(prev@, a) ==> now@.objects[a]
                == prev@.objects[a],
        now@.classes.table().len() == n,
        forall|i: int|
            0 <= i < n ==> (#[trigger] now@.classes.table()[i]).object
                == prev@.classes.table()[i].object,
    ensures
        classes_made(start, now, n),
{
    let t = prev@.classes.table();
    let u = now@.classes.table();
    assert(now.counters() == now.accounts().counters);
    assert(prev.counters() == prev.accounts().counters);
    assert(now.pending() == prev.pending() && now.threshold() == prev.threshold()) by {
        assert(now.accounts().pending == prev.accounts().pending);
        assert(now.accounts().threshold == prev.accounts().threshold);
    }
    assert forall|a: u64| #[trigger] is_class_address(now@, a) == is_class_address(prev@, a) by {
        if is_class_address(now@, a) {
            let i = choose|i: int|
                0 <= i < u.len() && (#[trigger] u[i]).object@ == Unpacked::Heap(a);
            assert(t[i].object == u[i].object);
        }
        if is_class_address(prev@, a) {
            let i = choose|i: int|
                0 <= i < t.len() && (#[trigger] t[i]).object@ == Unpacked::Heap(a);
            assert(u[i].object == t[i].object);
        }
    }
    assert forall|a: u64| #[trigger] now@.objects.contains_key(a) == prev@.objects.contains_key(
        a,
    ) by {
        assert(now@.objects.dom().contains(a) == prev@.objects.dom().contains(a));
    }
    if calm(start, n) {
        assert forall|a: u64| #[trigger] start@.objects.contains_key(a) implies now@.objects.contains_key(
            a,
        ) && now@.objects[a] == start@.objects[a] && !is_class_address(now@, a) by {
            assert(prev@.objects.contains_key(a) && !is_class_address(prev@, a));
            assert(now@.objects.contains_key(a));
        }
    }
}

/// What defining a class adds to the class bodies.
proof fn lemma_defined_bodies(
    before: HeapModel,
    after: HeapModel,
    id: ClassId,
    name: Option<Seq<char>>,
    kind: Kind,
    superclass: Option<ClassId>,
)
    requires
        before.sound(),
        before.classes.wf(),
        boot::defined(before, after, id, name, kind, superclass, false),
        forall|i: int|
            0 <= i < before.classes.table().len() ==> #[trigger] has_class_body(before, i),
        distinct_objects(before.classes.table()),
    ensures
        forall|i: int|
            0 <= i < after.classes.table().len() ==> #[trigger] has_class_body(after, i),
        forall|i: int|
            0 <= i < before.classes.table().len() ==> (#[trigger] after.object(
                before.classes.table()[i].object,
            )) == before.object(before.classes.table()[i].object),
        distinct_objects(after.classes.table()),
{
    let t = before.classes.table();
    let now = after.classes.table();
    assert forall|i: int| 0 <= i < t.len() implies after.has_object(t[i].object) && (
    #[trigger] after.object(t[i].object)) == before.object(t[i].object) && t[i].object@
        != now[id.0 as int].object@ by {
        boot::lemma_class_objects_reachable(before, i);
        let a = t[i].object@->Heap_0;
        assert(before.objects.contains_key(a) && before.reachable(a));
    }
    assert forall|i: int| 0 <= i < now.len() implies #[trigger] has_class_body(after, i) by {
        if i < t.len() {
            assert(now[i] == t[i]);
            assert(has_class_body(before, i));
            assert(after.object(t[i].object) == before.object(t[i].object));
        }
    }
    assert forall|i: int, j: int| 0 <= i < j < now.len() implies (#[trigger] now[i]).object@ != (
    #[trigger] now[j]).object@ by {
        assert(now[i] == t[i]);
        assert(after.object(t[i].object) == before.object(t[i].object));
        if j < t.len() {
            assert(now[j] == t[j]);
        }
    }
}

impl HandleScope {
    /// Define the builtin classes.
    fn define_builtins(&mut self)
        requires
            old(self).wf(),
            old(self).room() >= BUILTINS,
            old(self)@.classes.table().len() == 0,
        ensures
            final(self).wf(),
            final(self).scopes() == old(self).scopes(),
            final(self).room() >= old(self).room() - BUILTINS,
            builtins_defined(final(self)@, BUILTINS as int),
            classes_made(old(self).inner(), final(self).inner(), BUILTINS as nat),
            final(self)@.classes.generation() == old(self)@.classes.generation().wrapping_add(
                BUILTINS as u64,
            ),
            classes_changed(old(self)@, final(self)@),
    {
        let all = Builtin::all();
        let mut i: usize = 0;
        while i < BUILTINS
            invariant
                self.wf(),
                i <= BUILTINS,
                classes_made(old(self).inner(), self.inner(), i as nat),
                self@.classes.generation() == old(self)@.classes.generation().wrapping_add(i as u64),
                forall|k: int| 0 <= k < 15 ==> (#[trigger] all@[k]).rank() == k,
                self.scopes() == old(self).scopes(),
                self.room() >= old(self).room() - i,
                old(self).room() >= BUILTINS,
                builtins_defined(self@, i as int),
                classes_changed(old(self)@, self@),
            decreases BUILTINS - i,
        {
            let builtin = all[i];
            assert(builtin.rank() == i);
            let superclass = match builtin.superclass() {
                Some(parent) => Some(parent.id()),
                None => None,
            };
            let ghost before = self@;
            let ghost prev = self.inner();
            let id = self.define(Some(builtin.name()), builtin.kind(), superclass, false);
            proof {
                lemma_class_made(
                    old(self).inner(),
                    prev,
                    self.inner(),
                    i as nat,
                    id,
                    Some(builtin.text()),
                    builtin.kind_of(),
                    superclass,
                );
                lemma_defined_bodies(
                    before,
                    self@,
                    id,
                    Some(builtin.text()),
                    builtin.kind_of(),
                    superclass,
                );
                let t = before.classes.table();
                let now = self@.classes.table();
                assert forall|b: Builtin| #[trigger] b.rank() < i + 1 implies now[b.rank()]
                    == class::fresh_class(
                    b.class_id(),
                    now[b.rank()].object,
                    Some(b.text()),
                    b.kind_of(),
                    parent_id(b),
                    false,
                ) by {
                    if b.rank() == i {
                        assert(b == builtin);
                    } else {
                        assert(now[b.rank()] == t[b.rank()]);
                    }
                }
            }
            i += 1;
        }
    }
}

/// How many of the first `n` builtins mix a module in.
spec fn mixed_before(n: int) -> u64 {
    (if n > Builtin::Object.rank() {
        1int
    } else {
        0
    } + if n > Builtin::Numeric.rank() {
        1int
    } else {
        0
    } + if n > Builtin::Symbol.rank() {
        1int
    } else {
        0
    } + if n > Builtin::String.rank() {
        1int
    } else {
        0
    } + if n > Builtin::Array.rank() {
        1int
    } else {
        0
    } + if n > Builtin::Hash.rank() {
        1int
    } else {
        0
    }) as u64
}

/// The builtins once the first `n` have mixed in what they mix in.
spec fn builtins_mixed(t: Seq<ClassModel>, n: int) -> bool {
    &&& t.len() == BUILTINS
    &&& forall|b: Builtin| #[trigger] mixed_entry(t, b, n)
}

spec fn mixed_entry(t: Seq<ClassModel>, b: Builtin, n: int) -> bool {
    let c = t[b.rank()];
    &&& c == (ClassModel {
        own: c.own,
        includers: c.includers,
        ..class::fresh_class(
            b.class_id(),
            c.object,
            Some(b.text()),
            b.kind_of(),
            parent_id(b),
            false,
        )
    })
    &&& c.own == if b.rank() < n {
        builtin_run(b)
    } else {
        seq![b.class_id()]
    }
    &&& c.kind is Class ==> c.includers == Seq::<ClassId>::empty()
}

/// No builtin inherits the module it mixes in.
proof fn lemma_not_inherited(t: Seq<ClassModel>, b: Builtin, module: Builtin, n: int)
    requires
        class::table_ok(t),
        builtins_mixed(t, n),
        n == b.rank(),
        b.mixed_in() == Some(module),
    ensures
        !class::inherited_of(t, b.rank()).contains(module.class_id()),
{
    assert(mixed_entry(t, b, n));
    assert(mixed_entry(t, Builtin::Object, n));
    assert(mixed_entry(t, Builtin::BasicObject, n));
    let base = Builtin::BasicObject.rank();
    class::lemma_ancestors(t, base);
    class::lemma_ancestors(t, Builtin::Object.rank());
    class::lemma_ancestors(t, b.rank());
    assert(class::ancestors_of(t, base) =~= seq![Builtin::BasicObject.class_id()]);
    if b != Builtin::Object {
        let above = class::ancestors_of(t, Builtin::Object.rank());
        assert(above =~= builtin_run(Builtin::Object) + seq![Builtin::BasicObject.class_id()]);
    }
}

impl HandleScope {
    /// Mix in what the builtins mix in.
    fn mix_builtins(&mut self)
        requires
            old(self).wf(),
            builtins_defined(old(self)@, BUILTINS as int),
        ensures
            final(self).wf(),
            final(self).scopes() == old(self).scopes(),
            final(self).room() == old(self).room(),
            builtins_mixed(final(self)@.classes.table(), BUILTINS as int),
            final(self).accounts() == old(self).accounts(),
            final(self)@.classes.generation() == old(self)@.classes.generation().wrapping_add(
                MIXINS as u64,
            ),
            final(self)@.classes.stamps() == Seq::new(
                BUILTINS as nat,
                |i: int| final(self)@.classes.generation(),
            ),
            final(self)@.objects == old(self)@.objects,
            forall|i: int|
                0 <= i < BUILTINS ==> (#[trigger] final(self)@.classes.table()[i]).object == old(
                    self,
                )@.classes.table()[i].object,
            classes_changed(old(self)@, final(self)@),
    {
        let ghost before = self@;
        let all = Builtin::all();
        let mut i: usize = 0;
        proof {
            let t = self@.classes.table();
            assert forall|b: Builtin| #[trigger] mixed_entry(t, b, 0) by {
                assert(b.rank() < BUILTINS);
            }
        }
        while i < BUILTINS
            invariant
                self.wf(),
                i <= BUILTINS,
                forall|k: int| 0 <= k < 15 ==> (#[trigger] all@[k]).rank() == k,
                self.scopes() == old(self).scopes(),
                self.room() == old(self).room(),
                before == old(self)@,
                self.accounts() == old(self).accounts(),
                self@.classes.generation() == before.classes.generation().wrapping_add(
                    mixed_before(i as int),
                ),
                i > Builtin::Object.rank() ==> self@.classes.stamps() == Seq::new(
                    BUILTINS as nat,
                    |k: int| self@.classes.generation(),
                ),
                builtins_mixed(self@.classes.table(), i as int),
                forall|k: int|
                    0 <= k < BUILTINS ==> (#[trigger] self@.classes.table()[k]).object
                        == before.classes.table()[k].object,
                self@.objects == before.objects,
                classes_changed(before, self@),
            decreases BUILTINS - i,
        {
            let builtin = all[i];
            assert(builtin.rank() == i);
            assert(builtin.mixed_in() is Some <==> mixed_before(i + 1) == mixed_before(i as int) + 1);
            let ghost mid = self@;
            let ghost t = self@.classes.table();
            if let Some(module) = builtin.includes() {
                proof {
                    assert(mixed_entry(t, builtin, i as int));
                    assert(mixed_entry(t, module, i as int));
                    lemma_not_inherited(t, builtin, module, i as int);
                    mixin::lemma_simple_include(t, builtin.rank(), module.rank());
                    assert(t[builtin.rank()].own =~= seq![ClassId(builtin.rank() as u32)]);
                    let own = t[module.rank()].own;
                    assert(own == seq![module.class_id()]);
                    assert(!own.contains(builtin.class_id())) by {
                        if own.contains(builtin.class_id()) {
                            assert(own[0] == module.class_id());
                        }
                    }
                }
                let mixed = self.classes_mut().include_module(builtin.id(), module.id());
                proof {
                    let now = self@.classes.table();
                    mixin::lemma_inserted(t, builtin.rank(), 1, module.class_id());
                    assert(now == mixin::inserted(t, builtin.rank(), 1, module.class_id()));
                    assert forall|v: Value| #[trigger]
                        class::is_class_root(now, v) implies mid.live(v) by {
                        let j = choose|j: int|
                            0 <= j < now.len() && class::is_entry_root(#[trigger] now[j], v);
                        assert(mixin::keeps(t, now, j));
                        assert(class::is_entry_root(t[j], v));
                        assert(mid.is_root(v));
                    }
                    assert(mid.keeps_classes(self@.classes));
                    assert forall|b: Builtin| #[trigger] mixed_entry(now, b, i + 1) by {
                        assert(mixed_entry(t, b, i as int));
                        assert(mixin::keeps(t, now, b.rank()));
                        if b == builtin {
                            assert(now[b.rank()].own =~= builtin_run(b));
                        }
                    }
                    assert forall|k: int| 0 <= k < BUILTINS implies (#[trigger] now[k]).object
                        == before.classes.table()[k].object by {
                        assert(mixin::keeps(t, now, k));
                        assert(t[k].object == before.classes.table()[k].object);
                    }
                }
            } else {
                proof {
                    assert forall|b: Builtin| #[trigger] mixed_entry(t, b, i + 1) by {
                        assert(mixed_entry(t, b, i as int));
                        if b.rank() == i {
                            assert(b == builtin);
                        }
                    }
                }
            }
            i += 1;
        }
    }

    /// Give every builtin's class object the class that defining it came too
    /// early for.
    fn head_builtins(&mut self)
        requires
            old(self).wf(),
            builtins_mixed(old(self)@.classes.table(), BUILTINS as int),
            distinct_objects(old(self)@.classes.table()),
            forall|i: int| 0 <= i < BUILTINS ==> #[trigger] has_class_body(old(self)@, i),
        ensures
            final(self).wf(),
            final(self).scopes() == old(self).scopes(),
            final(self).room() == old(self).room(),
            final(self)@ == (HeapModel { objects: final(self)@.objects, ..old(self)@ }),
            final(self).accounts() == old(self).accounts(),
            final(self)@.objects.dom() == old(self)@.objects.dom(),
            forall|a: u64| #[trigger]
                final(self)@.objects.contains_key(a) && !is_class_address(old(self)@, a)
                    ==> final(self)@.objects[a] == old(self)@.objects[a],
            forall|i: int| 0 <= i < BUILTINS ==> #[trigger] headed(final(self)@, i),
    {
        let ghost before = self@;
        let ghost t = self@.classes.table();
        let mut i: usize = 0;
        while i < BUILTINS
            invariant
                self.wf(),
                i <= BUILTINS,
                t == before.classes.table(),
                t.len() == BUILTINS,
                distinct_objects(t),
                self.scopes() == old(self).scopes(),
                self.room() == old(self).room(),
                before == old(self)@,
                self@ == (HeapModel { objects: self@.objects, ..before }),
                self.accounts() == old(self).accounts(),
                self@.objects.dom() == before.objects.dom(),
                forall|a: u64| #[trigger]
                    self@.objects.contains_key(a) && !is_class_address(before, a)
                        ==> self@.objects[a] == before.objects[a],
                forall|k: int| 0 <= k < BUILTINS ==> #[trigger] has_class_body(self@, k),
                forall|k: int| 0 <= k < i ==> #[trigger] headed(self@, k),
            decreases BUILTINS - i,
        {
            let id = ClassId(i as u32);
            let meta = match self.classes().kind(id) {
                Kind::Class => Builtin::Class.id(),
                Kind::Module => Builtin::Module.id(),
            };
            let object = self.classes().object(id);
            let class = self.classes().object(meta);
            let ghost mid = self@;
            proof {
                boot::lemma_class_objects_reachable(self@, i as int);
                boot::lemma_class_objects_reachable(self@, meta.0 as int);
                assert(has_class_body(mid, i as int));
            }
            self.set_header(object, class);
            proof {
                assert(is_class_address(before, object@->Heap_0)) by {
                    assert(t[i as int].object == object);
                }
                assert(self@.objects.dom() =~= before.objects.dom());
                assert forall|k: int| 0 <= k < BUILTINS implies #[trigger] has_class_body(
                    self@,
                    k,
                ) && (k != i ==> self@.object(t[k].object) == mid.object(t[k].object)) by {
                    assert(has_class_body(mid, k));
                    assert(k < i ==> t[k].object@ != t[i as int].object@);
                    assert(k > i ==> t[i as int].object@ != t[k].object@);
                }
                assert(headed(self@, i as int));
                assert forall|k: int| 0 <= k < i + 1 implies #[trigger] headed(self@, k) by {
                    if k < i {
                        assert(headed(mid, k));
                        assert(has_class_body(self@, k));
                    }
                }
            }
            i += 1;
        }
    }
}

/// Whether the entry at `i` has a class object whose class is `Class` or
/// `Module`.
pub open spec fn headed(m: HeapModel, i: int) -> bool {
    let t = m.classes.table();
    &&& m.has_object(t[i].object)
    &&& m.object(t[i].object) == boot::class_object(
        Some(t[boot::meta_of(t[i].kind).rank()].object),
        ClassId(i as u32),
    )
}

/// Everything a new heap holds, but for its methods.
pub open spec fn kernel_ready(m: HeapModel) -> bool {
    let t = m.classes.table();
    &&& t.len() == BUILTINS + ERROR_CLASSES
    &&& forall|b: Builtin| is_builtin(#[trigger] t[b.rank()], b)
    &&& forall|e: ErrorClass| is_error(#[trigger] t[e.class_id().0 as int], e)
    &&& forall|i: int| 0 <= i < t.len() ==> #[trigger] headed(m, i)
    &&& m.classes.scopes() == seq![
        CrefNode { class: Builtin::Object.class_id(), parent: None },
    ]
    &&& forall|b: Builtin| constant_named(m, #[trigger] b.text()) == Some(t[b.rank()].object)
    &&& forall|e: ErrorClass|
        constant_named(m, #[trigger] e.text()) == Some(t[e.class_id().0 as int].object)
}

/// What a new heap's methods are: the primitives, and nothing else.
pub open spec fn methods_from_primitives(
    before: HeapModel,
    after: HeapModel,
    bare: HeapModel,
) -> bool {
    &&& bare.definitions == before.definitions
    &&& forall|i: int|
        0 <= i < bare.classes.table().len() ==> (#[trigger] bare.classes.table()[i]).methods
            == Map::<u32, (Value, CrefId)>::empty()
    &&& primitives_installed(bare, after)
}

/// What [`HandleScope::bootstrap`] does about methods.
pub open spec fn booted(before: HeapModel, after: HeapModel) -> bool {
    exists|bare: HeapModel| #[trigger] methods_from_primitives(before, after, bare)
}

/// An entry that is as it was but for its constants.
pub open spec fn constants_only(c: ClassModel, now: ClassModel) -> bool {
    now == (ClassModel { constants: now.constants, ..c })
}

/// When each entry last changed, once `n` exception classes are defined.
spec fn error_stamps(before: class::Classes, n: nat) -> Seq<u64> {
    before.stamps() + Seq::new(
        n,
        |i: int| before.generation().wrapping_add((i + 1) as u64),
    )
}

/// An exception class's entry as it is defined.
spec fn fresh_error(c: ClassModel, error: ErrorClass) -> bool {
    c == class::fresh_class(
        error.class_id(),
        c.object,
        Some(error.text()),
        Kind::Class,
        Some(error.parent_id()),
        false,
    )
}

/// A name keeps its place as the table grows.
pub proof fn lemma_index_stays(names: Seq<Seq<char>>, more: Seq<Seq<char>>, name: Seq<char>)
    requires
        names.is_prefix_of(more),
        more.no_duplicates(),
        names.contains(name),
    ensures
        more.contains(name),
        more.index_of(name) == names.index_of(name),
{
    let k = names.index_of(name);
    assert(more[k] == name);
    let j = more.index_of(name);
    assert(more[j] == name);
}

impl HandleScope {
    /// Give `Object` a constant.
    fn bind_constant(&mut self, name: &str, value: Value)
        requires
            old(self).wf(),
            old(self)@.classes.table().len() >= BUILTINS,
            old(self)@.symbols@.len() < u32::MAX,
            old(self)@.live(value),
        ensures
            final(self).wf(),
            final(self).scopes() == old(self).scopes(),
            final(self).room() == old(self).room(),
            final(self)@ == (HeapModel {
                symbols: final(self)@.symbols,
                classes: final(self)@.classes,
                ..old(self)@
            }),
            final(self).accounts() == old(self).accounts(),
            final(self)@.symbols@ == symbols::interned(old(self)@.symbols@, name@),
            final(self)@.classes.scopes() == old(self)@.classes.scopes(),
            final(self)@.classes.generation() == old(self)@.classes.generation(),
            final(self)@.classes.stamps() == old(self)@.classes.stamps(),
            final(self)@.classes.table() == class::with_constant(
                old(self)@.classes.table(),
                Builtin::Object.rank(),
                SymbolId(final(self)@.symbols@.index_of(name@) as u32),
                value,
            ),
            constant_named(final(self)@, name@) == Some(value),
            kernel_constants(old(self)@) && kernel_named(name@) ==> kernel_constants(
                final(self)@,
            ),
            forall|other: Seq<char>|
                other != name@ ==> #[trigger] constant_named(final(self)@, other)
                    == constant_named(old(self)@, other),
    {
        let ghost before = self@;
        let symbol = self.symbols_mut().intern(name);
        let ghost mid = self@;
        self.classes_mut().const_set(Builtin::Object.id(), symbol, value);
        proof {
            let t = before.classes.table();
            let now = self@.classes.table();
            let names = self@.symbols@;
            assert(names[symbol.0 as int] == name@);
            assert(names.index_of(name@) == symbol.0) by {
                assert(names[names.index_of(name@)] == name@);
            }
            assert forall|v: Value| #[trigger] class::is_class_root(now, v) implies mid.live(v) by {
                lemma_constant_roots(t, Builtin::Object.rank(), symbol, value, v);
                if v != value {
                    assert(mid.is_root(v));
                }
            }
            assert(mid.keeps_classes(self@.classes));
            assert forall|other: Seq<char>| other != name@ implies #[trigger] constant_named(
                self@,
                other,
            ) == constant_named(before, other) by {
                if before.symbols@.contains(other) {
                    lemma_index_stays(before.symbols@, names, other);
                    assert(names[names.index_of(other)] == other);
                } else if names.contains(other) {
                    let k = names.index_of(other);
                    if k < before.symbols@.len() {
                        assert(before.symbols@[k] == other);
                    }
                }
            }
        }
    }

    /// Bind every builtin class to its name.
    fn name_builtins(&mut self)
        requires
            old(self).wf(),
            old(self)@.classes.table().len() == BUILTINS,
            old(self)@.symbols@.len() + BUILTINS <= u32::MAX,
            kernel_constants(old(self)@),
            forall|b: Builtin|
                (#[trigger] old(self)@.classes.table()[b.rank()]).name == Some(b.text()),
        ensures
            final(self).wf(),
            final(self).scopes() == old(self).scopes(),
            final(self).room() == old(self).room(),
            kernel_constants(final(self)@),
            final(self)@ == (HeapModel {
                symbols: final(self)@.symbols,
                classes: final(self)@.classes,
                ..old(self)@
            }),
            final(self).accounts() == old(self).accounts(),
            final(self)@.symbols@ == bytecode::linked_table(
                old(self)@.symbols@,
                class_names(old(self)@.classes.table()),
                BUILTINS as int,
            ),
            final(self)@.classes.stamps() == old(self)@.classes.stamps(),
            final(self)@.symbols@.len() <= old(self)@.symbols@.len() + BUILTINS,
            final(self)@.classes.scopes() == old(self)@.classes.scopes(),
            final(self)@.classes.generation() == old(self)@.classes.generation(),
            final(self)@.classes.table().len() == BUILTINS,
            forall|i: int|
                0 <= i < BUILTINS ==> constants_only(
                    old(self)@.classes.table()[i],
                    #[trigger] final(self)@.classes.table()[i],
                ),
            forall|b: Builtin|
                constant_named(final(self)@, #[trigger] b.text()) == Some(
                    old(self)@.classes.table()[b.rank()].object,
                ),
    {
        let ghost before = self@;
        let ghost t = self@.classes.table();
        let all = Builtin::all();
        let mut i: usize = 0;
        while i < BUILTINS
            invariant
                self.wf(),
                i <= BUILTINS,
                forall|k: int| 0 <= k < 15 ==> (#[trigger] all@[k]).rank() == k,
                self.scopes() == old(self).scopes(),
                self.room() == old(self).room(),
                before == old(self)@,
                t == before.classes.table(),
                before.symbols@.len() + BUILTINS <= u32::MAX,
                kernel_constants(self@),
                self.accounts() == old(self).accounts(),
                self@.classes.generation() == before.classes.generation(),
                self@.classes.stamps() == before.classes.stamps(),
                forall|b: Builtin| (#[trigger] t[b.rank()]).name == Some(b.text()),
                t.len() == BUILTINS,
                self@.symbols@ == bytecode::linked_table(
                    before.symbols@,
                    class_names(t),
                    i as int,
                ),
                self@.symbols@.len() <= before.symbols@.len() + i,
                self@ == (HeapModel {
                    symbols: self@.symbols,
                    classes: self@.classes,
                    ..before
                }),
                self@.classes.scopes() == before.classes.scopes(),
                self@.classes.table().len() == BUILTINS,
                forall|k: int|
                    0 <= k < BUILTINS ==> constants_only(
                        t[k],
                        #[trigger] self@.classes.table()[k],
                    ),
                forall|b: Builtin|
                    b.rank() < i ==> constant_named(self@, #[trigger] b.text()) == Some(
                        t[b.rank()].object,
                    ),
            decreases BUILTINS - i,
        {
            let builtin = all[i];
            assert(builtin.rank() == i);
            let object = self.classes().object(builtin.id());
            let ghost mid = self@;
            proof {
                boot::lemma_class_objects_reachable(self@, i as int);
                assert(constants_only(t[i as int], mid.classes.table()[i as int]));
                assert(kernel_named(builtin.text()));
                assert(t[builtin.rank()].name == Some(builtin.text()));
                assert(class_names(t)[i as int] == builtin.text());
            }
            self.bind_constant(builtin.name(), object);
            proof {
                let now = self@.classes.table();
                assert forall|k: int| 0 <= k < BUILTINS implies constants_only(
                    t[k],
                    #[trigger] now[k],
                ) by {
                    assert(constants_only(t[k], mid.classes.table()[k]));
                }
                assert forall|b: Builtin| b.rank() < i + 1 implies constant_named(
                    self@,
                    #[trigger] b.text(),
                ) == Some(t[b.rank()].object) by {
                    if b.rank() == i {
                        assert(b == builtin);
                    } else if b.text() == builtin.text() {
                        class::law_builtin_names_are_distinct(b, builtin);
                    }
                }
            }
            i += 1;
        }
    }

    /// Define the exception classes and bind them to their names.
    fn define_errors(&mut self)
        requires
            old(self).wf(),
            old(self).room() >= ERROR_CLASSES,
            old(self)@.classes.table().len() == BUILTINS,
            old(self)@.symbols@.len() + ERROR_CLASSES <= u32::MAX,
            kernel_constants(old(self)@),
            distinct_objects(old(self)@.classes.table()),
            old(self)@.classes.table()[Builtin::Class.rank()].kind is Class,
            forall|i: int| 0 <= i < BUILTINS ==> #[trigger] headed(old(self)@, i),
        ensures
            final(self).wf(),
            final(self).scopes() == old(self).scopes(),
            final(self).room() >= old(self).room() - ERROR_CLASSES,
            kernel_constants(final(self)@),
            distinct_objects(final(self)@.classes.table()),
            forall|start: Heap| #[trigger]
                classes_made(start, old(self).inner(), BUILTINS as nat) ==> classes_made(
                    start,
                    final(self).inner(),
                    (BUILTINS + ERROR_CLASSES) as nat,
                ),
            final(self)@.classes.generation() == old(self)@.classes.generation().wrapping_add(
                ERROR_CLASSES as u64,
            ),
            final(self)@.classes.stamps() == error_stamps(
                old(self)@.classes,
                ERROR_CLASSES as nat,
            ),
            final(self)@.symbols@ == bytecode::linked_table(
                old(self)@.symbols@,
                class_names(final(self)@.classes.table().skip(BUILTINS as int)),
                ERROR_CLASSES as int,
            ),
            final(self)@.symbols@.len() <= old(self)@.symbols@.len() + ERROR_CLASSES,
            final(self)@.classes.scopes() == old(self)@.classes.scopes(),
            final(self)@.roots == old(self)@.roots,
            final(self)@.definitions == old(self)@.definitions,
            final(self)@.regexps == old(self)@.regexps,
            final(self)@.last_match == old(self)@.last_match,
            final(self)@.classes.table().len() == BUILTINS + ERROR_CLASSES,
            forall|i: int|
                0 <= i < BUILTINS ==> constants_only(
                    old(self)@.classes.table()[i],
                    #[trigger] final(self)@.classes.table()[i],
                ),
            forall|e: ErrorClass|
                fresh_error(#[trigger] final(self)@.classes.table()[e.class_id().0 as int], e),
            forall|i: int|
                0 <= i < BUILTINS + ERROR_CLASSES ==> #[trigger] headed(final(self)@, i),
            forall|b: Builtin|
                constant_named(final(self)@, #[trigger] b.text()) == constant_named(
                    old(self)@,
                    b.text(),
                ),
            forall|e: ErrorClass|
                constant_named(final(self)@, #[trigger] e.text()) == Some(
                    final(self)@.classes.table()[e.class_id().0 as int].object,
                ),
    {
        let ghost before = self@;
        let ghost t = self@.classes.table();
        let all = ErrorClass::all();
        let mut i: usize = 0;
        proof {
            assert forall|k: int| 0 <= k < BUILTINS implies #[trigger] has_class_body(self@, k) by {
                assert(headed(self@, k));
            }
        }
        while i < ERROR_CLASSES
            invariant
                self.wf(),
                i <= ERROR_CLASSES,
                forall|k: int| 0 <= k < ERROR_CLASSES ==> (#[trigger] all@[k]).rank() == k,
                self.scopes() == old(self).scopes(),
                self.room() >= old(self).room() - i,
                old(self).room() >= ERROR_CLASSES,
                before == old(self)@,
                t == before.classes.table(),
                t[Builtin::Class.rank()].kind is Class,
                before.symbols@.len() + ERROR_CLASSES <= u32::MAX,
                kernel_constants(self@),
                forall|start: Heap| #[trigger]
                    classes_made(start, old(self).inner(), BUILTINS as nat) ==> classes_made(
                        start,
                        self.inner(),
                        (BUILTINS + i) as nat,
                    ),
                self@.classes.generation() == before.classes.generation().wrapping_add(i as u64),
                before.classes.stamps().len() == BUILTINS,
                self@.classes.stamps() == error_stamps(before.classes, i as nat),
                self@.symbols@ == bytecode::linked_table(
                    before.symbols@,
                    class_names(self@.classes.table().skip(BUILTINS as int)),
                    i as int,
                ),
                self@.symbols@.len() <= before.symbols@.len() + i,
                self@.classes.scopes() == before.classes.scopes(),
                self@.roots == before.roots,
                self@.definitions == before.definitions,
                self@.regexps == before.regexps,
                self@.last_match == before.last_match,
                self@.classes.table().len() == BUILTINS + i,
                distinct_objects(self@.classes.table()),
                forall|k: int| 0 <= k < BUILTINS + i ==> #[trigger] has_class_body(self@, k),
                forall|k: int| 0 <= k < BUILTINS + i ==> #[trigger] headed(self@, k),
                forall|k: int|
                    0 <= k < BUILTINS ==> constants_only(
                        t[k],
                        #[trigger] self@.classes.table()[k],
                    ),
                forall|e: ErrorClass|
                    e.rank() < i ==> fresh_error(
                        #[trigger] self@.classes.table()[e.class_id().0 as int],
                        e,
                    ),
                forall|b: Builtin|
                    constant_named(self@, #[trigger] b.text()) == constant_named(before, b.text()),
                forall|e: ErrorClass|
                    e.rank() < i ==> constant_named(self@, #[trigger] e.text()) == Some(
                        self@.classes.table()[e.class_id().0 as int].object,
                    ),
            decreases ERROR_CLASSES - i,
        {
            let error = all[i];
            assert(error.rank() == i);
            let parent = match error.superclass() {
                Some(parent) => parent.id(),
                None => Builtin::Exception.id(),
            };
            let ghost old_model = self@;
            let ghost u = self@.classes.table();
            assert(u.len() == BUILTINS + i);
            let ghost prev = self.inner();
            let id = self.define_class(Some(error.name()), Some(parent));
            let ghost mid = self@;
            let ghost plain = self.inner();
            let ghost w = self@.classes.table();
            proof {
                lemma_defined_bodies(
                    old_model,
                    mid,
                    id,
                    Some(error.text()),
                    Kind::Class,
                    Some(parent),
                );
                assert(constants_only(t[Builtin::Class.rank()], u[Builtin::Class.rank()]));
                assert(id == error.class_id());
                assert(w =~= u.push(w[id.0 as int]));
                assert(kernel_constants(mid));
                assert(kernel_named(error.text()));
            }
            let object = self.classes().object(id);
            self.bind_constant(error.name(), object);
            proof {
                let now = self@.classes.table();
                assert(self@.classes.stamps() =~= error_stamps(before.classes, (i + 1) as nat));
                let was_called = class_names(u.skip(BUILTINS as int));
                let called = class_names(now.skip(BUILTINS as int));
                assert(called[i as int] == error.text()) by {
                    assert(now[BUILTINS + i].name == w[BUILTINS + i].name);
                }
                assert forall|k: int| 0 <= k < i implies #[trigger] was_called[k] == called[k] by {
                    assert(now[BUILTINS + k].name == w[BUILTINS + k].name);
                    assert(w[BUILTINS + k] == u[BUILTINS + k]);
                }
                lemma_linked_alike(before.symbols@, was_called, called, i as int);
                assert forall|start: Heap| #[trigger]
                    classes_made(start, old(self).inner(), BUILTINS as nat) implies classes_made(
                    start,
                    self.inner(),
                    (BUILTINS + i + 1) as nat,
                ) by {
                    lemma_class_made(
                        start,
                        prev,
                        plain,
                        (BUILTINS + i) as nat,
                        id,
                        Some(error.text()),
                        Kind::Class,
                        Some(parent),
                    );
                    lemma_classes_kept(start, plain, self.inner(), (BUILTINS + i + 1) as nat);
                }
                assert(w[id.0 as int] == class::fresh_class(
                    id,
                    object,
                    Some(error.text()),
                    Kind::Class,
                    Some(parent),
                    false,
                ));
                assert forall|k: int| 0 <= k < BUILTINS + i + 1 implies #[trigger] headed(
                    self@,
                    k,
                ) by {
                    if k < BUILTINS + i {
                        assert(headed(old_model, k));
                        assert(w[k] == u[k]);
                        assert(mid.object(u[k].object) == old_model.object(u[k].object));
                    }
                    assert(has_class_body(mid, k));
                    assert(now[k].object == w[k].object);
                    assert(now[k].kind == w[k].kind);
                    let meta = boot::meta_of(w[k].kind).rank();
                    assert(now[meta].object == w[meta].object);
                    assert(w[meta] == u[meta]);
                }
                assert forall|k: int| 0 <= k < BUILTINS + i + 1 implies #[trigger] has_class_body(
                    self@,
                    k,
                ) by {
                    assert(headed(self@, k));
                }
                assert forall|k: int| 0 <= k < BUILTINS implies constants_only(
                    t[k],
                    #[trigger] now[k],
                ) by {
                    assert(constants_only(t[k], u[k]));
                    assert(w[k] == u[k]);
                }
                assert forall|e: ErrorClass| e.rank() < i + 1 implies fresh_error(
                    #[trigger] now[e.class_id().0 as int],
                    e,
                ) && constant_named(self@, e.text()) == Some(
                    now[e.class_id().0 as int].object,
                ) by {
                    if e.rank() < i {
                        assert(fresh_error(u[e.class_id().0 as int], e));
                        assert(now[e.class_id().0 as int] == u[e.class_id().0 as int]);
                        if e.text() == error.text() {
                            exception::law_error_names_are_distinct(e, error);
                        }
                        assert(constant_named(mid, e.text()) == constant_named(
                            old_model,
                            e.text(),
                        ));
                    } else {
                        assert(e == error);
                    }
                }
                assert forall|e: ErrorClass| e.rank() < i + 1 implies constant_named(
                    self@,
                    #[trigger] e.text(),
                ) == Some(now[e.class_id().0 as int].object) by {
                    assert(fresh_error(now[e.class_id().0 as int], e));
                }
                assert forall|b: Builtin| constant_named(self@, #[trigger] b.text())
                    == constant_named(before, b.text()) by {
                    exception::law_error_names_are_new(error, b);
                    assert(constant_named(mid, b.text()) == constant_named(old_model, b.text()));
                }
                assert(distinct_objects(now)) by {
                    assert forall|k: int, j: int| 0 <= k < j < now.len() implies (
                    #[trigger] now[k]).object@ != (#[trigger] now[j]).object@ by {
                        assert(now[k].object == w[k].object);
                        assert(now[j].object == w[j].object);
                    }
                }
            }
            i += 1;
        }
        proof {
            assert forall|e: ErrorClass| fresh_error(
                #[trigger] self@.classes.table()[e.class_id().0 as int],
                e,
            ) by {
                assert(e.rank() < ERROR_CLASSES);
            }
            assert forall|e: ErrorClass| constant_named(self@, #[trigger] e.text()) == Some(
                self@.classes.table()[e.class_id().0 as int].object,
            ) by {
                assert(e.rank() < ERROR_CLASSES);
            }
        }
    }

    /// Define what every heap starts with. Done once, before anything else.
    #[verifier::spinoff_prover]
    #[verifier::rlimit(50)]
    pub fn bootstrap(&mut self)
        requires
            old(self).wf(),
            old(self)@.classes.table().len() == 0,
            old(self)@.classes.scopes().len() == 0,
            old(self).room() >= BUILTINS + ERROR_CLASSES,
            old(self)@.symbols@.len() + BUILTINS + ERROR_CLASSES + PRIMITIVES <= u32::MAX,
            old(self)@.definitions.all().len() + PRIMITIVE_BODIES <= MAX_DEFINITIONS,
        ensures
            final(self).wf(),
            final(self).scopes() == old(self).scopes(),
            final(self).room() >= old(self).room() - BUILTINS - ERROR_CLASSES,
            final(self)@.roots == old(self)@.roots,
            final(self)@.regexps == old(self)@.regexps,
            final(self)@.last_match == old(self)@.last_match,
            final(self)@.symbols@.len() <= old(self)@.symbols@.len() + BUILTINS + ERROR_CLASSES
                + PRIMITIVES,
            kernel_ready(final(self)@),
            kernel_constants(final(self)@),
            distinct_objects(final(self)@.classes.table()),
            classes_made(
                old(self).inner(),
                final(self).inner(),
                (BUILTINS + ERROR_CLASSES) as nat,
            ),
            final(self)@.classes.cached() == Map::<u64, Option<class::Method>>::empty(),
            final(self)@.classes.generation() == old(self)@.classes.generation().wrapping_add(
                (BUILTINS + MIXINS + ERROR_CLASSES + PRIMITIVES) as u64,
            ),
            final(self)@.classes.stamps() == booted_stamps(old(self)@.classes.generation()),
            final(self)@.symbols@ == booted_names(
                old(self)@.symbols@,
                final(self)@.classes.table(),
            ),
            booted(old(self)@, final(self)@),
    {
        let ghost start = self@;
        let ghost first = self.inner();
        let builtins = Builtin::all();
        let errors = ErrorClass::all();
        self.define_builtins();
        let ghost defined = self@;
        let ghost one = self.inner();
        self.mix_builtins();
        let ghost mixed = self@;
        let ghost two = self.inner();
        proof {
            lemma_classes_kept(first, one, two, BUILTINS as nat);
            let t = defined.classes.table();
            let now = mixed.classes.table();
            assert(distinct_objects(now)) by {
                assert forall|i: int, j: int| 0 <= i < j < now.len() implies (
                #[trigger] now[i]).object@ != (#[trigger] now[j]).object@ by {
                    assert(now[i].object == t[i].object);
                    assert(now[j].object == t[j].object);
                }
            }
            assert forall|i: int| 0 <= i < BUILTINS implies #[trigger] has_class_body(mixed, i) by {
                assert(has_class_body(defined, i));
                assert(now[i].object == t[i].object);
            }
        }
        self.head_builtins();
        let ghost headed_model = self@;
        proof {
            lemma_classes_kept(first, two, self.inner(), BUILTINS as nat);
        }
        let ghost three = self.inner();
        self.classes_mut().seed_root_cref();
        proof {
            lemma_classes_kept(first, three, self.inner(), BUILTINS as nat);
            assert(headed_model.keeps_classes(self@.classes)) by {
                assert forall|v: Value| #[trigger]
                    class::is_class_root(self@.classes.table(), v) implies headed_model.live(v) by {
                    assert(headed_model.is_root(v));
                }
            }
        }
        let ghost seeded = self@;
        proof {
            let t = seeded.classes.table();
            assert forall|i: int| 0 <= i < t.len() implies (#[trigger] t[i]).constants == Map::<
                u32,
                Value,
            >::empty() by {
                let b = builtins@[i];
                assert(b.rank() == i);
                assert(mixed_entry(t, b, BUILTINS as int));
            }
        }
        let ghost four = self.inner();
        proof {
            let t = seeded.classes.table();
            assert forall|b: Builtin| (#[trigger] t[b.rank()]).name == Some(b.text()) by {
                assert(mixed_entry(t, b, BUILTINS as int));
            }
        }
        self.name_builtins();
        let ghost named = self@;
        proof {
            let t = seeded.classes.table();
            let now = named.classes.table();
            assert forall|i: int| 0 <= i < BUILTINS implies (#[trigger] now[i]).object
                == t[i].object by {
                assert(constants_only(t[i], now[i]));
            }
            lemma_classes_kept(first, four, self.inner(), BUILTINS as nat);
            assert forall|b: Builtin| constants_only(t[b.rank()], #[trigger] now[b.rank()])
                && mixed_entry(t, b, BUILTINS as int) by {
                assert(mixed_entry(t, b, BUILTINS as int));
                assert(0 <= b.rank() < BUILTINS);
            }
            assert forall|i: int| 0 <= i < BUILTINS implies #[trigger] headed(named, i) by {
                assert(headed(headed_model, i));
                assert(constants_only(t[i], now[i]));
                let meta = boot::meta_of(t[i].kind).rank();
                assert(constants_only(t[meta], now[meta]));
            }
            assert(distinct_objects(now)) by {
                assert forall|i: int, j: int| 0 <= i < j < now.len() implies (
                #[trigger] now[i]).object@ != (#[trigger] now[j]).object@ by {
                    assert(constants_only(t[i], now[i]));
                    assert(constants_only(t[j], now[j]));
                }
            }
            assert(mixed_entry(t, Builtin::Class, BUILTINS as int));
            assert(constants_only(t[Builtin::Class.rank()], now[Builtin::Class.rank()]));
        }
        self.define_errors();
        let ghost complete = self@;
        let ghost five = self.inner();
        install_primitives(self);
        proof {
            let t = complete.classes.table();
            let u = named.classes.table();
            let s = seeded.classes.table();
            let now = self@.classes.table();
            let base = complete.definitions.all().len() as int;
            lemma_primitive_table(t, self@.symbols@, base, PRIMITIVES as int);
            lemma_primitive_names(complete.symbols@, PRIMITIVES as int);
            assert forall|i: int| 0 <= i < now.len() implies (#[trigger] now[i]) == (ClassModel {
                methods: now[i].methods,
                ..t[i]
            }) by {}
            assert forall|b: Builtin| is_builtin(#[trigger] now[b.rank()], b) by {
                assert(0 <= b.rank() < BUILTINS);
                assert(constants_only(u[b.rank()], t[b.rank()]));
                assert(constants_only(s[b.rank()], u[b.rank()]));
                assert(mixed_entry(s, b, BUILTINS as int));
            }
            assert forall|e: ErrorClass| is_error(#[trigger] now[e.class_id().0 as int], e) by {
                assert(fresh_error(t[e.class_id().0 as int], e));
                assert(now[e.class_id().0 as int] == (ClassModel {
                    methods: now[e.class_id().0 as int].methods,
                    ..t[e.class_id().0 as int]
                }));
            }
            assert forall|i: int| 0 <= i < now.len() implies #[trigger] headed(self@, i) by {
                assert(headed(complete, i));
                let meta = boot::meta_of(t[i].kind).rank();
                assert(now[meta].object == t[meta].object);
                assert(now[i].object == t[i].object);
            }
            assert forall|name: Seq<char>| #[trigger]
                constant_named(complete, name) is Some implies constant_named(self@, name)
                == constant_named(complete, name) by {
                lemma_index_stays(complete.symbols@, self@.symbols@, name);
                assert(now[Builtin::Object.rank()].constants == t[Builtin::Object.rank()].constants);
            }
            assert forall|b: Builtin| constant_named(self@, #[trigger] b.text()) == Some(
                now[b.rank()].object,
            ) by {
                assert(0 <= b.rank() < BUILTINS);
                assert(constant_named(named, b.text()) == Some(s[b.rank()].object));
                assert(constant_named(complete, b.text()) is Some);
                assert(constants_only(u[b.rank()], t[b.rank()]));
                assert(constants_only(s[b.rank()], u[b.rank()]));
                assert(now[b.rank()].object == t[b.rank()].object);
            }
            assert forall|e: ErrorClass| constant_named(self@, #[trigger] e.text()) == Some(
                now[e.class_id().0 as int].object,
            ) by {
                assert(constant_named(complete, e.text()) is Some);
                assert(now[e.class_id().0 as int].object == t[e.class_id().0 as int].object);
            }
            assert forall|i: int| 0 <= i < t.len() implies (#[trigger] t[i]).methods
                == Map::<u32, (Value, CrefId)>::empty() by {
                if i < BUILTINS {
                    let b = builtins@[i];
                    assert(b.rank() == i);
                    assert(constants_only(u[i], t[i]));
                    assert(constants_only(s[i], u[i]));
                    assert(mixed_entry(s, b, BUILTINS as int));
                } else {
                    let e = errors@[i - BUILTINS];
                    assert(e.rank() == i - BUILTINS);
                    assert(fresh_error(t[e.class_id().0 as int], e));
                }
            }
            assert(methods_from_primitives(start, self@, complete));
            lemma_classes_kept(
                first,
                five,
                self.inner(),
                (BUILTINS + ERROR_CLASSES) as nat,
            );
            assert(distinct_objects(now)) by {
                assert forall|i: int, j: int| 0 <= i < j < now.len() implies (
                #[trigger] now[i]).object@ != (#[trigger] now[j]).object@ by {
                    assert(now[i].object == t[i].object);
                    assert(now[j].object == t[j].object);
                }
            }
            assert(class_names(now.take(BUILTINS as int)) =~= class_names(s)) by {
                assert forall|i: int| 0 <= i < BUILTINS implies now[i].name == s[i].name by {
                    assert(now[i].name == t[i].name);
                    assert(constants_only(u[i], t[i]));
                    assert(constants_only(s[i], u[i]));
                }
            }
            assert(class_names(now.skip(BUILTINS as int)) =~= class_names(
                t.skip(BUILTINS as int),
            ));
            assert(complete.classes.stamps() =~= Seq::new(
                (BUILTINS + ERROR_CLASSES) as nat,
                |i: int|
                    start.classes.generation().wrapping_add(
                        if i < BUILTINS {
                            (BUILTINS + MIXINS) as u64
                        } else {
                            (MIXINS + i + 1) as u64
                        },
                    ),
            ));
            assert(kernel_constants(self@)) by {
                let object = Builtin::Object.rank();
                assert(now[object].constants == t[object].constants);
                assert forall|k: u32| #[trigger]
                    now[object].constants.contains_key(k) implies k < self@.symbols@.len()
                    && kernel_named(self@.symbols@[k as int]) by {
                    assert(t[object].constants.contains_key(k));
                    assert(self@.symbols@[k as int] == complete.symbols@[k as int]);
                }
            }
        }
    }
}

} // verus!
