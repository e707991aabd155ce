//! Classes and modules: ancestry, methods, constants and lexical scopes.
//!
//! Every class and module is an entry in one table. An entry holds its *own
//! run* of ancestors: itself, with what was prepended to it before it and what
//! was mixed into it after it. A class's ancestors are its own run followed by
//! its superclass's ancestors, so finding a method is a walk over runs.

use std::collections::HashMap;

use vstd::prelude::*;

use crate::mixin;
use crate::value::{SymbolId, Value};

verus! {

broadcast use vstd::std_specs::hash::group_hash_axioms;

/// A position in the class table.
#[derive(Debug, Clone, Copy, PartialEq, Eq, Structural, Hash, PartialOrd, Ord)]
pub struct ClassId(pub u32);

impl ClassId {
    /// The position as an index.
    pub fn index(self) -> (r: usize)
        ensures
            r == self.0,
    {
        self.0 as usize
    }
}

/// A lexical scope: the `class` and `module` bodies some code is written in.
#[derive(Debug, Clone, Copy, PartialEq, Eq, Structural, Hash, PartialOrd, Ord)]
pub struct CrefId(pub u32);

impl CrefId {
    /// The top level of a file.
    #[verifier::allow_in_spec]
    pub fn root() -> CrefId
        returns
            CrefId(0),
    {
        CrefId(0)
    }

    /// The position as an index.
    pub fn index(self) -> (r: usize)
        ensures
            r == self.0,
    {
        self.0 as usize
    }

    /// The scope at a position.
    pub fn from_index(index: usize) -> (r: CrefId)
        requires
            index <= u32::MAX,
        ensures
            r.0 == index,
    {
        CrefId(index as u32)
    }
}

/// One lexical scope: what a `def` in it lands on, and what encloses it.
#[derive(Debug, Clone, Copy, PartialEq, Eq, Structural)]
pub struct CrefNode {
    pub class: ClassId,
    pub parent: Option<CrefId>,
}

/// What an entry is.
#[derive(Debug, Clone, Copy, PartialEq, Eq, Structural)]
pub enum Kind {
    Class,
    Module,
}

/// A method that a lookup found.
#[derive(Debug, Clone, Copy, PartialEq, Eq, Structural)]
pub struct Method {
    /// The entry that defines it.
    pub owner: ClassId,
    /// The scope its `def` was written in.
    pub cref: CrefId,
    /// Its body.
    pub body: Value,
}

/// How a module is mixed in.
#[derive(Debug, Clone, Copy, PartialEq, Eq, Structural)]
pub enum Mixin {
    Include,
    Prepend,
}

/// Why a mixin was refused.
#[derive(Debug, Clone, Copy, PartialEq, Eq, Structural)]
pub enum MixinError {
    NotAModule,
    Cyclic(Mixin),
}

impl MixinError {
    /// Ruby's message for the refusal.
    pub open spec fn text(self) -> Seq<char> {
        match self {
            MixinError::NotAModule => "wrong argument type Class (expected Module)"@,
            MixinError::Cyclic(Mixin::Include) => "cyclic include detected"@,
            MixinError::Cyclic(Mixin::Prepend) => "cyclic prepend detected"@,
        }
    }

    /// Ruby's message for the refusal.
    pub fn message(self) -> (r: &'static str)
        ensures
            r@ == self.text(),
    {
        match self {
            MixinError::NotAModule => "wrong argument type Class (expected Module)",
            MixinError::Cyclic(Mixin::Include) => "cyclic include detected",
            MixinError::Cyclic(Mixin::Prepend) => "cyclic prepend detected",
        }
    }
}

// ---------------------------------------------------------------------------
// The table as a sequence
// ---------------------------------------------------------------------------

/// One entry of the table.
#[verifier::ext_equal]
pub struct ClassModel {
    /// The class object.
    pub object: Value,
    pub name: Option<Seq<char>>,
    pub kind: Kind,
    pub superclass: Option<ClassId>,
    /// Prepended modules, the entry itself, mixed-in modules.
    pub own: Seq<ClassId>,
    /// Where the entry itself stands in `own`.
    pub origin: int,
    pub methods: Map<u32, (Value, CrefId)>,
    /// The entries whose runs this one was put into.
    pub includers: Seq<ClassId>,
    pub singleton: Option<ClassId>,
    pub is_singleton: bool,
    pub constants: Map<u32, Value>,
}

/// What holds of the entry at `i`: it stands in its own run, what its run and
/// links name exists, its superclass came before it, and it has an object.
pub open spec fn class_ok(t: Seq<ClassModel>, i: int) -> bool {
    let c = t[i];
    &&& 0 <= c.origin < c.own.len()
    &&& c.own[c.origin] == ClassId(i as u32)
    &&& forall|k: int|
        0 <= k < c.own.len() ==> (#[trigger] c.own[k]).0 < t.len() && (k != c.origin ==> mixed_in_ok(
            t,
            i,
            c.own[k],
        ))
    &&& forall|k: int| 0 <= k < c.includers.len() ==> (#[trigger] c.includers[k]).0 < t.len()
    &&& c.superclass matches Some(s) ==> s.0 < i
    &&& c.kind is Module ==> c.superclass is None
    &&& c.singleton matches Some(s) ==> singleton_ok(t, i, s)
    &&& c.object@ is Heap
}

/// What holds of what is mixed into the entry at `i`: it is a module, and knows
/// where it went.
pub open spec fn mixed_in_ok(t: Seq<ClassModel>, i: int, m: ClassId) -> bool {
    &&& t[m.0 as int].kind is Module
    &&& t[m.0 as int].includers.contains(ClassId(i as u32))
}

/// Whether `i` is the entry or one of its superclasses.
pub open spec fn in_line(t: Seq<ClassModel>, id: int, i: int) -> bool
    decreases id,
{
    ||| i == id
    ||| 0 <= id < t.len() && (t[id].superclass matches Some(s) && s.0 < id && in_line(
        t,
        s.0 as int,
        i,
    ))
}

/// What an entry's singleton class inherits from: the superclass's singleton
/// class, or `Class` or `Module` where there is no superclass.
pub open spec fn singleton_parent(t: Seq<ClassModel>, id: int) -> Option<ClassId> {
    match t[id].kind {
        Kind::Module => Some(Builtin::Module.class_id()),
        Kind::Class => match t[id].superclass {
            None => Some(Builtin::Class.class_id()),
            Some(s) => t[s.0 as int].singleton,
        },
    }
}

/// What holds of the singleton class of the entry at `i`: it is a singleton
/// class, and singleton classes inherit as their classes do.
pub open spec fn singleton_ok(t: Seq<ClassModel>, i: int, s: ClassId) -> bool {
    &&& s.0 < t.len()
    &&& t[s.0 as int].is_singleton
    &&& t[s.0 as int].kind is Class
    &&& singleton_parent(t, i) is Some
    &&& t[s.0 as int].superclass == singleton_parent(t, i)
}

/// Two entries have objects of their own.
pub open spec fn apart(t: Seq<ClassModel>, i: int, j: int) -> bool {
    t[i].object@ != t[j].object@
}

/// What holds of the whole table.
pub open spec fn table_ok(t: Seq<ClassModel>) -> bool {
    &&& t.len() <= u32::MAX
    &&& forall|i: int| 0 <= i < t.len() ==> #[trigger] class_ok(t, i)
    &&& forall|i: int, j: int| 0 <= i < j < t.len() ==> #[trigger] apart(t, i, j)
}

/// The entry's ancestors, nearest first: its own run, then its superclass's
/// ancestors.
pub open spec fn ancestors_of(t: Seq<ClassModel>, id: int) -> Seq<ClassId>
    decreases id,
{
    if id < 0 || id >= t.len() {
        Seq::empty()
    } else {
        match t[id].superclass {
            Some(s) => if s.0 < id {
                t[id].own + ancestors_of(t, s.0 as int)
            } else {
                t[id].own
            },
            None => t[id].own,
        }
    }
}

/// The ancestors that come from the superclass.
pub open spec fn inherited_of(t: Seq<ClassModel>, id: int) -> Seq<ClassId> {
    match t[id].superclass {
        Some(s) => ancestors_of(t, s.0 as int),
        None => Seq::empty(),
    }
}

/// Ancestors are the entry's own run and what it inherits.
pub proof fn lemma_ancestors(t: Seq<ClassModel>, id: int)
    requires
        0 <= id < t.len(),
        t[id].superclass matches Some(s) ==> s.0 < id,
    ensures
        ancestors_of(t, id) == t[id].own + inherited_of(t, id),
{
    assert(t[id].own + Seq::<ClassId>::empty() =~= t[id].own);
}

/// Membership in the ancestors is membership in either half.
pub proof fn lemma_is_ancestor(t: Seq<ClassModel>, id: int, x: ClassId)
    requires
        0 <= id < t.len(),
        t[id].superclass matches Some(s) ==> s.0 < id,
    ensures
        ancestors_of(t, id).contains(x) <==> t[id].own.contains(x) || inherited_of(t, id).contains(x),
{
    lemma_ancestors(t, id);
    let own = t[id].own;
    let rest = inherited_of(t, id);
    if own.contains(x) {
        let k = own.index_of(x);
        assert((own + rest)[k] == x);
    }
    if rest.contains(x) {
        let k = rest.index_of(x);
        assert((own + rest)[own.len() + k] == x);
    }
    if (own + rest).contains(x) {
        let k = (own + rest).index_of(x);
        if k < own.len() {
            assert(own[k] == x);
        } else {
            assert(rest[k - own.len()] == x);
        }
    }
}

/// The first entry of `chain` that defines `name`.
pub open spec fn lookup_in(t: Seq<ClassModel>, chain: Seq<ClassId>, name: SymbolId) -> Option<
    Method,
>
    decreases chain.len(),
{
    if chain.len() == 0 {
        None
    } else {
        let owner = chain[0];
        let methods = t[owner.0 as int].methods;
        if methods.contains_key(name.0) {
            Some(Method { owner, cref: methods[name.0].1, body: methods[name.0].0 })
        } else {
            lookup_in(t, chain.skip(1), name)
        }
    }
}

/// The method `name` is, called on an instance of `id`.
pub open spec fn lookup_of(t: Seq<ClassModel>, id: int, name: SymbolId) -> Option<Method> {
    lookup_in(t, ancestors_of(t, id), name)
}

/// The constant an entry holds itself.
pub open spec fn const_here(t: Seq<ClassModel>, id: int, name: SymbolId) -> Option<Value> {
    if t[id].constants.contains_key(name.0) {
        Some(t[id].constants[name.0])
    } else {
        None
    }
}

/// The first entry of `chain` other than `skip` that holds the constant.
pub open spec fn const_in(
    t: Seq<ClassModel>,
    chain: Seq<ClassId>,
    skip: Option<ClassId>,
    name: SymbolId,
) -> Option<Value>
    decreases chain.len(),
{
    if chain.len() == 0 {
        None
    } else if skip != Some(chain[0]) && const_here(t, chain[0].0 as int, name) is Some {
        const_here(t, chain[0].0 as int, name)
    } else {
        const_in(t, chain.skip(1), skip, name)
    }
}

/// `A::X`: `A`'s ancestors, but not `Object` unless `A` is it.
pub open spec fn const_qualified(t: Seq<ClassModel>, id: int, name: SymbolId) -> Option<Value> {
    let object = Builtin::Object.class_id();
    const_in(
        t,
        ancestors_of(t, id),
        if id == object.0 {
            None
        } else {
            Some(object)
        },
        name,
    )
}

/// The constant in the nearest enclosing scope that holds it itself.
pub open spec fn const_lexical(
    t: Seq<ClassModel>,
    crefs: Seq<CrefNode>,
    cref: int,
    name: SymbolId,
) -> Option<Value>
    decreases cref,
{
    if cref < 0 || cref >= crefs.len() {
        None
    } else {
        let here = const_here(t, crefs[cref].class.0 as int, name);
        if here is Some {
            here
        } else {
            match crefs[cref].parent {
                Some(p) => if p.0 < cref {
                    const_lexical(t, crefs, p.0 as int, name)
                } else {
                    None
                },
                None => None,
            }
        }
    }
}

/// A bare `X`: the enclosing scopes' own constants, then the innermost scope's
/// ancestors, then `Object`.
pub open spec fn const_bare(
    t: Seq<ClassModel>,
    crefs: Seq<CrefNode>,
    cref: int,
    name: SymbolId,
) -> Option<Value> {
    let lexical = const_lexical(t, crefs, cref, name);
    let chain = ancestors_of(t, crefs[cref].class.0 as int);
    let object = Builtin::Object.class_id();
    let inherited = const_in(t, chain, None, name);
    if lexical is Some {
        lexical
    } else if inherited is Some {
        inherited
    } else if chain.contains(object) {
        None
    } else {
        const_here(t, object.0 as int, name)
    }
}

/// Whether an entry holds `v`: it is the class object, a method's body or a
/// constant.
pub open spec fn is_entry_root(c: ClassModel, v: Value) -> bool {
    ||| c.object == v
    ||| has_body(c.methods, v)
    ||| has_constant(c.constants, v)
}

/// Whether some method's body is `v`.
pub open spec fn has_body(methods: Map<u32, (Value, CrefId)>, v: Value) -> bool {
    exists|n: u32| #[trigger] methods.contains_key(n) && methods[n].0 == v
}

/// Whether some constant is `v`.
pub open spec fn has_constant(constants: Map<u32, Value>, v: Value) -> bool {
    exists|n: u32| #[trigger] constants.contains_key(n) && constants[n] == v
}

/// Whether the collector has to keep `v` for the table's sake.
pub open spec fn is_class_root(t: Seq<ClassModel>, v: Value) -> bool {
    exists|i: int| 0 <= i < t.len() && is_entry_root(#[trigger] t[i], v)
}

// ---------------------------------------------------------------------------
// The classes a heap is born with
// ---------------------------------------------------------------------------

/// The classes and modules every heap has, in the order it defines them.
#[derive(Debug, Clone, Copy, PartialEq, Eq, Structural)]
pub enum Builtin {
    BasicObject,
    Object,
    Module,
    Class,
    Kernel,
    Comparable,
    Enumerable,
    Numeric,
    Symbol,
    String,
    Integer,
    Array,
    Hash,
    Proc,
    Exception,
}

impl Builtin {
    /// The place in the order, which is also the place in the table.
    pub open spec fn rank(self) -> int {
        match self {
            Builtin::BasicObject => 0,
            Builtin::Object => 1,
            Builtin::Module => 2,
            Builtin::Class => 3,
            Builtin::Kernel => 4,
            Builtin::Comparable => 5,
            Builtin::Enumerable => 6,
            Builtin::Numeric => 7,
            Builtin::Symbol => 8,
            Builtin::String => 9,
            Builtin::Integer => 10,
            Builtin::Array => 11,
            Builtin::Hash => 12,
            Builtin::Proc => 13,
            Builtin::Exception => 14,
        }
    }

    /// The table entry.
    pub open spec fn class_id(self) -> ClassId {
        ClassId(self.rank() as u32)
    }

    /// The name.
    pub open spec fn text(self) -> Seq<char> {
        match self {
            Builtin::BasicObject => "BasicObject"@,
            Builtin::Object => "Object"@,
            Builtin::Module => "Module"@,
            Builtin::Class => "Class"@,
            Builtin::Kernel => "Kernel"@,
            Builtin::Comparable => "Comparable"@,
            Builtin::Enumerable => "Enumerable"@,
            Builtin::Numeric => "Numeric"@,
            Builtin::Symbol => "Symbol"@,
            Builtin::String => "String"@,
            Builtin::Integer => "Integer"@,
            Builtin::Array => "Array"@,
            Builtin::Hash => "Hash"@,
            Builtin::Proc => "Proc"@,
            Builtin::Exception => "Exception"@,
        }
    }

    /// What it is.
    pub open spec fn kind_of(self) -> Kind {
        match self {
            Builtin::Kernel | Builtin::Comparable | Builtin::Enumerable => Kind::Module,
            _ => Kind::Class,
        }
    }

    /// The superclass.
    pub open spec fn parent(self) -> Option<Builtin> {
        match self {
            Builtin::BasicObject
            | Builtin::Kernel
            | Builtin::Comparable
            | Builtin::Enumerable => None,
            Builtin::Object => Some(Builtin::BasicObject),
            Builtin::Module => Some(Builtin::Object),
            Builtin::Class => Some(Builtin::Module),
            Builtin::Integer => Some(Builtin::Numeric),
            _ => Some(Builtin::Object),
        }
    }

    /// The module mixed in at birth.
    pub open spec fn mixed_in(self) -> Option<Builtin> {
        match self {
            Builtin::Object => Some(Builtin::Kernel),
            Builtin::Numeric | Builtin::Symbol | Builtin::String => Some(Builtin::Comparable),
            Builtin::Array | Builtin::Hash => Some(Builtin::Enumerable),
            _ => None,
        }
    }

    /// All of them, in order.
    pub fn all() -> (r: [Builtin; 15])
        ensures
            forall|i: int| 0 <= i < 15 ==> (#[trigger] r@[i]).rank() == i,
    {
        [
            Builtin::BasicObject,
            Builtin::Object,
            Builtin::Module,
            Builtin::Class,
            Builtin::Kernel,
            Builtin::Comparable,
            Builtin::Enumerable,
            Builtin::Numeric,
            Builtin::Symbol,
            Builtin::String,
            Builtin::Integer,
            Builtin::Array,
            Builtin::Hash,
            Builtin::Proc,
            Builtin::Exception,
        ]
    }

    /// The table entry.
    pub fn id(self) -> (r: ClassId)
        ensures
            r == self.class_id(),
    {
        match self {
            Builtin::BasicObject => ClassId(0),
            Builtin::Object => ClassId(1),
            Builtin::Module => ClassId(2),
            Builtin::Class => ClassId(3),
            Builtin::Kernel => ClassId(4),
            Builtin::Comparable => ClassId(5),
            Builtin::Enumerable => ClassId(6),
            Builtin::Numeric => ClassId(7),
            Builtin::Symbol => ClassId(8),
            Builtin::String => ClassId(9),
            Builtin::Integer => ClassId(10),
            Builtin::Array => ClassId(11),
            Builtin::Hash => ClassId(12),
            Builtin::Proc => ClassId(13),
            Builtin::Exception => ClassId(14),
        }
    }

    /// The name.
    pub fn name(self) -> (r: &'static str)
        ensures
            r@ == self.text(),
    {
        match self {
            Builtin::BasicObject => "BasicObject",
            Builtin::Object => "Object",
            Builtin::Module => "Module",
            Builtin::Class => "Class",
            Builtin::Kernel => "Kernel",
            Builtin::Comparable => "Comparable",
            Builtin::Enumerable => "Enumerable",
            Builtin::Numeric => "Numeric",
            Builtin::Symbol => "Symbol",
            Builtin::String => "String",
            Builtin::Integer => "Integer",
            Builtin::Array => "Array",
            Builtin::Hash => "Hash",
            Builtin::Proc => "Proc",
            Builtin::Exception => "Exception",
        }
    }

    /// The one with this name.
    pub fn from_name(name: &str) -> (r: Option<Builtin>)
        ensures
            match r {
                Some(builtin) => builtin.text() == name@,
                None => forall|builtin: Builtin| #[trigger] builtin.text() != name@,
            },
    {
        let wanted: String = name.to_owned();
        let all = Builtin::all();
        let mut i: usize = 0;
        while i < 15
            invariant
                wanted@ == name@,
                forall|k: int| 0 <= k < 15 ==> (#[trigger] all@[k]).rank() == k,
                forall|k: int| 0 <= k < i ==> (#[trigger] all@[k]).text() != name@,
            decreases 15 - i,
        {
            let builtin = all[i];
            let text: String = builtin.name().to_owned();
            if text == wanted {
                return Some(builtin);
            }
            i += 1;
        }
        assert forall|builtin: Builtin| #[trigger] builtin.text() != name@ by {
            assert(all@[builtin.rank()].rank() == builtin.rank());
            assert(all@[builtin.rank()] == builtin);
        }
        None
    }

    /// Whether it is a class or a module.
    pub fn kind(self) -> (r: Kind)
        ensures
            r == self.kind_of(),
    {
        match self {
            Builtin::Kernel | Builtin::Comparable | Builtin::Enumerable => Kind::Module,
            _ => Kind::Class,
        }
    }

    /// The superclass, which stands before it in the order.
    pub fn superclass(self) -> (r: Option<Builtin>)
        ensures
            r == self.parent(),
            r matches Some(p) ==> p.rank() < self.rank(),
    {
        match self {
            Builtin::BasicObject
            | Builtin::Kernel
            | Builtin::Comparable
            | Builtin::Enumerable => None,
            Builtin::Object => Some(Builtin::BasicObject),
            Builtin::Module => Some(Builtin::Object),
            Builtin::Class => Some(Builtin::Module),
            Builtin::Integer => Some(Builtin::Numeric),
            _ => Some(Builtin::Object),
        }
    }

    /// The module mixed in at birth.
    pub fn includes(self) -> (r: Option<Builtin>)
        ensures
            r == self.mixed_in(),
            r matches Some(m) ==> m.kind_of() is Module,
    {
        match self {
            Builtin::Object => Some(Builtin::Kernel),
            Builtin::Numeric | Builtin::Symbol | Builtin::String => Some(Builtin::Comparable),
            Builtin::Array | Builtin::Hash => Some(Builtin::Enumerable),
            _ => None,
        }
    }
}

/// A name belongs to one builtin, so looking one up by its name finds it.
pub proof fn law_builtin_names_are_distinct(one: Builtin, other: Builtin)
    requires
        one.text() == other.text(),
    ensures
        one == other,
{
    reveal_strlit("BasicObject");
    reveal_strlit("Object");
    reveal_strlit("Module");
    reveal_strlit("Class");
    reveal_strlit("Kernel");
    reveal_strlit("Comparable");
    reveal_strlit("Enumerable");
    reveal_strlit("Numeric");
    reveal_strlit("Symbol");
    reveal_strlit("String");
    reveal_strlit("Integer");
    reveal_strlit("Array");
    reveal_strlit("Hash");
    reveal_strlit("Proc");
    reveal_strlit("Exception");
    let a = one.text();
    let b = other.text();
    assert(a.len() == b.len());
    assert(a[0] == b[0] && a[1] == b[1]);
}

// ---------------------------------------------------------------------------
// The table itself
// ---------------------------------------------------------------------------

struct Entry {
    object: Value,
    name: Option<String>,
    kind: Kind,
    superclass: Option<ClassId>,
    own: Vec<ClassId>,
    origin: usize,
    methods: HashMap<u32, (Value, CrefId)>,
    includers: Vec<ClassId>,
    singleton: Option<ClassId>,
    is_singleton: bool,
    constants: HashMap<u32, Value>,
}

impl Entry {
    spec fn model(&self) -> ClassModel {
        ClassModel {
            object: self.object,
            name: match self.name {
                Some(name) => Some(name@),
                None => None,
            },
            kind: self.kind,
            superclass: self.superclass,
            own: self.own@,
            origin: self.origin as int,
            methods: self.methods@,
            includers: self.includers@,
            singleton: self.singleton,
            is_singleton: self.is_singleton,
            constants: self.constants@,
        }
    }
}

/// The bodies of the methods in a table.
fn bodies_of(methods: &HashMap<u32, (Value, CrefId)>) -> (r: Vec<Value>)
    ensures
        forall|v: Value| #[trigger] r@.contains(v) <==> has_body(methods@, v),
{
    let mut out: Vec<Value> = Vec::new();
    assert forall|n: u32| #[trigger] methods@.contains_key(n) implies methods@.values().contains(
        methods@[n],
    ) by {
    }
    for found in it: methods.values()
        invariant
            out@.len() == it.index(),
            forall|k: int| 0 <= k < it.index() ==> out@[k] == (#[trigger] it.seq()[k]).0,
            forall|k: int| 0 <= k < out@.len() ==> has_body(methods@, #[trigger] out@[k]),
            it.seq().unref().to_set() == methods@.values(),
            forall|n: u32| #[trigger]
                methods@.contains_key(n) ==> it.seq().unref().to_set().contains(methods@[n]),
    {
        proof {
            assert(it.seq().unref()[it.index()] == *found);
            assert(it.seq().unref().to_set().contains(*found));
            let n = choose|n: u32| #[trigger] methods@.contains_key(n) && methods@[n] == *found;
            assert(methods@.contains_key(n) && methods@[n].0 == found.0);
        }
        out.push(found.0);
    }
    out
}

/// The values of the constants in a table.
fn values_of(constants: &HashMap<u32, Value>) -> (r: Vec<Value>)
    ensures
        forall|v: Value| #[trigger] r@.contains(v) <==> has_constant(constants@, v),
{
    let mut out: Vec<Value> = Vec::new();
    assert forall|n: u32| #[trigger] constants@.contains_key(n) implies constants@.values().contains(
        constants@[n],
    ) by {
    }
    for found in it: constants.values()
        invariant
            out@.len() == it.index(),
            forall|k: int| 0 <= k < it.index() ==> out@[k] == *(#[trigger] it.seq()[k]),
            forall|k: int| 0 <= k < out@.len() ==> has_constant(constants@, #[trigger] out@[k]),
            it.seq().unref().to_set() == constants@.values(),
            forall|n: u32| #[trigger]
                constants@.contains_key(n) ==> it.seq().unref().to_set().contains(constants@[n]),
    {
        proof {
            assert(it.seq().unref()[it.index()] == *found);
            assert(it.seq().unref().to_set().contains(*found));
            let n = choose|n: u32| #[trigger] constants@.contains_key(n) && constants@[n] == *found;
            assert(constants@.contains_key(n) && constants@[n] == *found);
        }
        out.push(*found);
    }
    out
}

impl Entry {
    /// Every value the entry holds.
    fn roots(&self) -> (r: Vec<Value>)
        ensures
            forall|v: Value| #[trigger] r@.contains(v) <==> is_entry_root(self.model(), v),
    {
        let mut out = bodies_of(&self.methods);
        let ghost bodies = out@;
        let mut more = values_of(&self.constants);
        let ghost values = more@;
        out.append(&mut more);
        out.push(self.object);
        proof {
            assert forall|v: Value| #[trigger] out@.contains(v) <==> is_entry_root(
                self.model(),
                v,
            ) by {
                if out@.contains(v) {
                    let k = out@.index_of(v);
                    if k < bodies.len() {
                        assert(bodies[k] == v);
                        assert(bodies.contains(v));
                    } else if k < bodies.len() + values.len() {
                        assert(values[k - bodies.len()] == v);
                        assert(values.contains(v));
                    }
                }
                if has_body(self.methods@, v) {
                    assert(bodies.contains(v));
                    let k = bodies.index_of(v);
                    assert(out@[k] == v);
                }
                if has_constant(self.constants@, v) {
                    assert(values.contains(v));
                    let k = values.index_of(v);
                    assert(out@[bodies.len() + k] == v);
                }
                if self.object == v {
                    assert(out@.last() == v);
                }
            }
        }
        out
    }
}

/// Every class and module of a heap, and the lexical scopes of its code.
pub struct Classes {
    entries: Vec<Entry>,
    serial: u64,
    /// The serial as of each entry's last change.
    stamps: Vec<u64>,
    cache: HashMap<u64, Option<Method>>,
    crefs: Vec<CrefNode>,
}

/// What the method cache files a lookup under.
pub open spec fn cache_key(id: ClassId, name: SymbolId) -> u64 {
    (id.0 * 0x1_0000_0000 + name.0) as u64
}

fn key_of(id: ClassId, name: SymbolId) -> (r: u64)
    ensures
        r == cache_key(id, name),
{
    (id.0 as u64) * 0x1_0000_0000 + (name.0 as u64)
}

struct Site {
    at: usize,
    behind: Option<usize>,
    scan_from: usize,
    scan_to: usize,
    search_super: bool,
}

impl Site {
    spec fn cursor(&self) -> mixin::Cursor {
        mixin::Cursor {
            at: self.at as int,
            behind: match self.behind {
                Some(b) => Some(b as int),
                None => None,
            },
            from: self.scan_from as int,
            to: self.scan_to as int,
            search_super: self.search_super,
        }
    }

    /// Where an `include` starts.
    fn including(entry: &Entry) -> (r: Site)
        requires
            entry.origin < entry.own@.len(),
        ensures
            r.cursor() == mixin::include_cursor(entry.model()),
    {
        let len: usize = entry.own.len();
        Site {
            at: entry.origin + 1,
            behind: Some(entry.origin),
            scan_from: 0,
            scan_to: len,
            search_super: true,
        }
    }

    /// Where a `prepend` starts.
    fn prepending(entry: &Entry) -> (r: Site)
        ensures
            r.cursor() == mixin::prepend_cursor(entry.model()),
    {
        Site { at: 0, behind: None, scan_from: 0, scan_to: entry.origin, search_super: false }
    }

    /// Behind `anchor`.
    fn after(entry: &Entry, anchor: usize) -> (r: Site)
        requires
            anchor < entry.own@.len(),
        ensures
            r.cursor() == mixin::after_cursor(entry.model(), anchor as int),
    {
        let len: usize = entry.own.len();
        Site {
            at: anchor + 1,
            behind: Some(anchor),
            scan_from: anchor + 1,
            scan_to: len,
            search_super: true,
        }
    }

    /// In front of `start..anchor`.
    fn before(start: usize, anchor: usize) -> (r: Site)
        ensures
            r.cursor() == mixin::before_cursor(start as int, anchor as int),
    {
        Site { at: start, behind: None, scan_from: start, scan_to: anchor, search_super: false }
    }
}

enum Found {
    Own(usize),
    Super,
}

/// Whether a run holds a module.
pub(crate) fn holds(own: &Vec<ClassId>, m: ClassId) -> (r: bool)
    ensures
        r == own@.contains(m),
{
    let mut i: usize = 0;
    while i < own.len()
        invariant
            i <= own.len(),
            forall|j: int| 0 <= j < i ==> own@[j] != m,
        decreases own.len() - i,
    {
        if own[i] == m {
            assert(own@[i as int] == m);
            return true;
        }
        i += 1;
    }
    false
}

/// The first place in `from..to` that holds a module.
fn first_in(own: &Vec<ClassId>, from: usize, to: usize, m: ClassId) -> (r: Option<usize>)
    ensures
        mixin::first_at(own@, from as int, to as int, m) == match r {
            Some(q) => Some(q as int),
            None => None::<int>,
        },
{
    let mut i: usize = from;
    while i < to && i < own.len()
        invariant
            from <= i,
            mixin::first_at(own@, from as int, to as int, m) == mixin::first_at(
                own@,
                i as int,
                to as int,
                m,
            ),
        decreases own.len() - i,
    {
        if own[i] == m {
            return Some(i);
        }
        i += 1;
    }
    None
}

impl Classes {
    /// The entries.
    pub closed spec fn table(&self) -> Seq<ClassModel> {
        Seq::new(self.entries@.len(), |i: int| self.entries@[i].model())
    }

    /// The lexical scopes.
    pub closed spec fn scopes(&self) -> Seq<CrefNode> {
        self.crefs@
    }

    /// The lookups that are remembered.
    pub closed spec fn cached(&self) -> Map<u64, Option<Method>> {
        self.cache@
    }

    /// The number that every change to lookup moves.
    pub closed spec fn generation(&self) -> u64 {
        self.serial
    }

    /// What the generation was when each entry's methods or run last changed.
    pub closed spec fn stamps(&self) -> Seq<u64> {
        self.stamps@
    }

    /// Entries are in order, a scope's parent came before it and its class
    /// exists, and what is remembered is what a walk would find.
    pub open spec fn wf(&self) -> bool {
        &&& table_ok(self.table())
        &&& self.stamps().len() == self.table().len()
        &&& self.scopes().len() <= u32::MAX
        &&& forall|i: int|
            0 <= i < self.scopes().len() ==> {
                &&& (#[trigger] self.scopes()[i]).class.0 < self.table().len()
                &&& self.scopes()[i].parent matches Some(p) ==> p.0 < i
            }
        &&& forall|id: ClassId, name: SymbolId| #[trigger]
            self.cached().contains_key(cache_key(id, name)) && id.0 < self.table().len()
                ==> self.cached()[cache_key(id, name)] == lookup_of(
                self.table(),
                id.0 as int,
                name,
            )
    }

    /// Whether `id` is in the table.
    pub open spec fn has(&self, id: ClassId) -> bool {
        id.0 < self.table().len()
    }

    /// Whether `cref` is one of the scopes.
    pub open spec fn has_scope(&self, cref: CrefId) -> bool {
        cref.0 < self.scopes().len()
    }

    /// An empty table.
    pub fn new() -> (r: Classes)
        ensures
            r.wf(),
            r.table() == Seq::<ClassModel>::empty(),
            r.scopes() == Seq::<CrefNode>::empty(),
            r.cached() == Map::<u64, Option<Method>>::empty(),
            r.generation() == 0,
            r.stamps() == Seq::<u64>::empty(),
    {
        Classes {
            entries: Vec::new(),
            serial: 0,
            stamps: Vec::new(),
            cache: HashMap::new(),
            crefs: Vec::new(),
        }
    }

    /// A number that changes whenever a lookup may answer differently.
    pub fn serial(&self) -> (r: u64)
        ensures
            r == self.generation(),
    {
        self.serial
    }

    /// A number that changes whenever a lookup in one class may answer
    /// differently, and stays where an unrelated class is changed.
    pub fn class_serial(&self, id: ClassId) -> (r: u64)
        requires
            self.wf(),
            self.has(id),
        ensures
            r == latest(self.stamps(), ancestors_of(self.table(), id.0 as int)),
    {
        let chain = self.ancestors(id);
        proof {
            lemma_ancestors_known(self.table(), id.0 as int);
        }
        let mut newest: u64 = 0;
        let mut i: usize = 0;
        assert(chain@.take(0) =~= Seq::<ClassId>::empty());
        while i < chain.len()
            invariant
                self.wf(),
                i <= chain.len(),
                forall|k: int|
                    0 <= k < chain@.len() ==> (#[trigger] chain@[k]).0 < self.table().len(),
                newest == latest(self.stamps(), chain@.take(i as int)),
            decreases chain.len() - i,
        {
            let entry = chain[i];
            let stamp: u64 = self.stamps[entry.0 as usize];
            proof {
                let next = chain@.take(i + 1);
                assert(next.drop_last() =~= chain@.take(i as int));
            }
            if stamp > newest {
                newest = stamp;
            }
            i += 1;
        }
        assert(chain@.take(i as int) =~= chain@);
        newest
    }

    /// How many entries there are.
    pub fn len(&self) -> (r: usize)
        ensures
            r == self.table().len(),
    {
        self.entries.len()
    }

    /// Whether there are none.
    pub fn is_empty(&self) -> (r: bool)
        ensures
            r == (self.table().len() == 0),
    {
        self.entries.len() == 0
    }

    /// Whether another entry fits.
    pub fn has_room(&self) -> (r: bool)
        ensures
            r == (self.table().len() < u32::MAX),
    {
        self.entries.len() < u32::MAX as usize
    }

    /// Whether another scope fits.
    pub fn has_scope_room(&self) -> (r: bool)
        ensures
            r == (self.scopes().len() < u32::MAX),
    {
        self.crefs.len() < u32::MAX as usize
    }

    /// How many scopes there are.
    pub fn scope_count(&self) -> (r: usize)
        ensures
            r == self.scopes().len(),
    {
        self.crefs.len()
    }

    /// Whether the entry is a class or a module.
    pub fn kind(&self, id: ClassId) -> (r: Kind)
        requires
            self.has(id),
        ensures
            r == self.table()[id.0 as int].kind,
    {
        self.entries[id.0 as usize].kind
    }

    /// The entry's name, if it has one.
    pub fn name(&self, id: ClassId) -> (r: Option<&str>)
        requires
            self.has(id),
        ensures
            match r {
                Some(name) => self.table()[id.0 as int].name == Some(name@),
                None => self.table()[id.0 as int].name is None,
            },
    {
        match &self.entries[id.0 as usize].name {
            Some(name) => Some(name.as_str()),
            None => None,
        }
    }

    /// The entry's superclass.
    pub fn superclass(&self, id: ClassId) -> (r: Option<ClassId>)
        requires
            self.has(id),
        ensures
            r == self.table()[id.0 as int].superclass,
    {
        self.entries[id.0 as usize].superclass
    }

    /// The entry's class object.
    pub fn object(&self, id: ClassId) -> (r: Value)
        requires
            self.has(id),
        ensures
            r == self.table()[id.0 as int].object,
    {
        self.entries[id.0 as usize].object
    }

    /// The entry's singleton class, once it has one.
    pub fn singleton(&self, id: ClassId) -> (r: Option<ClassId>)
        requires
            self.has(id),
        ensures
            r == self.table()[id.0 as int].singleton,
    {
        self.entries[id.0 as usize].singleton
    }

    /// Whether the entry is a singleton class.
    pub fn is_singleton(&self, id: ClassId) -> (r: bool)
        requires
            self.has(id),
        ensures
            r == self.table()[id.0 as int].is_singleton,
    {
        self.entries[id.0 as usize].is_singleton
    }

    /// The entry's ancestors, nearest first.
    pub fn ancestors(&self, id: ClassId) -> (r: Vec<ClassId>)
        requires
            self.wf(),
            self.has(id),
        ensures
            r@ == ancestors_of(self.table(), id.0 as int),
    {
        let mut out: Vec<ClassId> = Vec::new();
        let mut cursor: Option<ClassId> = Some(id);
        while cursor.is_some()
            invariant
                self.wf(),
                cursor matches Some(c) ==> self.has(c),
                ancestors_of(self.table(), id.0 as int) == out@ + match cursor {
                    Some(c) => ancestors_of(self.table(), c.0 as int),
                    None => Seq::empty(),
                },
            decreases (match cursor {
                Some(c) => c.0 + 1,
                None => 0,
            }),
        {
            let c = cursor.unwrap();
            let ghost before = out@;
            let entry = &self.entries[c.0 as usize];
            assert(class_ok(self.table(), c.0 as int));
            assert(self.table()[c.0 as int] == entry.model());
            out.extend_from_slice(entry.own.as_slice());
            cursor = entry.superclass;
            proof {
                lemma_ancestors(self.table(), c.0 as int);
                assert(out@ =~= before + entry.own@);
                let rest = inherited_of(self.table(), c.0 as int);
                assert(before + (entry.own@ + rest) =~= out@ + rest);
            }
        }
        assert(out@ + Seq::<ClassId>::empty() =~= out@);
        out
    }

    /// Whether `module` is an ancestor of another entry.
    pub fn includes(&self, id: ClassId, module: ClassId) -> (r: bool)
        requires
            self.wf(),
            self.has(id),
        ensures
            r == (id != module && ancestors_of(self.table(), id.0 as int).contains(module)),
    {
        if id == module {
            return false;
        }
        let ancestors = self.ancestors(id);
        holds(&ancestors, module)
    }

    /// Give the entry a method written at the top level.
    pub fn define_method(&mut self, id: ClassId, name: SymbolId, body: Value)
        requires
            old(self).wf(),
            old(self).has(id),
        ensures
            final(self).wf(),
            final(self).table() == with_method(
                old(self).table(),
                id.0 as int,
                name,
                body,
                CrefId::root(),
            ),
            final(self).scopes() == old(self).scopes(),
            final(self).cached() == Map::<u64, Option<Method>>::empty(),
            final(self).generation() == old(self).generation().wrapping_add(1),
            final(self).stamps() == old(self).stamps().update(
                id.0 as int,
                final(self).generation(),
            ),
    {
        self.define_method_in(id, name, body, CrefId::root());
    }

    /// Give the entry a method, remembering the scope its `def` was written in.
    pub fn define_method_in(&mut self, id: ClassId, name: SymbolId, body: Value, cref: CrefId)
        requires
            old(self).wf(),
            old(self).has(id),
        ensures
            final(self).wf(),
            final(self).table() == with_method(old(self).table(), id.0 as int, name, body, cref),
            final(self).scopes() == old(self).scopes(),
            final(self).cached() == Map::<u64, Option<Method>>::empty(),
            final(self).generation() == old(self).generation().wrapping_add(1),
            final(self).stamps() == old(self).stamps().update(
                id.0 as int,
                final(self).generation(),
            ),
    {
        self.entries[id.0 as usize].methods.insert(name.0, (body, cref));
        self.bump();
        self.stamps[id.0 as usize] = self.serial;
        proof {
            assert(self.table() =~= with_method(old(self).table(), id.0 as int, name, body, cref));
            lemma_same_shape(old(self).table(), self.table());
        }
    }

    /// Take a method away from the entry; whether there was one.
    pub fn remove_method(&mut self, id: ClassId, name: SymbolId) -> (r: bool)
        requires
            old(self).wf(),
            old(self).has(id),
        ensures
            final(self).wf(),
            r == old(self).table()[id.0 as int].methods.contains_key(name.0),
            final(self).table() == without_method(old(self).table(), id.0 as int, name),
            final(self).scopes() == old(self).scopes(),
            r ==> final(self).cached() == Map::<u64, Option<Method>>::empty(),
            r ==> final(self).generation() == old(self).generation().wrapping_add(1),
            r ==> final(self).stamps() == old(self).stamps().update(
                id.0 as int,
                final(self).generation(),
            ),
            !r ==> *final(self) == *old(self),
    {
        let known = self.entries[id.0 as usize].methods.contains_key(&name.0);
        if !known {
            proof {
                let t = self.table();
                assert(t[id.0 as int].methods.remove(name.0) =~= t[id.0 as int].methods);
                assert(without_method(t, id.0 as int, name) =~= t);
            }
            return false;
        }
        self.entries[id.0 as usize].methods.remove(&name.0);
        self.bump();
        self.stamps[id.0 as usize] = self.serial;
        proof {
            assert(self.table() =~= without_method(old(self).table(), id.0 as int, name));
            lemma_same_shape(old(self).table(), self.table());
        }
        true
    }

    /// Whether the entry defines the method itself.
    pub fn method_defined_here(&self, id: ClassId, name: SymbolId) -> (r: bool)
        requires
            self.has(id),
        ensures
            r == self.table()[id.0 as int].methods.contains_key(name.0),
    {
        self.entries[id.0 as usize].methods.contains_key(&name.0)
    }

    /// The method a call finds. The answer is remembered, also that there is
    /// none.
    pub fn lookup(&mut self, id: ClassId, name: SymbolId) -> (r: Option<Method>)
        requires
            old(self).wf(),
            old(self).has(id),
        ensures
            final(self).wf(),
            r == lookup_of(old(self).table(), id.0 as int, name),
            final(self).table() == old(self).table(),
            final(self).scopes() == old(self).scopes(),
            final(self).generation() == old(self).generation(),
            final(self).stamps() == old(self).stamps(),
            final(self).cached() == old(self).cached().insert(cache_key(id, name), r),
    {
        let key = key_of(id, name);
        if let Some(hit) = self.cache.get(&key) {
            let hit: Option<Method> = *hit;
            proof {
                assert(self.cached().contains_key(cache_key(id, name)));
                assert(self.cached().insert(key, hit) =~= self.cached());
            }
            return hit;
        }
        let found = self.lookup_uncached(id, name);
        self.cache.insert(key, found);
        proof {
            assert forall|i: ClassId, n: SymbolId| #[trigger]
                self.cached().contains_key(cache_key(i, n)) && i.0
                    < self.table().len() implies self.cached()[cache_key(i, n)] == lookup_of(
                self.table(),
                i.0 as int,
                n,
            ) by {
                if cache_key(i, n) == key {
                    assert(i.0 * 0x1_0000_0000 + n.0 == id.0 * 0x1_0000_0000 + name.0);
                    assert(i == id && n == name);
                } else {
                    assert(old(self).cached().contains_key(cache_key(i, n)));
                }
            }
        }
        found
    }

    /// The method a walk over the ancestors finds.
    pub fn lookup_uncached(&self, id: ClassId, name: SymbolId) -> (r: Option<Method>)
        requires
            self.wf(),
            self.has(id),
        ensures
            r == lookup_of(self.table(), id.0 as int, name),
    {
        let chain = self.ancestors(id);
        proof {
            lemma_ancestors_known(self.table(), id.0 as int);
        }
        let mut i: usize = 0;
        assert(chain@.skip(0) =~= chain@);
        while i < chain.len()
            invariant
                self.wf(),
                i <= chain.len(),
                chain@ == ancestors_of(self.table(), id.0 as int),
                forall|k: int| 0 <= k < chain@.len() ==> (#[trigger] chain@[k]).0 < self.table().len(),
                lookup_in(self.table(), chain@, name) == lookup_in(
                    self.table(),
                    chain@.skip(i as int),
                    name,
                ),
            decreases chain.len() - i,
        {
            let owner = chain[i];
            proof {
                let rest = chain@.skip(i as int);
                assert(rest[0] == owner);
                assert(rest.skip(1) =~= chain@.skip(i + 1));
            }
            assert(self.table()[owner.0 as int] == self.entries@[owner.0 as int].model());
            if let Some(found) = self.entries[owner.0 as usize].methods.get(&name.0) {
                return Some(Method { owner, cref: found.1, body: found.0 });
            }
            i += 1;
        }
        None
    }

    /// The constant the entry holds itself.
    pub fn const_get_here(&self, id: ClassId, name: SymbolId) -> (r: Option<Value>)
        requires
            self.has(id),
        ensures
            r == const_here(self.table(), id.0 as int, name),
    {
        assert(self.table()[id.0 as int] == self.entries@[id.0 as int].model());
        match self.entries[id.0 as usize].constants.get(&name.0) {
            Some(value) => Some(*value),
            None => None,
        }
    }

    /// Set a constant on the entry.
    pub fn const_set(&mut self, id: ClassId, name: SymbolId, value: Value)
        requires
            old(self).wf(),
            old(self).has(id),
        ensures
            final(self).wf(),
            final(self).table() == with_constant(old(self).table(), id.0 as int, name, value),
            final(self).scopes() == old(self).scopes(),
            final(self).cached() == old(self).cached(),
            final(self).generation() == old(self).generation(),
            final(self).stamps() == old(self).stamps(),
    {
        self.entries[id.0 as usize].constants.insert(name.0, value);
        proof {
            assert(self.table() =~= with_constant(old(self).table(), id.0 as int, name, value));
            lemma_same_shape(old(self).table(), self.table());
            lemma_same_lookup(old(self).table(), self.table());
        }
    }

    /// The first of `chain` other than `skip` that holds the constant.
    fn const_along(&self, chain: &Vec<ClassId>, skip: Option<ClassId>, name: SymbolId) -> (r: Option<
        Value,
    >)
        requires
            self.wf(),
            forall|k: int| 0 <= k < chain@.len() ==> (#[trigger] chain@[k]).0 < self.table().len(),
        ensures
            r == const_in(self.table(), chain@, skip, name),
    {
        let mut i: usize = 0;
        assert(chain@.skip(0) =~= chain@);
        while i < chain.len()
            invariant
                self.wf(),
                i <= chain.len(),
                forall|k: int| 0 <= k < chain@.len() ==> (#[trigger] chain@[k]).0 < self.table().len(),
                const_in(self.table(), chain@, skip, name) == const_in(
                    self.table(),
                    chain@.skip(i as int),
                    skip,
                    name,
                ),
            decreases chain.len() - i,
        {
            let c = chain[i];
            proof {
                let rest = chain@.skip(i as int);
                assert(rest[0] == c);
                assert(rest.skip(1) =~= chain@.skip(i + 1));
            }
            let skipped = match skip {
                Some(s) => s == c,
                None => false,
            };
            if !skipped {
                let here = self.const_get_here(c, name);
                if here.is_some() {
                    return here;
                }
            }
            i += 1;
        }
        None
    }

    /// `A::X`.
    pub fn const_get_qualified(&self, id: ClassId, name: SymbolId) -> (r: Option<Value>)
        requires
            self.wf(),
            self.has(id),
        ensures
            r == const_qualified(self.table(), id.0 as int, name),
    {
        let object = Builtin::Object.id();
        let chain = self.ancestors(id);
        proof {
            lemma_ancestors_known(self.table(), id.0 as int);
        }
        if id == object {
            self.const_along(&chain, None, name)
        } else {
            self.const_along(&chain, Some(object), name)
        }
    }

    /// A bare `X`, read from the scope `cref`.
    pub fn const_get(&self, cref: CrefId, name: SymbolId) -> (r: Option<Value>)
        requires
            self.wf(),
            self.has_scope(cref),
            self.has(Builtin::Object.class_id()),
        ensures
            r == const_bare(self.table(), self.scopes(), cref.0 as int, name),
    {
        let mut scope: Option<CrefId> = Some(cref);
        while scope.is_some()
            invariant
                self.wf(),
                scope matches Some(c) ==> self.has_scope(c),
                const_lexical(self.table(), self.scopes(), cref.0 as int, name) == match scope {
                    Some(c) => const_lexical(self.table(), self.scopes(), c.0 as int, name),
                    None => None,
                },
            decreases (match scope {
                Some(c) => c.0 + 1,
                None => 0,
            }),
        {
            let c = scope.unwrap();
            let node = self.crefs[c.0 as usize];
            assert(node == self.scopes()[c.0 as int]);
            let here = self.const_get_here(node.class, name);
            if here.is_some() {
                return here;
            }
            scope = node.parent;
        }
        let innermost = self.crefs[cref.0 as usize].class;
        assert(self.scopes()[cref.0 as int].class == innermost);
        let object = Builtin::Object.id();
        let chain = self.ancestors(innermost);
        proof {
            lemma_ancestors_known(self.table(), innermost.0 as int);
        }
        let inherited = self.const_along(&chain, None, name);
        if inherited.is_some() {
            return inherited;
        }
        if holds(&chain, object) {
            return None;
        }
        self.const_get_here(object, name)
    }

    /// What a `def` in the scope lands on.
    pub fn cref_class(&self, cref: CrefId) -> (r: ClassId)
        requires
            self.has_scope(cref),
        ensures
            r == self.scopes()[cref.0 as int].class,
    {
        self.crefs[cref.0 as usize].class
    }

    /// The scope around it.
    pub fn cref_parent(&self, cref: CrefId) -> (r: Option<CrefId>)
        requires
            self.has_scope(cref),
        ensures
            r == self.scopes()[cref.0 as int].parent,
    {
        self.crefs[cref.0 as usize].parent
    }

    /// Open a scope inside another.
    pub fn push_cref(&mut self, outer: CrefId, class: ClassId) -> (r: CrefId)
        requires
            old(self).wf(),
            old(self).has_scope(outer),
            old(self).has(class),
            old(self).scopes().len() < u32::MAX,
        ensures
            final(self).wf(),
            r.0 == old(self).scopes().len(),
            final(self).scopes() == old(self).scopes().push(
                (CrefNode { class, parent: Some(outer) }),
            ),
            final(self).table() == old(self).table(),
            final(self).cached() == old(self).cached(),
            final(self).generation() == old(self).generation(),
            final(self).stamps() == old(self).stamps(),
    {
        let id: u32 = self.crefs.len() as u32;
        self.crefs.push(CrefNode { class, parent: Some(outer) });
        CrefId(id)
    }

    /// Open the outermost scope, whose class is `Object`.
    pub fn seed_root_cref(&mut self)
        requires
            old(self).wf(),
            old(self).scopes().len() == 0,
            old(self).has(Builtin::Object.class_id()),
        ensures
            final(self).wf(),
            final(self).scopes() == seq![
                CrefNode { class: Builtin::Object.class_id(), parent: None },
            ],
            final(self).table() == old(self).table(),
            final(self).cached() == old(self).cached(),
            final(self).generation() == old(self).generation(),
            final(self).stamps() == old(self).stamps(),
    {
        self.crefs.push(CrefNode { class: Builtin::Object.id(), parent: None });
        assert(self.scopes() =~= seq![
            CrefNode { class: Builtin::Object.class_id(), parent: None },
        ]);
    }

    /// How many lookups are remembered.
    pub fn cached_lookups(&self) -> (r: usize)
        ensures
            r == self.cached().len(),
    {
        self.cache.len()
    }

    /// Mix `module` in behind `target`.
    pub fn include_module(&mut self, target: ClassId, module: ClassId) -> (r: Result<(), MixinError>)
        requires
            old(self).wf(),
            old(self).has(target),
            old(self).has(module),
        ensures
            mixin_outcome(*old(self), *final(self), target, module, Mixin::Include, r),
    {
        self.mixin(target, module, Mixin::Include)
    }

    /// Mix `module` in before `target`.
    pub fn prepend(&mut self, target: ClassId, module: ClassId) -> (r: Result<(), MixinError>)
        requires
            old(self).wf(),
            old(self).has(target),
            old(self).has(module),
        ensures
            mixin_outcome(*old(self), *final(self), target, module, Mixin::Prepend, r),
    {
        self.mixin(target, module, Mixin::Prepend)
    }

    fn mixin(&mut self, target: ClassId, module: ClassId, how: Mixin) -> (r: Result<(), MixinError>)
        requires
            old(self).wf(),
            old(self).has(target),
            old(self).has(module),
        ensures
            mixin_outcome(*old(self), *final(self), target, module, how, r),
    {
        let ghost t0 = self.table();
        assert(t0[module.0 as int] == self.entries@[module.0 as int].model());
        assert(t0[target.0 as int] == self.entries@[target.0 as int].model());
        if self.entries[module.0 as usize].kind == Kind::Class {
            return Err(MixinError::NotAModule);
        }
        if holds(&self.entries[module.0 as usize].own, target) {
            return Err(MixinError::Cyclic(how));
        }
        proof {
            assert(class_ok(t0, target.0 as int));
            assert(class_ok(t0, module.0 as int));
        }
        let site = match how {
            Mixin::Include => Site::including(&self.entries[target.0 as usize]),
            Mixin::Prepend => Site::prepending(&self.entries[target.0 as usize]),
        };
        self.splice(target, site, module);
        let ghost once = self.table();
        proof {
            mixin::lemma_spliced(t0, target.0 as int, site.cursor(), t0[module.0 as int].own);
            assert(once == mixin::mixed_once(t0, target.0 as int, module.0 as int, how));
            assert(class_ok(once, target.0 as int));
            assert(mixin::keeps(t0, once, module.0 as int));
            assert(once[target.0 as int] == self.entries@[target.0 as int].model());
        }
        let includers = self.entries[target.0 as usize].includers.clone();
        assert(includers@ =~= once[target.0 as int].includers);
        let mut i: usize = 0;
        assert(includers@.skip(0) =~= includers@);
        while i < includers.len()
            invariant
                i <= includers.len(),
                table_ok(self.table()),
                self.table().len() == once.len(),
                self.crefs@ == old(self).crefs@,
                self.serial == old(self).serial,
                self.stamps == old(self).stamps,
                target.0 < once.len(),
                module.0 < once.len(),
                self.table()[module.0 as int].kind is Module,
                forall|k: int|
                    0 <= k < includers@.len() ==> (#[trigger] includers@[k]).0 < once.len(),
                mixin::propagated(
                    once,
                    target.0 as int,
                    module.0 as int,
                    how,
                    includers@,
                ) == mixin::propagated(
                    self.table(),
                    target.0 as int,
                    module.0 as int,
                    how,
                    includers@.skip(i as int),
                ),
            decreases includers.len() - i,
        {
            let who = includers[i];
            let ghost t = self.table();
            proof {
                let rest = includers@.skip(i as int);
                assert(rest[0] == who);
                assert(rest.skip(1) =~= includers@.skip(i + 1));
                assert(t[who.0 as int] == self.entries@[who.0 as int].model());
                assert(t[target.0 as int] == self.entries@[target.0 as int].model());
                mixin::lemma_first_at(
                    t[who.0 as int].own,
                    0,
                    t[who.0 as int].own.len() as int,
                    target,
                );
                assert(class_ok(t, who.0 as int));
                assert(class_ok(t, module.0 as int));
                assert(class_ok(t, target.0 as int));
            }
            let own_len: usize = self.entries[who.0 as usize].own.len();
            if let Some(anchor) = first_in(&self.entries[who.0 as usize].own, 0, own_len, target) {
                let site = match how {
                    Mixin::Include => Site::after(&self.entries[who.0 as usize], anchor),
                    Mixin::Prepend => Site::before(self.run_of(who, target, anchor), anchor),
                };
                proof {
                    mixin::lemma_reached_cursor(
                        t,
                        who.0 as int,
                        target.0 as int,
                        how,
                        anchor as int,
                    );
                    assert(site.cursor() == mixin::reached_cursor(
                        t,
                        who.0 as int,
                        target.0 as int,
                        how,
                        anchor as int,
                    ));
                    mixin::lemma_run_of_modules(t, module.0 as int);
                    mixin::lemma_spliced(t, who.0 as int, site.cursor(), t[module.0 as int].own);
                }
                self.splice(who, site, module);
                assert(mixin::keeps(t, self.table(), module.0 as int));
            }
            i += 1;
        }
        self.bump();
        assert(self.table() == mixin::mixed(t0, target.0 as int, module.0 as int, how));
        self.stamp_all();
        Ok(())
    }

    /// Let every entry count as changed now.
    fn stamp_all(&mut self)
        requires
            old(self).stamps@.len() == old(self).entries@.len(),
        ensures
            final(self).stamps@ == Seq::new(
                old(self).stamps@.len(),
                |i: int| old(self).serial,
            ),
            *final(self) == (Classes { stamps: final(self).stamps, ..*old(self) }),
    {
        let total: usize = self.stamps.len();
        let mut fresh: Vec<u64> = Vec::new();
        let mut i: usize = 0;
        while i < total
            invariant
                i <= total,
                fresh@.len() == i,
                forall|k: int| 0 <= k < i ==> fresh@[k] == self.serial,
            decreases total - i,
        {
            fresh.push(self.serial);
            i += 1;
        }
        self.stamps = fresh;
        assert(self.stamps@ =~= Seq::new(old(self).stamps@.len(), |i: int| old(self).serial));
    }

    fn splice(&mut self, target: ClassId, site: Site, source: ClassId)
        requires
            table_ok(old(self).table()),
            target.0 < old(self).table().len(),
            source.0 < old(self).table().len(),
            old(self).table()[source.0 as int].kind is Module,
            mixin::cursor_ok(old(self).table(), target.0 as int, site.cursor()),
        ensures
            final(self).table() == mixin::spliced(
                old(self).table(),
                target.0 as int,
                site.cursor(),
                old(self).table()[source.0 as int].own,
            ),
            table_ok(final(self).table()),
            mixin::kept(old(self).table(), final(self).table()),
            final(self).crefs@ == old(self).crefs@,
            final(self).serial == old(self).serial,
            final(self).stamps == old(self).stamps,
    {
        let ghost t0 = self.table();
        let ghost start = site.cursor();
        let mut site = site;
        assert(t0[source.0 as int] == self.entries@[source.0 as int].model());
        assert(class_ok(t0, source.0 as int));
        proof {
            mixin::lemma_run_of_modules(t0, source.0 as int);
            mixin::lemma_kept_same(t0);
        }
        let chain = self.entries[source.0 as usize].own.clone();
        assert(chain@ =~= t0[source.0 as int].own);
        let mut i: usize = 0;
        assert(chain@.skip(0) =~= chain@);
        while i < chain.len()
            invariant
                i <= chain.len(),
                table_ok(self.table()),
                mixin::kept(t0, self.table()),
                target.0 < t0.len(),
                self.crefs@ == old(self).crefs@,
                self.serial == old(self).serial,
                self.stamps == old(self).stamps,
                mixin::cursor_ok(self.table(), target.0 as int, site.cursor()),
                forall|k: int|
                    0 <= k < chain@.len() ==> (#[trigger] chain@[k]).0 < t0.len()
                        && t0[chain@[k].0 as int].kind is Module,
                mixin::spliced(t0, target.0 as int, start, chain@) == mixin::spliced(
                    self.table(),
                    target.0 as int,
                    site.cursor(),
                    chain@.skip(i as int),
                ),
            decreases chain.len() - i,
        {
            let module = chain[i];
            let ghost t = self.table();
            let ghost cursor = site.cursor();
            proof {
                let rest = chain@.skip(i as int);
                assert(rest[0] == module);
                assert(rest.skip(1) =~= chain@.skip(i + 1));
                assert(t[target.0 as int] == self.entries@[target.0 as int].model());
                mixin::lemma_first_at(t[target.0 as int].own, cursor.from, cursor.to, module);
            }
            match self.find(target, module, &site) {
                Some(Found::Own(q)) => {
                    let passed = match site.behind {
                        Some(behind) => q >= behind,
                        None => true,
                    };
                    if passed {
                        site = Site { behind: Some(q), at: q + 1, ..site };
                        assert(site.cursor() == (mixin::Cursor {
                            behind: Some(q as int),
                            at: q + 1,
                            ..cursor
                        }));
                    }
                },
                Some(Found::Super) => {},
                None => {
                    proof {
                        assert(mixin::keeps(t0, t, module.0 as int));
                        mixin::lemma_inserted(t, target.0 as int, site.at as int, module);
                        mixin::lemma_kept_trans(
                            t0,
                            t,
                            mixin::inserted(t, target.0 as int, site.at as int, module),
                        );
                    }
                    self.insert(target, site.at, module);
                    assert(self.table()[target.0 as int]
                        == self.entries@[target.0 as int].model());
                    let len: usize = self.entries[target.0 as usize].own.len();
                    assert(site.at < len);
                    let to: usize = if site.at <= site.scan_to {
                        site.scan_to + 1
                    } else {
                        site.scan_to
                    };
                    site = Site { behind: Some(site.at), at: site.at + 1, scan_to: to, ..site };
                    assert(site.cursor() == (mixin::Cursor {
                        behind: Some(cursor.at),
                        at: cursor.at + 1,
                        to: if cursor.at <= cursor.to {
                            cursor.to + 1
                        } else {
                            cursor.to
                        },
                        ..cursor
                    }));
                },
            }
            i += 1;
        }
    }

    fn run_of(&self, who: ClassId, module: ClassId, anchor: usize) -> (r: usize)
        requires
            table_ok(self.table()),
            who.0 < self.table().len(),
            module.0 < self.table().len(),
            anchor < self.table()[who.0 as int].own.len(),
        ensures
            r == mixin::run_start(
                self.table()[who.0 as int].own,
                self.table()[module.0 as int].own.take(self.table()[module.0 as int].origin),
                anchor as int,
            ),
    {
        let ghost t = self.table();
        assert(t[who.0 as int] == self.entries@[who.0 as int].model());
        assert(t[module.0 as int] == self.entries@[module.0 as int].model());
        assert(class_ok(t, module.0 as int));
        let entry = &self.entries[module.0 as usize];
        let own = &self.entries[who.0 as usize].own;
        let ghost prepends = entry.own@.take(entry.origin as int);
        let mut start: usize = anchor;
        while start > 0
            invariant
                start <= anchor < own@.len(),
                entry.origin < entry.own@.len(),
                prepends == entry.own@.take(entry.origin as int),
                mixin::run_start(own@, prepends, anchor as int) == mixin::run_start(
                    own@,
                    prepends,
                    start as int,
                ),
            ensures
                start <= anchor,
                mixin::run_start(own@, prepends, anchor as int) == start,
            decreases start,
        {
            let before = own[start - 1];
            let prepended = first_in(&entry.own, 0, entry.origin, before).is_some();
            proof {
                mixin::lemma_first_at(entry.own@, 0, entry.origin as int, before);
                if prepends.contains(before) {
                    let k = prepends.index_of(before);
                    assert(entry.own@[k] == before);
                }
                if prepended {
                    let k = mixin::first_at(entry.own@, 0, entry.origin as int, before)->0;
                    assert(prepends[k] == before);
                }
            }
            if !prepended {
                break;
            }
            start -= 1;
        }
        start
    }

    fn find(&self, target: ClassId, module: ClassId, site: &Site) -> (r: Option<Found>)
        requires
            table_ok(self.table()),
            target.0 < self.table().len(),
        ensures
            ({
                let at = mixin::first_at(
                    self.table()[target.0 as int].own,
                    site.scan_from as int,
                    site.scan_to as int,
                    module,
                );
                match r {
                    Some(Found::Own(q)) => at == Some(q as int),
                    Some(Found::Super) => at is None && site.search_super && inherited_of(
                        self.table(),
                        target.0 as int,
                    ).contains(module),
                    None => at is None && !(site.search_super && inherited_of(
                        self.table(),
                        target.0 as int,
                    ).contains(module)),
                }
            }),
    {
        let ghost t = self.table();
        let entry = &self.entries[target.0 as usize];
        assert(t[target.0 as int] == entry.model());
        assert(class_ok(t, target.0 as int));
        if let Some(q) = first_in(&entry.own, site.scan_from, site.scan_to, module) {
            return Some(Found::Own(q));
        }
        if site.search_super {
            let mut cursor: Option<ClassId> = entry.superclass;
            while cursor.is_some()
                invariant
                    t == self.table(),
                    table_ok(t),
                    cursor matches Some(c) ==> c.0 < t.len(),
                    inherited_of(t, target.0 as int).contains(module) <==> match cursor {
                        Some(c) => ancestors_of(t, c.0 as int).contains(module),
                        None => false,
                    },
                ensures
                    inherited_of(t, target.0 as int).contains(module) <==> cursor is Some,
                decreases (match cursor {
                    Some(c) => c.0 + 1,
                    None => 0,
                }),
            {
                let c = cursor.unwrap();
                assert(class_ok(t, c.0 as int));
                assert(t[c.0 as int] == self.entries@[c.0 as int].model());
                proof {
                    lemma_is_ancestor(t, c.0 as int, module);
                }
                if holds(&self.entries[c.0 as usize].own, module) {
                    break;
                }
                cursor = self.entries[c.0 as usize].superclass;
            }
            if cursor.is_some() {
                return Some(Found::Super);
            }
        }
        None
    }

    fn insert(&mut self, target: ClassId, at: usize, module: ClassId)
        requires
            table_ok(old(self).table()),
            target.0 < old(self).table().len(),
            module.0 < old(self).table().len(),
            at <= old(self).table()[target.0 as int].own.len(),
        ensures
            final(self).table() == mixin::inserted(
                old(self).table(),
                target.0 as int,
                at as int,
                module,
            ),
            final(self).crefs@ == old(self).crefs@,
            final(self).serial == old(self).serial,
            final(self).stamps == old(self).stamps,
    {
        let ghost t = self.table();
        assert(t[target.0 as int] == self.entries@[target.0 as int].model());
        assert(class_ok(t, target.0 as int));
        self.entries[target.0 as usize].own.insert(at, module);
        let origin: usize = self.entries[target.0 as usize].origin;
        if at <= origin {
            let len: usize = self.entries[target.0 as usize].own.len();
            assert(origin + 1 < len);
            self.entries[target.0 as usize].origin = origin + 1;
        }
        let ghost with_own = self.table();
        proof {
            let c = t[target.0 as int];
            assert(with_own =~= t.update(
                target.0 as int,
                ClassModel {
                    own: c.own.insert(at as int, module),
                    origin: if at <= c.origin {
                        c.origin + 1
                    } else {
                        c.origin
                    },
                    ..c
                },
            ));
            assert(with_own[module.0 as int] == self.entries@[module.0 as int].model());
        }
        if !holds(&self.entries[module.0 as usize].includers, target) {
            self.entries[module.0 as usize].includers.push(target);
            proof {
                let e = with_own[module.0 as int];
                assert(self.table() =~= with_own.update(
                    module.0 as int,
                    ClassModel { includers: e.includers.push(target), ..e },
                ));
            }
        }
    }

    fn bump(&mut self)
        ensures
            final(self).serial == old(self).serial.wrapping_add(1),
            final(self).cache@ == Map::<u64, Option<Method>>::empty(),
            final(self).entries == old(self).entries,
            final(self).stamps == old(self).stamps,
            final(self).crefs == old(self).crefs,
    {
        self.serial = self.serial.wrapping_add(1);
        self.cache.clear();
    }

    /// Add an entry, with an object that no other entry has.
    pub(crate) fn define(
        &mut self,
        object: Value,
        name: Option<&str>,
        kind: Kind,
        superclass: Option<ClassId>,
        is_singleton: bool,
    ) -> (r: ClassId)
        requires
            old(self).wf(),
            old(self).table().len() < u32::MAX,
            superclass matches Some(s) ==> old(self).has(s),
            kind is Module ==> superclass is None,
            object@ is Heap,
            forall|i: int|
                0 <= i < old(self).table().len() ==> (#[trigger] old(self).table()[i]).object@
                    != object@,
        ensures
            final(self).wf(),
            r.0 == old(self).table().len(),
            final(self).table() == old(self).table().push(
                fresh_class(
                    r,
                    object,
                    match name {
                        Some(name) => Some(name@),
                        None => None,
                    },
                    kind,
                    superclass,
                    is_singleton,
                ),
            ),
            final(self).scopes() == old(self).scopes(),
            final(self).cached() == Map::<u64, Option<Method>>::empty(),
            final(self).generation() == old(self).generation().wrapping_add(1),
            final(self).stamps() == old(self).stamps().push(final(self).generation()),
    {
        let ghost t = self.table();
        let id = ClassId(self.entries.len() as u32);
        let mut own: Vec<ClassId> = Vec::new();
        own.push(id);
        let owned = match name {
            Some(name) => Some(name.to_owned()),
            None => None,
        };
        self.entries.push(
            Entry {
                object,
                name: owned,
                kind,
                superclass,
                own,
                origin: 0,
                methods: HashMap::new(),
                includers: Vec::new(),
                singleton: None,
                is_singleton,
                constants: HashMap::new(),
            },
        );
        self.bump();
        self.stamps.push(self.serial);
        proof {
            let fresh = fresh_class(
                id,
                object,
                match name {
                    Some(name) => Some(name@),
                    None => None,
                },
                kind,
                superclass,
                is_singleton,
            );
            assert(self.entries@[t.len() as int].model() =~= fresh);
            assert(self.table() =~= t.push(fresh));
            assert forall|i: int| 0 <= i < self.table().len() implies #[trigger] class_ok(
                self.table(),
                i,
            ) by {
                if i < t.len() {
                    assert(class_ok(t, i));
                }
            }
            assert forall|i: int, j: int| 0 <= i < j < self.table().len() implies #[trigger] apart(
                self.table(),
                i,
                j,
            ) by {
                if j < t.len() {
                    assert(apart(t, i, j));
                } else {
                    assert(self.table()[i] == t[i]);
                }
            }
        }
        id
    }

    /// Give an entry that has none its singleton class.
    pub(crate) fn set_singleton(&mut self, id: ClassId, singleton: ClassId)
        requires
            old(self).wf(),
            old(self).has(id),
            old(self).table()[id.0 as int].singleton is None,
            singleton_ok(old(self).table(), id.0 as int, singleton),
        ensures
            final(self).wf(),
            final(self).table() == old(self).table().update(
                id.0 as int,
                (ClassModel { singleton: Some(singleton), ..old(self).table()[id.0 as int] }),
            ),
            final(self).scopes() == old(self).scopes(),
            final(self).cached() == old(self).cached(),
            final(self).generation() == old(self).generation(),
            final(self).stamps() == old(self).stamps(),
    {
        self.entries[id.0 as usize].singleton = Some(singleton);
        proof {
            let t = old(self).table();
            let after = t.update(
                id.0 as int,
                ClassModel { singleton: Some(singleton), ..t[id.0 as int] },
            );
            assert(self.table() =~= after);
            assert forall|i: int| 0 <= i < after.len() implies #[trigger] class_ok(after, i) by {
                assert(class_ok(t, i));
            }
            assert forall|i: int, j: int| 0 <= i < j < after.len() implies #[trigger] apart(
                after,
                i,
                j,
            ) by {
                assert(apart(t, i, j));
            }
            lemma_same_lookup(t, after);
        }
    }

    /// Every value the table keeps alive.
    pub fn roots(&self) -> (r: Vec<Value>)
        ensures
            forall|v: Value| #[trigger] r@.contains(v) <==> is_class_root(self.table(), v),
    {
        let mut out: Vec<Value> = Vec::new();
        let ghost t = self.table();
        let mut i: usize = 0;
        while i < self.entries.len()
            invariant
                i <= self.entries.len(),
                t == self.table(),
                forall|v: Value| #[trigger] out@.contains(v) <==> is_class_root(t.take(i as int), v),
            decreases self.entries.len() - i,
        {
            let ghost before = out@;
            let ghost seen = t.take(i as int);
            assert(t[i as int] == self.entries@[i as int].model());
            let mut more = self.entries[i].roots();
            let ghost added = more@;
            out.append(&mut more);
            proof {
                let now = t.take(i + 1);
                assert forall|v: Value| #[trigger] out@.contains(v) <==> is_class_root(now, v) by {
                    if out@.contains(v) {
                        let k = out@.index_of(v);
                        if k < before.len() {
                            assert(before[k] == v);
                            assert(before.contains(v));
                            let j = choose|j: int|
                                0 <= j < seen.len() && is_entry_root(#[trigger] seen[j], v);
                            assert(now[j] == seen[j]);
                        } else {
                            assert(added[k - before.len()] == v);
                            assert(added.contains(v));
                            assert(is_entry_root(now[i as int], v));
                        }
                    }
                    if is_class_root(now, v) {
                        let j = choose|j: int|
                            0 <= j < now.len() && is_entry_root(#[trigger] now[j], v);
                        if j < i {
                            assert(seen[j] == now[j]);
                            assert(before.contains(v));
                            let k = before.index_of(v);
                            assert(out@[k] == v);
                        } else {
                            assert(added.contains(v));
                            let k = added.index_of(v);
                            assert(out@[before.len() + k] == v);
                        }
                    }
                }
            }
            i += 1;
        }
        assert(t.take(i as int) =~= t);
        out
    }
}

/// The entry [`Classes::define`] adds.
pub open spec fn fresh_class(
    id: ClassId,
    object: Value,
    name: Option<Seq<char>>,
    kind: Kind,
    superclass: Option<ClassId>,
    is_singleton: bool,
) -> ClassModel {
    ClassModel {
        object,
        name,
        kind,
        superclass,
        own: seq![id],
        origin: 0,
        methods: Map::empty(),
        includers: Seq::empty(),
        singleton: None,
        is_singleton,
        constants: Map::empty(),
    }
}

/// The table with a method defined.
pub open spec fn with_method(
    t: Seq<ClassModel>,
    id: int,
    name: SymbolId,
    body: Value,
    cref: CrefId,
) -> Seq<ClassModel> {
    t.update(id, ClassModel { methods: t[id].methods.insert(name.0, (body, cref)), ..t[id] })
}

/// The table with a method removed.
pub open spec fn without_method(t: Seq<ClassModel>, id: int, name: SymbolId) -> Seq<ClassModel> {
    t.update(id, ClassModel { methods: t[id].methods.remove(name.0), ..t[id] })
}

/// The table with a constant set.
pub open spec fn with_constant(t: Seq<ClassModel>, id: int, name: SymbolId, value: Value) -> Seq<
    ClassModel,
> {
    t.update(id, ClassModel { constants: t[id].constants.insert(name.0, value), ..t[id] })
}

/// What a mixin does: refuse a class, refuse a cycle, or mix in. A refusal
/// changes nothing.
pub open spec fn mixin_outcome(
    before: Classes,
    after: Classes,
    target: ClassId,
    module: ClassId,
    how: Mixin,
    r: Result<(), MixinError>,
) -> bool {
    let t = before.table();
    if t[module.0 as int].kind is Class {
        r == Err::<(), MixinError>(MixinError::NotAModule) && after == before
    } else if t[module.0 as int].own.contains(target) {
        r == Err::<(), MixinError>(MixinError::Cyclic(how)) && after == before
    } else {
        &&& r is Ok
        &&& after.wf()
        &&& after.table() == mixin::mixed(t, target.0 as int, module.0 as int, how)
        &&& after.table().len() == t.len()
        &&& after.scopes() == before.scopes()
        &&& after.cached() == Map::<u64, Option<Method>>::empty()
        &&& after.generation() == before.generation().wrapping_add(1)
        &&& after.stamps() == Seq::new(before.stamps().len(), |i: int| after.generation())
    }
}

/// A constant that a walk along a chain finds is held by the table.
proof fn lemma_found_is_root(
    t: Seq<ClassModel>,
    chain: Seq<ClassId>,
    skip: Option<ClassId>,
    name: SymbolId,
)
    requires
        forall|k: int| 0 <= k < chain.len() ==> (#[trigger] chain[k]).0 < t.len(),
    ensures
        const_in(t, chain, skip, name) matches Some(v) ==> is_class_root(t, v),
    decreases chain.len(),
{
    if chain.len() > 0 {
        let rest = chain.skip(1);
        assert forall|k: int| 0 <= k < rest.len() implies (#[trigger] rest[k]).0 < t.len() by {
            assert(rest[k] == chain[k + 1]);
        }
        lemma_found_is_root(t, rest, skip, name);
        lemma_here_is_root(t, chain[0].0 as int, name);
    }
}

/// A constant that an entry holds is held by the table.
pub proof fn lemma_here_is_root(t: Seq<ClassModel>, id: int, name: SymbolId)
    requires
        0 <= id < t.len(),
    ensures
        const_here(t, id, name) matches Some(v) ==> is_class_root(t, v),
{
    if let Some(v) = const_here(t, id, name) {
        assert(t[id].constants.contains_key(name.0) && t[id].constants[name.0] == v);
        assert(has_constant(t[id].constants, v));
        assert(is_entry_root(t[id], v));
    }
}

proof fn lemma_lexical_is_root(
    t: Seq<ClassModel>,
    scopes: Seq<CrefNode>,
    cref: int,
    name: SymbolId,
)
    requires
        0 <= cref < scopes.len(),
        forall|i: int|
            0 <= i < scopes.len() ==> {
                &&& (#[trigger] scopes[i]).class.0 < t.len()
                &&& scopes[i].parent matches Some(p) ==> p.0 < i
            },
    ensures
        const_lexical(t, scopes, cref, name) matches Some(v) ==> is_class_root(t, v),
    decreases cref,
{
    lemma_here_is_root(t, scopes[cref].class.0 as int, name);
    if let Some(p) = scopes[cref].parent {
        lemma_lexical_is_root(t, scopes, p.0 as int, name);
    }
}

/// A constant that a reference finds is held by the table.
pub proof fn lemma_constant_is_root(
    t: Seq<ClassModel>,
    scopes: Seq<CrefNode>,
    cref: int,
    from: int,
    name: SymbolId,
)
    requires
        table_ok(t),
        0 <= cref < scopes.len(),
        0 <= from < t.len(),
        Builtin::Object.rank() < t.len(),
        forall|i: int|
            0 <= i < scopes.len() ==> {
                &&& (#[trigger] scopes[i]).class.0 < t.len()
                &&& scopes[i].parent matches Some(p) ==> p.0 < i
            },
    ensures
        const_bare(t, scopes, cref, name) matches Some(v) ==> is_class_root(t, v),
        const_qualified(t, from, name) matches Some(v) ==> is_class_root(t, v),
{
    lemma_lexical_is_root(t, scopes, cref, name);
    let innermost = scopes[cref].class.0 as int;
    lemma_ancestors_known(t, innermost);
    lemma_found_is_root(t, ancestors_of(t, innermost), None, name);
    lemma_here_is_root(t, Builtin::Object.rank(), name);
    lemma_ancestors_known(t, from);
    lemma_found_is_root(t, ancestors_of(t, from), None, name);
    lemma_found_is_root(t, ancestors_of(t, from), Some(Builtin::Object.class_id()), name);
}

/// Every ancestor is in the table.
pub proof fn lemma_ancestors_known(t: Seq<ClassModel>, id: int)
    requires
        table_ok(t),
        0 <= id < t.len(),
    ensures
        forall|k: int|
            0 <= k < ancestors_of(t, id).len() ==> (#[trigger] ancestors_of(t, id)[k]).0 < t.len(),
    decreases id,
{
    assert(class_ok(t, id));
    if let Some(s) = t[id].superclass {
        lemma_ancestors_known(t, s.0 as int);
    }
    lemma_ancestors(t, id);
    let own = t[id].own;
    assert forall|k: int| 0 <= k < ancestors_of(t, id).len() implies (#[trigger] ancestors_of(
        t,
        id,
    )[k]).0 < t.len() by {
        if k < own.len() {
            assert(ancestors_of(t, id)[k] == own[k]);
        } else {
            assert(ancestors_of(t, id)[k] == inherited_of(t, id)[k - own.len()]);
        }
    }
}

/// Singleton classes inherit as their classes do: the singleton class of a
/// class with a superclass inherits from the superclass's, that of one without
/// from `Class`, and that of a module from `Module`.
pub proof fn law_singleton_classes_mirror_their_classes(t: Seq<ClassModel>, id: ClassId)
    requires
        table_ok(t),
        id.0 < t.len(),
        t[id.0 as int].singleton is Some,
    ensures
        ({
            let c = t[id.0 as int];
            let single = t[(c.singleton->0).0 as int];
            &&& (c.singleton->0).0 < t.len()
            &&& single.is_singleton
            &&& single.superclass == match c.superclass {
                Some(s) => t[s.0 as int].singleton,
                None => Some(
                    match c.kind {
                        Kind::Class => Builtin::Class.class_id(),
                        Kind::Module => Builtin::Module.class_id(),
                    },
                ),
            }
            &&& single.superclass is Some
        }),
{
    assert(class_ok(t, id.0 as int));
}

/// The largest stamp in a chain.
pub open spec fn latest(stamps: Seq<u64>, chain: Seq<ClassId>) -> u64
    decreases chain.len(),
{
    if chain.len() == 0 {
        0
    } else {
        let above = latest(stamps, chain.drop_last());
        let here = stamps[chain.last().0 as int];
        if here > above {
            here
        } else {
            above
        }
    }
}

/// A definition moves the serial of what has the class among its ancestors, and
/// of nothing else.
pub proof fn law_a_definition_moves_its_heirs(
    stamps: Seq<u64>,
    chain: Seq<ClassId>,
    owner: ClassId,
    now: u64,
)
    requires
        owner.0 < stamps.len(),
        forall|k: int| 0 <= k < chain.len() ==> (#[trigger] chain[k]).0 < stamps.len(),
        forall|k: int| 0 <= k < stamps.len() ==> #[trigger] stamps[k] < now,
    ensures
        !chain.contains(owner) ==> latest(stamps.update(owner.0 as int, now), chain) == latest(
            stamps,
            chain,
        ),
        chain.contains(owner) ==> latest(stamps.update(owner.0 as int, now), chain) == now,
        latest(stamps, chain) < now,
    decreases chain.len(),
{
    if chain.len() > 0 {
        let rest = chain.drop_last();
        assert forall|k: int| 0 <= k < rest.len() implies (#[trigger] rest[k]).0 < stamps.len() by {
            assert(rest[k] == chain[k]);
        }
        law_a_definition_moves_its_heirs(stamps, rest, owner, now);
        assert(chain[chain.len() - 1] == chain.last());
        assert(stamps[chain.last().0 as int] < now);
        if chain.contains(owner) && chain.last() != owner {
            let k = chain.index_of(owner);
            assert(rest[k] == owner);
        }
        if rest.contains(owner) {
            let k = rest.index_of(owner);
            assert(chain[k] == owner);
        }
    } else {
        assert(now > stamps[owner.0 as int]);
    }
}

/// Tables that agree on runs and links are in order together.
pub proof fn lemma_same_shape(t: Seq<ClassModel>, after: Seq<ClassModel>)
    requires
        table_ok(t),
        same_shape(t, after),
    ensures
        table_ok(after),
        forall|id: int| #[trigger] ancestors_of(after, id) == ancestors_of(t, id),
{
    assert forall|i: int| 0 <= i < after.len() implies #[trigger] class_ok(after, i) by {
        assert(class_ok(t, i));
        assert(same_links(t, after, i));
        assert forall|k: int| 0 <= k < after[i].own.len() && k != after[i].origin implies mixed_in_ok(
            after,
            i,
            #[trigger] after[i].own[k],
        ) by {
            assert(mixed_in_ok(t, i, t[i].own[k]));
            assert(same_links(t, after, t[i].own[k].0 as int));
        }
        if let Some(s) = t[i].superclass {
            assert(same_links(t, after, s.0 as int));
        }
        if let Some(s) = t[i].singleton {
            assert(same_links(t, after, s.0 as int));
        }
    }
    assert forall|i: int, j: int| 0 <= i < j < after.len() implies #[trigger] apart(after, i, j) by {
        assert(apart(t, i, j));
        assert(same_links(t, after, i) && same_links(t, after, j));
    }
    assert forall|i: int| 0 <= i < t.len() implies (#[trigger] after[i]).own == t[i].own
        && after[i].superclass == t[i].superclass by {
        assert(same_links(t, after, i));
    }
    assert forall|id: int| #[trigger] ancestors_of(after, id) == ancestors_of(t, id) by {
        lemma_same_ancestors(t, after, id);
    }
}

/// An entry whose run and links did not change.
pub open spec fn same_links(t: Seq<ClassModel>, after: Seq<ClassModel>, i: int) -> bool {
    &&& after[i].own == t[i].own
    &&& after[i].origin == t[i].origin
    &&& after[i].includers == t[i].includers
    &&& after[i].kind == t[i].kind
    &&& after[i].superclass == t[i].superclass
    &&& after[i].singleton == t[i].singleton
    &&& after[i].is_singleton == t[i].is_singleton
    &&& after[i].object == t[i].object
}

/// Tables that agree on every run and link.
pub open spec fn same_shape(t: Seq<ClassModel>, after: Seq<ClassModel>) -> bool {
    &&& after.len() == t.len()
    &&& forall|i: int| 0 <= i < t.len() ==> #[trigger] same_links(t, after, i)
}

proof fn lemma_same_ancestors(t: Seq<ClassModel>, after: Seq<ClassModel>, id: int)
    requires
        after.len() == t.len(),
        forall|i: int|
            0 <= i < t.len() ==> (#[trigger] after[i]).own == t[i].own && after[i].superclass
                == t[i].superclass,
    ensures
        ancestors_of(after, id) == ancestors_of(t, id),
    decreases id,
{
    if 0 <= id < t.len() {
        assert(after[id].own == t[id].own);
        if let Some(s) = t[id].superclass {
            if s.0 < id {
                lemma_same_ancestors(t, after, s.0 as int);
            }
        }
    }
}

/// Tables that agree on runs, superclasses and methods find the same methods.
proof fn lemma_same_lookup(t: Seq<ClassModel>, after: Seq<ClassModel>)
    requires
        table_ok(t),
        after.len() == t.len(),
        forall|i: int|
            0 <= i < t.len() ==> (#[trigger] after[i]).own == t[i].own && after[i].superclass
                == t[i].superclass && after[i].methods == t[i].methods,
    ensures
        forall|id: int, name: SymbolId|
            0 <= id < t.len() ==> #[trigger] lookup_of(after, id, name) == lookup_of(t, id, name),
{
    assert forall|id: int, name: SymbolId| 0 <= id < t.len() implies #[trigger] lookup_of(
        after,
        id,
        name,
    ) == lookup_of(t, id, name) by {
        lemma_same_ancestors(t, after, id);
        lemma_ancestors_known(t, id);
        lemma_same_lookup_in(t, after, ancestors_of(t, id), name);
    }
}

proof fn lemma_same_lookup_in(
    t: Seq<ClassModel>,
    after: Seq<ClassModel>,
    chain: Seq<ClassId>,
    name: SymbolId,
)
    requires
        after.len() == t.len(),
        forall|i: int| 0 <= i < t.len() ==> (#[trigger] after[i]).methods == t[i].methods,
        forall|k: int| 0 <= k < chain.len() ==> (#[trigger] chain[k]).0 < t.len(),
    ensures
        lookup_in(after, chain, name) == lookup_in(t, chain, name),
    decreases chain.len(),
{
    if chain.len() > 0 {
        assert(after[chain[0].0 as int].methods == t[chain[0].0 as int].methods);
        let rest = chain.skip(1);
        assert forall|k: int| 0 <= k < rest.len() implies (#[trigger] rest[k]).0 < t.len() by {
            assert(rest[k] == chain[k + 1]);
        }
        lemma_same_lookup_in(t, after, rest, name);
    }
}

// ---------------------------------------------------------------------------
// Laws
// ---------------------------------------------------------------------------

/// Setting a constant moves no method, and neither does giving an entry its
/// singleton class: neither has to move the serial.
pub proof fn law_what_keeps_the_serial_moves_no_method(
    t: Seq<ClassModel>,
    id: int,
    constant: SymbolId,
    value: Value,
    singleton: ClassId,
    class: int,
    name: SymbolId,
)
    requires
        table_ok(t),
        0 <= id < t.len(),
        0 <= class < t.len(),
    ensures
        lookup_of(with_constant(t, id, constant, value), class, name) == lookup_of(t, class, name),
        lookup_of(
            t.update(id, (ClassModel { singleton: Some(singleton), ..t[id] })),
            class,
            name,
        ) == lookup_of(t, class, name),
{
    lemma_same_lookup(t, with_constant(t, id, constant, value));
    lemma_same_lookup(t, t.update(id, (ClassModel { singleton: Some(singleton), ..t[id] })));
}

/// A method that was defined is what its name means on every class that has
/// the owner among its ancestors, unless a nearer one has a method of that
/// name.
pub proof fn law_a_definition_is_found(
    t: Seq<ClassModel>,
    id: int,
    name: SymbolId,
    body: Value,
    cref: CrefId,
    class: int,
    k: int,
)
    requires
        table_ok(t),
        0 <= id < t.len(),
        0 <= class < t.len(),
        0 <= k < ancestors_of(t, class).len(),
        ancestors_of(t, class)[k] == ClassId(id as u32),
        forall|i: int|
            0 <= i < k ==> !t[(#[trigger] ancestors_of(t, class)[i]).0 as int].methods.contains_key(
                name.0,
            ),
    ensures
        lookup_of(with_method(t, id, name, body, cref), class, name) == Some(
            Method { owner: ClassId(id as u32), cref, body },
        ),
{
    let after = with_method(t, id, name, body, cref);
    lemma_same_ancestors(t, after, class);
    lemma_ancestors_known(t, class);
    lemma_found_at(t, after, ancestors_of(t, class), k, id, name);
}

proof fn lemma_found_at(
    t: Seq<ClassModel>,
    after: Seq<ClassModel>,
    chain: Seq<ClassId>,
    k: int,
    id: int,
    name: SymbolId,
)
    requires
        0 <= id < t.len(),
        t.len() <= u32::MAX,
        0 <= k < chain.len(),
        chain[k] == ClassId(id as u32),
        after[id].methods.contains_key(name.0),
        after.len() == t.len(),
        forall|i: int| i != id && 0 <= i < t.len() ==> #[trigger] after[i] == t[i],
        forall|i: int| 0 <= i < chain.len() ==> (#[trigger] chain[i]).0 < t.len(),
        forall|i: int|
            0 <= i < k ==> !t[(#[trigger] chain[i]).0 as int].methods.contains_key(name.0),
    ensures
        lookup_in(after, chain, name) == Some(
            Method {
                owner: ClassId(id as u32),
                cref: after[id].methods[name.0].1,
                body: after[id].methods[name.0].0,
            },
        ),
    decreases k,
{
    if k > 0 && chain[0].0 != id {
        let rest = chain.skip(1);
        assert(rest[k - 1] == chain[k]);
        assert(after[chain[0].0 as int] == t[chain[0].0 as int]);
        assert forall|i: int| 0 <= i < rest.len() implies (#[trigger] rest[i]).0 < t.len() by {
            assert(rest[i] == chain[i + 1]);
        }
        assert forall|i: int| 0 <= i < k - 1 implies !t[(
        #[trigger] rest[i]).0 as int].methods.contains_key(name.0) by {
            assert(rest[i] == chain[i + 1]);
        }
        lemma_found_at(t, after, rest, k - 1, id, name);
    }
}

/// A definition changes what a name means only for that name, and only on
/// classes that have the owner among their ancestors.
pub proof fn law_a_definition_elsewhere_is_not_seen(
    t: Seq<ClassModel>,
    id: int,
    name: SymbolId,
    body: Value,
    cref: CrefId,
    class: int,
    asked: SymbolId,
)
    requires
        table_ok(t),
        0 <= id < t.len(),
        0 <= class < t.len(),
        asked != name || !ancestors_of(t, class).contains(ClassId(id as u32)),
    ensures
        lookup_of(with_method(t, id, name, body, cref), class, asked) == lookup_of(
            t,
            class,
            asked,
        ),
{
    let after = with_method(t, id, name, body, cref);
    lemma_same_ancestors(t, after, class);
    lemma_ancestors_known(t, class);
    lemma_unseen(t, after, ancestors_of(t, class), id, asked);
}

proof fn lemma_unseen(
    t: Seq<ClassModel>,
    after: Seq<ClassModel>,
    chain: Seq<ClassId>,
    id: int,
    asked: SymbolId,
)
    requires
        0 <= id < t.len(),
        t.len() <= u32::MAX,
        after.len() == t.len(),
        forall|i: int| i != id && 0 <= i < t.len() ==> #[trigger] after[i] == t[i],
        forall|i: int| 0 <= i < chain.len() ==> (#[trigger] chain[i]).0 < t.len(),
        !chain.contains(ClassId(id as u32)) || {
            &&& after[id].methods.contains_key(asked.0) == t[id].methods.contains_key(asked.0)
            &&& t[id].methods.contains_key(asked.0) ==> after[id].methods[asked.0]
                == t[id].methods[asked.0]
        },
    ensures
        lookup_in(after, chain, asked) == lookup_in(t, chain, asked),
    decreases chain.len(),
{
    if chain.len() > 0 {
        let rest = chain.skip(1);
        assert(chain[0].0 < t.len());
        if chain[0].0 != id {
            assert(after[chain[0].0 as int] == t[chain[0].0 as int]);
        } else {
            assert(chain[0] == ClassId(id as u32));
            assert(chain.contains(ClassId(id as u32)));
        }
        assert forall|i: int| 0 <= i < rest.len() implies (#[trigger] rest[i]).0 < t.len() by {
            assert(rest[i] == chain[i + 1]);
        }
        if rest.contains(ClassId(id as u32)) {
            let k = rest.index_of(ClassId(id as u32));
            assert(chain[k + 1] == ClassId(id as u32));
        }
        lemma_unseen(t, after, rest, id, asked);
    }
}

/// A constant that was set is what its name means on the entry, and no other
/// constant changes.
pub proof fn law_a_constant_reads_back(
    t: Seq<ClassModel>,
    id: int,
    name: SymbolId,
    value: Value,
    class: int,
    asked: SymbolId,
)
    requires
        0 <= id < t.len(),
        0 <= class < t.len(),
    ensures
        const_here(with_constant(t, id, name, value), id, name) == Some(value),
        class != id || asked != name ==> const_here(
            with_constant(t, id, name, value),
            class,
            asked,
        ) == const_here(t, class, asked),
{
}

/// Taking away a method that was not there before its definition leaves the
/// table as it was.
pub proof fn law_removing_undoes_a_definition(
    t: Seq<ClassModel>,
    id: int,
    name: SymbolId,
    body: Value,
    cref: CrefId,
)
    requires
        0 <= id < t.len(),
        !t[id].methods.contains_key(name.0),
    ensures
        without_method(with_method(t, id, name, body, cref), id, name) == t,
{
    let back = without_method(with_method(t, id, name, body, cref), id, name);
    assert(back[id].methods =~= t[id].methods);
    assert(back =~= t);
}

} // verus!
