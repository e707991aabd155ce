//! Classes as objects: what a heap defines, and what it starts with.
//!
//! A class or module is an entry of the class table and an object of one slot
//! that holds the entry's id. The object's own class is `Class` or `Module`,
//! until the class has a singleton class of its own.

use vstd::prelude::*;
use vstd::string::*;

use crate::class;
use crate::class::{Builtin, ClassId, ClassModel, Kind, Method};
use crate::heap;
use crate::heap::{BodyModel, Handle, HandleScope, HeapModel, Object, Payload};
use crate::value::{Unpacked, Value};

verus! {

broadcast use Value::law_pack;

/// The slot of a class object that holds its id.
pub const SLOT_ID: usize = 0;

/// How many slots a class object has.
pub const CLASS_SLOTS: u32 = 1;

/// The class that classes or modules are instances of.
pub open spec fn meta_of(kind: Kind) -> Builtin {
    match kind {
        Kind::Class => Builtin::Class,
        Kind::Module => Builtin::Module,
    }
}

/// What a new class object's class is: none while the heap still lacks it.
pub open spec fn meta_object(t: Seq<ClassModel>, kind: Kind) -> Option<Value> {
    if meta_of(kind).rank() < t.len() {
        Some(t[meta_of(kind).rank()].object)
    } else {
        None
    }
}

/// A class object.
pub open spec fn class_object(meta: Option<Value>, id: ClassId) -> Object {
    Object {
        class: meta,
        frozen: false,
        body: BodyModel::Slots(seq![Value::pack(Unpacked::Fixnum(id.0 as i64))]),
    }
}

/// Whether no object appeared or changed but one.
pub open spec fn only_added(before: HeapModel, after: HeapModel, v: Value) -> bool {
    forall|a: u64| #[trigger]
        after.objects.contains_key(a) && v@ != Unpacked::Heap(a) ==> before.objects.contains_key(a)
            && after.objects[a] == before.objects[a]
}

/// Whether an object was made where there was none, and all others stayed.
pub open spec fn all_kept(before: HeapModel, after: HeapModel, v: Value) -> bool {
    &&& !before.objects.contains_key(v@->Heap_0)
    &&& forall|a: u64| #[trigger]
        before.objects.contains_key(a) ==> after.objects.contains_key(a) && after.objects[a]
            == before.objects[a]
}

/// What defining a class or module does: an entry at the end of the table, an
/// object for it, and nothing that was reachable changed.
pub open spec fn defined(
    before: HeapModel,
    after: HeapModel,
    id: ClassId,
    name: Option<Seq<char>>,
    kind: Kind,
    superclass: Option<ClassId>,
    is_singleton: bool,
) -> bool {
    let t = before.classes.table();
    let object = after.classes.table()[id.0 as int].object;
    &&& id.0 == t.len()
    &&& after.classes.table() == t.push(
        class::fresh_class(id, object, name, kind, superclass, is_singleton),
    )
    &&& after.classes.scopes() == before.classes.scopes()
    &&& after.classes.cached() == Map::<u64, Option<Method>>::empty()
    &&& after.classes.generation() == before.classes.generation().wrapping_add(1)
    &&& after.classes.stamps() == before.classes.stamps().push(after.classes.generation())
    &&& after.has_object(object)
    &&& after.object(object) == class_object(meta_object(t, kind), id)
    &&& !(before.objects.contains_key(object@->Heap_0) && before.reachable(object@->Heap_0))
    &&& heap::persists(before, after)
    &&& only_added(before, after, object)
    &&& after.roots == before.roots
    &&& after.definitions == before.definitions
    &&& after.regexps == before.regexps
    &&& after.last_match == before.last_match
    &&& after.symbols == before.symbols
}

/// The class table entry an object is, if it is a class or module.
pub open spec fn class_id_in(m: HeapModel, v: Value) -> Option<ClassId> {
    let t = m.classes.table();
    match m.object(v).body {
        BodyModel::Slots(slots) => if slots.len() == 1 {
            match slots[0]@ {
                Unpacked::Fixnum(n) => if 0 <= n < t.len() && n <= u32::MAX && t[n as int].object
                    == v {
                    Some(ClassId(n as u32))
                } else {
                    None
                },
                _ => None,
            }
        } else {
            None
        },
        BodyModel::Bytes(_) => None,
    }
}

/// The class table entry an object is an instance of, read from its header.
pub open spec fn class_in(m: HeapModel, v: Value) -> Option<ClassId> {
    match m.object(v).class {
        None => None,
        Some(c) => if m.has_object(c) {
            match heap::slot_in(m.object(c), 0) {
                Some(slot) => match slot@ {
                    Unpacked::Fixnum(n) => if 0 <= n < m.classes.table().len() && n <= u32::MAX {
                        Some(ClassId(n as u32))
                    } else {
                        None
                    },
                    _ => None,
                },
                None => None,
            }
        } else {
            None
        },
    }
}

// ---------------------------------------------------------------------------
// Singleton classes
// ---------------------------------------------------------------------------

/// How many singleton classes an entry and its superclasses lack, up to the
/// first that has one.
pub open spec fn missing(t: Seq<ClassModel>, id: int) -> nat
    decreases id,
{
    if !(0 <= id < t.len()) || t[id].singleton is Some {
        0
    } else {
        match t[id].kind {
            Kind::Module => 1,
            Kind::Class => match t[id].superclass {
                None => 1,
                Some(s) => if s.0 < id {
                    1 + missing(t, s.0 as int)
                } else {
                    1
                },
            },
        }
    }
}

/// The name of an entry's singleton class.
pub open spec fn singleton_name(name: Option<Seq<char>>) -> Option<Seq<char>> {
    match name {
        Some(name) => Some("#<Class:"@ + name + ">"@),
        None => None,
    }
}

/// Whether `i` got its singleton class between two tables.
pub open spec fn newly_single(t: Seq<ClassModel>, now: Seq<ClassModel>, i: int) -> bool {
    &&& 0 <= i < t.len()
    &&& t[i].singleton is None
    &&& now[i].singleton is Some
}

/// An entry that is as it was but for its singleton class, and has got one
/// only if it is in line.
pub open spec fn kept_entry(t: Seq<ClassModel>, now: Seq<ClassModel>, id: int, i: int) -> bool {
    &&& now[i] == (ClassModel { singleton: now[i].singleton, ..t[i] })
    &&& now[i].singleton == t[i].singleton || newly_single(t, now, i) && class::in_line(t, id, i)
}

/// What an entry that lacked a singleton class got: an entry at the end of the
/// table, with an object of its own.
pub open spec fn single_made(t: Seq<ClassModel>, after: HeapModel, i: int) -> bool {
    let now = after.classes.table();
    &&& now[i].singleton matches Some(s)
    &&& t.len() <= s.0 < now.len()
    &&& now[s.0 as int] == class::fresh_class(
        s,
        now[s.0 as int].object,
        singleton_name(t[i].name),
        Kind::Class,
        class::singleton_parent(now, i),
        true,
    )
    &&& after.has_object(now[s.0 as int].object)
    &&& after.object(now[s.0 as int].object) == class_object(meta_object(t, Kind::Class), s)
}

/// Whether a class object's header points at its singleton class.
pub open spec fn headed(m: HeapModel, i: int) -> bool {
    let t = m.classes.table();
    &&& t[i].singleton matches Some(s)
    &&& m.has_object(t[i].object)
    &&& m.object(t[i].object).class == Some(t[s.0 as int].object)
}

/// The table once an entry that lacked a singleton class has one, and so has
/// every superclass.
pub open spec fn singleton_table(
    t: Seq<ClassModel>,
    now: Seq<ClassModel>,
    id: int,
    r: ClassId,
) -> bool {
    &&& now.len() == t.len() + missing(t, id)
    &&& r.0 == now.len() - 1
    &&& now[id].singleton == Some(r)
    &&& forall|i: int| 0 <= i < t.len() ==> #[trigger] kept_entry(t, now, id, i)
    &&& now[r.0 as int] == class::fresh_class(
        r,
        now[r.0 as int].object,
        singleton_name(t[id].name),
        Kind::Class,
        class::singleton_parent(now, id),
        true,
    )
}

/// The serials of a table once `n` entries were defined one after the other:
/// those there were, and one more for each.
pub open spec fn stamped(stamps: Seq<u64>, generation: u64, n: nat) -> Seq<u64> {
    stamps + Seq::new(n, |k: int| generation.wrapping_add((k + 1) as u64))
}

/// Whether `a` is the object of an entry that got its singleton class.
pub open spec fn reheaded(t: Seq<ClassModel>, now: Seq<ClassModel>, a: u64) -> bool {
    exists|i: int| #[trigger] newly_single(t, now, i) && t[i].object@ == Unpacked::Heap(a)
}

/// What asking for a singleton class that does not exist yet does. The header
/// of a class object points at its singleton class from then on; nothing else
/// that was reachable changes.
pub open spec fn singled(before: HeapModel, after: HeapModel, id: ClassId, r: ClassId) -> bool {
    let t = before.classes.table();
    let now = after.classes.table();
    &&& singleton_table(t, now, id.0 as int, r)
    &&& forall|i: int| #[trigger]
        class::in_line(t, id.0 as int, i) && t[i].singleton is None ==> single_made(t, after, i)
            && headed(after, i)
    &&& after.classes.scopes() == before.classes.scopes()
    &&& after.classes.cached() == Map::<u64, Option<Method>>::empty()
    &&& after.classes.generation() == before.classes.generation().wrapping_add(
        missing(t, id.0 as int) as u64,
    )
    &&& after.classes.stamps() == stamped(
        before.classes.stamps(),
        before.classes.generation(),
        missing(t, id.0 as int),
    )
    &&& after.roots == before.roots
    &&& after.definitions == before.definitions
    &&& after.regexps == before.regexps
    &&& after.last_match == before.last_match
    &&& after.symbols == before.symbols
    &&& after.has_object(t[id.0 as int].object)
    &&& after.object(t[id.0 as int].object) == (Object {
        class: Some(now[r.0 as int].object),
        ..before.object(t[id.0 as int].object)
    })
    &&& forall|a: u64| #[trigger]
        before.objects.contains_key(a) && before.reachable(a) ==> {
            &&& after.objects.contains_key(a)
            &&& after.objects[a] == (Object {
                class: after.objects[a].class,
                ..before.objects[a]
            })
            &&& !reheaded(t, now, a) ==> after.objects[a] == before.objects[a]
        }
}

/// What asking an object for its singleton class does: nothing where its class
/// is one; otherwise a singleton class is defined, and the object's header
/// points at it.
pub open spec fn singleton_of_object(
    before: HeapModel,
    after: HeapModel,
    v: Value,
    r: ClassId,
) -> bool {
    match class_in(before, v) {
        None => false,
        Some(class) => if before.classes.table()[class.0 as int].is_singleton {
            r == class && after == before
        } else {
            exists|mid: HeapModel|
                {
                    &&& #[trigger] defined(before, mid, r, None, Kind::Class, Some(class), true)
                    &&& after == mid.storing(
                        v,
                        (Object {
                            class: Some(mid.classes.table()[r.0 as int].object),
                            ..before.object(v)
                        }),
                    )
                }
        },
    }
}

/// An entry is not in line above its superclass.
proof fn lemma_not_in_line(t: Seq<ClassModel>, from: int, i: int)
    requires
        from < i,
    ensures
        !class::in_line(t, from, i),
    decreases from,
{
    if 0 <= from < t.len() {
        if let Some(s) = t[from].superclass {
            if s.0 < from {
                lemma_not_in_line(t, s.0 as int, i);
            }
        }
    }
}

/// Where an entry has a singleton class, so has every superclass.
proof fn lemma_line_has_singletons(t: Seq<ClassModel>, from: int, i: int)
    requires
        class::table_ok(t),
        0 <= from < t.len(),
        t[from].singleton is Some,
        class::in_line(t, from, i),
    ensures
        0 <= i < t.len(),
        t[i].singleton is Some,
    decreases from,
{
    assert(class::class_ok(t, from));
    if i != from {
        lemma_line_has_singletons(t, (t[from].superclass->0).0 as int, i);
    }
}

/// What is in line is in the table.
proof fn lemma_in_line(t: Seq<ClassModel>, from: int, i: int)
    requires
        0 <= from < t.len(),
        class::in_line(t, from, i),
    ensures
        0 <= i <= from,
    decreases from,
{
    if i != from {
        lemma_in_line(t, (t[from].superclass->0).0 as int, i);
    }
}

/// A class is an instance of its singleton class, from the first ask on, and
/// so is every superclass.
pub proof fn law_a_class_is_an_instance_of_its_singleton_class(
    before: HeapModel,
    after: HeapModel,
    id: ClassId,
    r: ClassId,
    i: int,
)
    requires
        singled(before, after, id, r),
        after.classes.wf(),
        before.classes.has(id),
        class::in_line(before.classes.table(), id.0 as int, i),
        before.classes.table()[i].singleton is None,
    ensures
        class_in(after, after.classes.table()[i].object) == after.classes.table()[i].singleton,
        after.classes.table()[i].object == before.classes.table()[i].object,
        id.0 == i ==> after.classes.table()[i].singleton == Some(r),
{
    lemma_in_line(before.classes.table(), id.0 as int, i);
    assert(kept_entry(before.classes.table(), after.classes.table(), id.0 as int, i));
    assert(single_made(before.classes.table(), after, i));
    assert(headed(after, i));
    let s = after.classes.table()[i].singleton->0;
    let object = after.object(after.classes.table()[s.0 as int].object);
    assert(heap::slot_in(object, 0) == Some(Value::pack(Unpacked::Fixnum(s.0 as i64))));
}

/// The class objects are reachable.
pub proof fn lemma_class_objects_reachable(m: HeapModel, i: int)
    requires
        m.sound(),
        m.classes.wf(),
        0 <= i < m.classes.table().len(),
    ensures
        m.is_root(m.classes.table()[i].object),
        m.has_object(m.classes.table()[i].object),
        m.reachable(m.classes.table()[i].object@->Heap_0),
{
    let t = m.classes.table();
    let object = t[i].object;
    assert(class::class_ok(t, i));
    assert(class::is_entry_root(t[i], object));
    assert(class::is_class_root(t, object));
    assert(m.is_root(object));
    heap::law_roots_are_reachable(m, object, object@->Heap_0);
}

impl HandleScope {
    /// Define a class or module.
    pub(crate) fn define(
        &mut self,
        name: Option<&str>,
        kind: Kind,
        superclass: Option<ClassId>,
        is_singleton: bool,
    ) -> (r: ClassId)
        requires
            old(self).wf(),
            old(self).roomy(),
            old(self)@.classes.table().len() < u32::MAX,
            superclass matches Some(s) ==> old(self)@.classes.has(s),
            kind is Module ==> superclass is None,
        ensures
            final(self).wf(),
            final(self).scopes() == old(self).scopes(),
            final(self).room() >= old(self).room() - 1,
            heap::tallied(old(self).inner(), final(self).inner(), Payload::Slots, CLASS_SLOTS),
            !old(self).inner().due() ==> all_kept(
                old(self)@,
                final(self)@,
                final(self)@.classes.table()[r.0 as int].object,
            ),
            defined(
                old(self)@,
                final(self)@,
                r,
                match name {
                    Some(name) => Some(name@),
                    None => None,
                },
                kind,
                superclass,
                is_singleton,
            ),
    {
        let ghost before = self@;
        self.nested();
        let meta = match kind {
            Kind::Class => Builtin::Class.id(),
            Kind::Module => Builtin::Module.id(),
        };
        let class: Option<Handle> = if self.classes().len() > meta.index() {
            let object = self.classes().object(meta);
            assert(self@.is_root(object)) by {
                let t = self@.classes.table();
                assert(class::is_entry_root(t[meta.0 as int], object));
            }
            Some(self.root(object))
        } else {
            None
        };
        let ghost rooted = *self;
        let handle = self.allocate(class, Payload::Slots, CLASS_SLOTS);
        let object = self.get(handle);
        let ghost born = *self;
        proof {
            heap::lemma_born(
                rooted.inner(),
                born.inner(),
                meta_object(before.classes.table(), kind),
                Payload::Slots,
                CLASS_SLOTS,
                object,
            );
            assert forall|i: int| 0 <= i < before.classes.table().len() implies (
            #[trigger] before.classes.table()[i]).object@ != object@ by {
                lemma_class_objects_reachable(rooted@, i);
            }
        }
        let id = self.classes_mut().define(object, name, kind, superclass, is_singleton);
        proof {
            let t = before.classes.table();
            let now = self@.classes.table();
            assert forall|v: Value| #[trigger] class::is_class_root(now, v) implies born@.live(v) by {
                let j = choose|j: int| 0 <= j < now.len() && class::is_entry_root(
                    #[trigger] now[j],
                    v,
                );
                if j < t.len() {
                    assert(now[j] == t[j]);
                    assert(class::is_class_root(t, v));
                    assert(born@.is_root(v));
                } else {
                    assert(v == object);
                }
            }
            assert(born@.keeps_classes(self@.classes));
        }
        let slot = match Value::fixnum(id.0 as i64) {
            Some(slot) => slot,
            None => Value::nil(),
        };
        self.set_slot(handle, SLOT_ID, slot);
        let ghost stored = self@;
        self.leave();
        proof {
            assert(self.scopes() =~= old(self).scopes());
            assert(self@.roots =~= before.roots);
            let address = object@->Heap_0;
            assert forall|a: u64| #[trigger]
                before.objects.contains_key(a) && before.reachable(a) implies rooted@.reachable(
                a,
            ) by {
                assert forall|v: Value| #[trigger] before.is_root(v) implies rooted@.is_root(v) by {
                    if before.roots.contains(v) {
                        let k = before.roots.index_of(v);
                        assert(rooted@.roots[k] == v);
                    }
                }
                heap::lemma_more_roots(before, rooted@, a);
            }
            assert(heap::persists(before, self@)) by {
                assert forall|a: u64| #[trigger]
                    before.objects.contains_key(a) && before.reachable(
                        a,
                    ) implies self@.objects.contains_key(a) && self@.objects[a]
                    == before.objects[a] by {
                    assert(rooted@.objects.contains_key(a) && rooted@.reachable(a));
                    assert(a != address);
                }
            }
            assert(self@.object(object) =~= class_object(
                meta_object(before.classes.table(), kind),
                id,
            ));
            assert forall|a: u64| #[trigger] rooted@.reachable(a) implies before.reachable(a) by {
                assert forall|v: Value| #[trigger] rooted@.is_root(v) implies before.is_root(v) by {
                    if rooted@.roots.contains(v) {
                        let k = rooted@.roots.index_of(v);
                        if k < before.roots.len() {
                            assert(before.roots[k] == v);
                        } else {
                            lemma_class_objects_reachable(before, meta.0 as int);
                        }
                    }
                }
                heap::lemma_more_roots(rooted@, before, a);
            }
            assert(rooted@.collected().objects =~= before.collected().objects);
        }
        id
    }

    /// Define a class. Only `BasicObject` has no superclass.
    pub fn define_class(&mut self, name: Option<&str>, superclass: Option<ClassId>) -> (r: ClassId)
        requires
            old(self).wf(),
            old(self).roomy(),
            old(self)@.classes.table().len() < u32::MAX,
            superclass matches Some(s) ==> old(self)@.classes.has(s),
        ensures
            final(self).wf(),
            final(self).scopes() == old(self).scopes(),
            final(self).room() >= old(self).room() - 1,
            heap::tallied(old(self).inner(), final(self).inner(), Payload::Slots, CLASS_SLOTS),
            !old(self).inner().due() ==> all_kept(
                old(self)@,
                final(self)@,
                final(self)@.classes.table()[r.0 as int].object,
            ),
            defined(
                old(self)@,
                final(self)@,
                r,
                match name {
                    Some(name) => Some(name@),
                    None => None,
                },
                Kind::Class,
                superclass,
                false,
            ),
    {
        self.define(name, Kind::Class, superclass, false)
    }

    /// Define a module, which has no superclass.
    pub fn define_module(&mut self, name: Option<&str>) -> (r: ClassId)
        requires
            old(self).wf(),
            old(self).roomy(),
            old(self)@.classes.table().len() < u32::MAX,
        ensures
            final(self).wf(),
            final(self).scopes() == old(self).scopes(),
            final(self).room() >= old(self).room() - 1,
            heap::tallied(old(self).inner(), final(self).inner(), Payload::Slots, CLASS_SLOTS),
            !old(self).inner().due() ==> all_kept(
                old(self)@,
                final(self)@,
                final(self)@.classes.table()[r.0 as int].object,
            ),
            defined(
                old(self)@,
                final(self)@,
                r,
                match name {
                    Some(name) => Some(name@),
                    None => None,
                },
                Kind::Module,
                None,
                false,
            ),
    {
        self.define(name, Kind::Module, None, false)
    }

    /// How many singleton classes [`HandleScope::singleton_class`] would
    /// define.
    pub fn missing_singletons(&self, id: ClassId) -> (r: usize)
        requires
            self.wf(),
            self@.classes.has(id),
        ensures
            r == missing(self@.classes.table(), id.0 as int),
            r <= id.0 + 1,
    {
        let ghost t = self@.classes.table();
        let mut count: usize = 0;
        let mut cursor: Option<ClassId> = Some(id);
        while cursor.is_some()
            invariant
                self.wf(),
                t == self@.classes.table(),
                cursor matches Some(c) ==> self@.classes.has(c) && c.0 + count <= id.0,
                cursor is None ==> count <= id.0 + 1,
                missing(t, id.0 as int) == count + match cursor {
                    Some(c) => missing(t, c.0 as int),
                    None => 0,
                },
            decreases (match cursor {
                Some(c) => c.0 + 1,
                None => 0,
            }),
        {
            let c = cursor.unwrap();
            assert(class::class_ok(t, c.0 as int));
            let index: usize = c.index();
            if self.classes().singleton(c).is_some() {
                cursor = None;
            } else {
                let bound: usize = id.index();
                count = count + 1;
                cursor = match self.classes().kind(c) {
                    Kind::Module => None,
                    Kind::Class => self.classes().superclass(c),
                };
            }
        }
        count
    }

    /// Define the singleton classes that an entry and its superclasses lack.
    /// The entries that got one are returned, superclasses first.
    fn define_singletons(&mut self, id: ClassId) -> (r: (ClassId, Vec<ClassId>))
        requires
            old(self).wf(),
            old(self)@.classes.has(id),
            old(self)@.classes.has(Builtin::Class.class_id()),
            old(self)@.classes.table()[id.0 as int].singleton is None,
            old(self).room() >= missing(old(self)@.classes.table(), id.0 as int),
            old(self)@.classes.table().len() + missing(old(self)@.classes.table(), id.0 as int)
                <= u32::MAX,
        ensures
            final(self).wf(),
            final(self).scopes() == old(self).scopes(),
            final(self).room() >= old(self).room() - missing(
                old(self)@.classes.table(),
                id.0 as int,
            ),
            singleton_table(
                old(self)@.classes.table(),
                final(self)@.classes.table(),
                id.0 as int,
                r.0,
            ),
            final(self)@.classes.scopes() == old(self)@.classes.scopes(),
            final(self)@.classes.cached() == Map::<u64, Option<Method>>::empty(),
            final(self)@.classes.generation() == old(self)@.classes.generation().wrapping_add(
                missing(old(self)@.classes.table(), id.0 as int) as u64,
            ),
            final(self)@.classes.stamps() == stamped(
                old(self)@.classes.stamps(),
                old(self)@.classes.generation(),
                missing(old(self)@.classes.table(), id.0 as int),
            ),
            forall|i: int| #[trigger]
                class::in_line(old(self)@.classes.table(), id.0 as int, i)
                    && old(self)@.classes.table()[i].singleton is None ==> single_made(
                    old(self)@.classes.table(),
                    final(self)@,
                    i,
                ) && r.1@.contains(ClassId(i as u32)),
            final(self)@.roots == old(self)@.roots,
            final(self)@.definitions == old(self)@.definitions,
            final(self)@.regexps == old(self)@.regexps,
            final(self)@.last_match == old(self)@.last_match,
            final(self)@.symbols == old(self)@.symbols,
            heap::persists(old(self)@, final(self)@),
            r.1@.len() > 0,
            r.1@.last() == id,
            forall|k: int|
                0 <= k < r.1@.len() ==> newly_single(
                    old(self)@.classes.table(),
                    final(self)@.classes.table(),
                    (#[trigger] r.1@[k]).0 as int,
                ),
        decreases id.0,
    {
        let ghost before = self@;
        let ghost t = self@.classes.table();
        assert(class::class_ok(t, id.0 as int));
        let ghost mut middle = self@;
        let mut made: Vec<ClassId> = Vec::new();
        let parent = match self.classes().kind(id) {
            Kind::Module => Builtin::Module.id(),
            Kind::Class => match self.classes().superclass(id) {
                None => Builtin::Class.id(),
                Some(s) => match self.classes().singleton(s) {
                    Some(singleton) => {
                        assert(class::class_ok(t, s.0 as int));
                        assert(missing(t, s.0 as int) == 0);
                        singleton
                    },
                    None => {
                        let (singleton, more) = self.define_singletons(s);
                        made = more;
                        proof {
                            middle = self@;
                            assert(forall|i: int| #[trigger]
                                class::in_line(t, s.0 as int, i) && t[i].singleton is None
                                    ==> single_made(t, middle, i) && made@.contains(
                                    ClassId(i as u32),
                                ));
                        }
                        singleton
                    },
                },
            },
        };
        let ghost u = middle.classes.table();
        proof {
            assert(heap::persists(before, middle));
            if middle == before {
                assert(u =~= t);
            }
            assert(u.len() + 1 == t.len() + missing(t, id.0 as int));
            assert forall|i: int| 0 <= i < t.len() implies #[trigger] kept_entry(
                t,
                u,
                id.0 as int,
                i,
            ) by {
                if middle != before {
                    assert(kept_entry(t, u, (t[id.0 as int].superclass->0).0 as int, i));
                }
            }
            assert(kept_entry(t, u, id.0 as int, id.0 as int));
            assert(u[id.0 as int].singleton is None) by {
                if u[id.0 as int].singleton is Some {
                    lemma_not_in_line(t, (t[id.0 as int].superclass->0).0 as int, id.0 as int);
                    assert(kept_entry(
                        t,
                        u,
                        (t[id.0 as int].superclass->0).0 as int,
                        id.0 as int,
                    ));
                }
            }
        }
        let name: Option<String> = match self.classes().name(id) {
            Some(name) => {
                let mut text: String = "#<Class:".to_owned();
                text.append(name);
                text.append(">");
                Some(text)
            },
            None => None,
        };
        let borrowed: Option<&str> = match &name {
            Some(text) => Some(text.as_str()),
            None => None,
        };
        let singleton = self.define(borrowed, Kind::Class, Some(parent), true);
        let ghost newer = self@;
        let ghost w = self@.classes.table();
        let ghost more = made@;
        proof {
            assert(class::singleton_parent(w, id.0 as int) == Some(parent)) by {
                assert(kept_entry(t, u, id.0 as int, id.0 as int));
                if let Some(s) = t[id.0 as int].superclass {
                    assert(kept_entry(t, u, id.0 as int, s.0 as int));
                }
            }
        }
        self.classes_mut().set_singleton(id, singleton);
        made.push(id);
        proof {
            let now = self@.classes.table();
            assert forall|v: Value| #[trigger] class::is_class_root(now, v) implies newer.live(
                v,
            ) by {
                let j = choose|j: int| 0 <= j < now.len() && class::is_entry_root(
                    #[trigger] now[j],
                    v,
                );
                assert(class::is_entry_root(w[j], v));
                assert(class::is_class_root(w, v));
                assert(newer.is_root(v));
            }
            assert(newer.keeps_classes(self@.classes));
            assert forall|i: int| 0 <= i < t.len() implies #[trigger] kept_entry(
                t,
                now,
                id.0 as int,
                i,
            ) by {
                assert(kept_entry(t, u, id.0 as int, i));
                if i != id.0 {
                    assert(now[i] == u[i]);
                }
            }
            assert(heap::persists(before, newer)) by {
                assert forall|v: Value| #[trigger] before.is_root(v) implies middle.is_root(v) by {
                    if class::is_class_root(t, v) {
                        let j = choose|j: int| 0 <= j < t.len() && class::is_entry_root(
                            #[trigger] t[j],
                            v,
                        );
                        assert(kept_entry(t, u, id.0 as int, j));
                        assert(class::is_entry_root(u[j], v));
                    }
                }
                heap::lemma_persists_trans(before, middle, newer);
            }
            assert forall|k: int| 0 <= k < made@.len() implies newly_single(
                t,
                now,
                (#[trigger] made@[k]).0 as int,
            ) by {
                if k < made@.len() - 1 {
                    assert(newly_single(t, u, made@[k].0 as int));
                }
            }
            assert(class::singleton_parent(now, id.0 as int) == Some(parent)) by {
                assert(kept_entry(t, u, id.0 as int, id.0 as int));
                if let Some(s) = t[id.0 as int].superclass {
                    assert(kept_entry(t, u, id.0 as int, s.0 as int));
                    assert(now[s.0 as int] == u[s.0 as int]);
                }
            }
            assert(now.len() == t.len() + missing(t, id.0 as int));
            assert(now[id.0 as int].singleton == Some(singleton));
            assert(now[singleton.0 as int] == w[singleton.0 as int]);
            assert(now[singleton.0 as int].name == singleton_name(t[id.0 as int].name));
            let lacking = missing(t, id.0 as int);
            assert(middle.classes.stamps() =~= stamped(
                before.classes.stamps(),
                before.classes.generation(),
                (lacking - 1) as nat,
            ));
            assert(self@.classes.stamps() =~= stamped(
                before.classes.stamps(),
                before.classes.generation(),
                lacking,
            ));
            assert(kept_entry(t, u, id.0 as int, Builtin::Class.rank()));
            assert(meta_object(u, Kind::Class) == meta_object(t, Kind::Class));
            assert forall|i: int| #[trigger]
                class::in_line(t, id.0 as int, i) && t[i].singleton is None implies single_made(
                t,
                self@,
                i,
            ) && made@.contains(ClassId(i as u32)) by {
                if i == id.0 {
                    assert(made@[made@.len() - 1] == ClassId(i as u32));
                } else {
                    let s = (t[id.0 as int].superclass->0).0 as int;
                    lemma_in_line(t, s, i);
                    if t[s].singleton is Some {
                        lemma_line_has_singletons(t, s, i);
                    }
                    assert(class::in_line(t, s, i));
                    assert(single_made(t, middle, i));
                    let k = more.index_of(ClassId(i as u32));
                    assert(made@[k] == ClassId(i as u32));
                    let single = u[i].singleton->0;
                    lemma_class_objects_reachable(middle, single.0 as int);
                    let a = u[single.0 as int].object@->Heap_0;
                    assert(middle.objects.contains_key(a) && middle.reachable(a));
                    assert(now[single.0 as int] == u[single.0 as int]);
                    assert(now[i] == u[i]);
                    assert(class::class_ok(u, i));
                    assert(kept_entry(t, u, id.0 as int, i));
                    assert(class::singleton_parent(now, i) == class::singleton_parent(u, i));
                }
            }
        }
        (singleton, made)
    }

    /// The singleton class of a class or module, defined on the first ask,
    /// with those of its superclasses.
    pub fn singleton_class(&mut self, id: ClassId) -> (r: ClassId)
        requires
            old(self).wf(),
            old(self)@.classes.has(id),
            old(self)@.classes.has(Builtin::Class.class_id()),
            old(self).room() >= missing(old(self)@.classes.table(), id.0 as int),
            old(self)@.classes.table().len() + missing(old(self)@.classes.table(), id.0 as int)
                <= u32::MAX,
        ensures
            final(self).wf(),
            final(self).scopes() == old(self).scopes(),
            final(self).room() >= old(self).room() - missing(
                old(self)@.classes.table(),
                id.0 as int,
            ),
            match old(self)@.classes.table()[id.0 as int].singleton {
                Some(singleton) => r == singleton && final(self)@ == old(self)@,
                None => singled(old(self)@, final(self)@, id, r),
            },
    {
        if let Some(singleton) = self.classes().singleton(id) {
            return singleton;
        }
        let ghost before = self@;
        let ghost t = self@.classes.table();
        let (singleton, made) = self.define_singletons(id);
        let ghost after = self@;
        let ghost now = self@.classes.table();
        let mut k: usize = 0;
        while k < made.len()
            invariant
                self.wf(),
                k <= made.len(),
                before.sound(),
                before.classes.wf(),
                after.sound(),
                after.classes.wf(),
                t == before.classes.table(),
                now == after.classes.table(),
                t.len() <= now.len(),
                heap::persists(before, after),
                forall|i: int| 0 <= i < t.len() ==> #[trigger] kept_entry(t, now, id.0 as int, i),
                made@.len() > 0,
                made@.last() == id,
                now[id.0 as int].singleton == Some(singleton),
                self@ == (HeapModel { objects: self@.objects, ..after }),
                self.scopes() == old(self).scopes(),
                self.room() >= old(self).room() - missing(t, id.0 as int),
                forall|j: int|
                    0 <= j < made@.len() ==> newly_single(t, now, (#[trigger] made@[j]).0 as int),
                forall|a: u64| #[trigger]
                    after.objects.contains_key(a) ==> {
                        &&& self@.objects.contains_key(a)
                        &&& self@.objects[a] == (Object {
                            class: self@.objects[a].class,
                            ..after.objects[a]
                        })
                        &&& !reheaded(t, now, a) ==> self@.objects[a] == after.objects[a]
                    },
                forall|j: int| 0 <= j < k ==> headed(self@, (#[trigger] made@[j]).0 as int),
            decreases made.len() - k,
        {
            let c = made[k];
            assert(newly_single(t, now, made@[k as int].0 as int));
            assert(kept_entry(t, now, id.0 as int, c.0 as int));
            let object = self.classes().object(c);
            if let Some(meta) = self.classes().singleton(c) {
                proof {
                    lemma_class_objects_reachable(self@, c.0 as int);
                    assert(class::class_ok(now, c.0 as int));
                    lemma_class_objects_reachable(self@, meta.0 as int);
                    lemma_class_objects_reachable(after, c.0 as int);
                    assert(reheaded(t, now, object@->Heap_0));
                }
                let target = self.classes().object(meta);
                let ghost earlier = self@;
                self.set_header(object, target);
                proof {
                    assert forall|j: int| 0 <= j < k + 1 implies headed(
                        self@,
                        (#[trigger] made@[j]).0 as int,
                    ) by {
                        let d = made@[j];
                        assert(newly_single(t, now, d.0 as int));
                        if d != c {
                            assert(headed(earlier, d.0 as int));
                            if d.0 < c.0 {
                                assert(class::apart(now, d.0 as int, c.0 as int));
                            } else {
                                assert(class::apart(now, c.0 as int, d.0 as int));
                            }
                        }
                    }
                }
            }
            k += 1;
        }
        proof {
            assert(headed(self@, id.0 as int)) by {
                assert(made@[made@.len() - 1] == id);
            }
            assert forall|i: int| #[trigger]
                class::in_line(t, id.0 as int, i) && t[i].singleton is None implies single_made(
                t,
                self@,
                i,
            ) && headed(self@, i) by {
                lemma_in_line(t, id.0 as int, i);
                let j = made@.index_of(ClassId(i as u32));
                assert(made@[j] == ClassId(i as u32));
                assert(single_made(t, after, i));
                let s = now[i].singleton->0;
                let a = now[s.0 as int].object@->Heap_0;
                if reheaded(t, now, a) {
                    let x = choose|x: int| #[trigger]
                        newly_single(t, now, x) && t[x].object@ == Unpacked::Heap(a);
                    assert(kept_entry(t, now, id.0 as int, x));
                    assert(class::apart(now, x, s.0 as int));
                }
                assert(after.objects.contains_key(a));
            }
            lemma_class_objects_reachable(before, id.0 as int);
            assert(kept_entry(t, now, id.0 as int, id.0 as int));
            let a = t[id.0 as int].object@->Heap_0;
            assert(before.objects.contains_key(a) && before.reachable(a));
        }
        singleton
    }

    /// The singleton class of an object, defined on the first ask: it becomes
    /// the object's class, and inherits from the class it replaces.
    pub fn singleton_class_of(&mut self, handle: Handle) -> (r: ClassId)
        requires
            old(self).wf(),
            old(self).roomy(),
            old(self)@.classes.table().len() < u32::MAX,
            old(self).holds_object(handle),
            class_in(old(self)@, old(self).at(handle)) is Some,
        ensures
            final(self).wf(),
            final(self).scopes() == old(self).scopes(),
            final(self).room() >= old(self).room() - 1,
            singleton_of_object(old(self)@, final(self)@, old(self).at(handle), r),
    {
        let value = self.get(handle);
        proof {
            assert(self@.roots[handle.place()] == value);
            assert(self@.is_root(value));
        }
        let class = match self.class_of(handle) {
            Some(class) => class,
            None => ClassId(0),
        };
        assert(class.0 < self@.classes.table().len());
        if self.classes().is_singleton(class) {
            return class;
        }
        let ghost before = self@;
        let singleton = self.define(None, Kind::Class, Some(class), true);
        let object = self.classes().object(singleton);
        proof {
            heap::law_roots_are_reachable(before, value, value@->Heap_0);
            lemma_class_objects_reachable(self@, singleton.0 as int);
            assert(before.objects.contains_key(value@->Heap_0) && before.reachable(
                value@->Heap_0,
            ));
        }
        self.set_class(handle, object);
        singleton
    }

    /// The class table entry an object is, if it is a class or module.
    pub fn class_id_of(&self, handle: Handle) -> (r: Option<ClassId>)
        requires
            self.wf(),
            self.holds_object(handle),
        ensures
            r == class_id_in(self@, self.at(handle)),
    {
        let value = self.get(handle);
        self.class_id_of_value(value)
    }

    /// The class table entry an object is, if it is a class or module.
    pub fn class_id_of_value(&self, value: Value) -> (r: Option<ClassId>)
        requires
            self.wf(),
            self@.has_object(value),
        ensures
            r == class_id_in(self@, value),
            r matches Some(id) ==> self@.classes.has(id),
    {
        if self.payload_of(value) != Payload::Slots || self.len_of(value) != 1 {
            return None;
        }
        let slot = match self.slot_of(value, SLOT_ID) {
            Some(slot) => slot,
            None => {
                return None;
            },
        };
        match slot.as_fixnum() {
            Some(n) => {
                let total: usize = self.classes().len();
                if n >= 0 && (n as u64) < (total as u64) && n <= u32::MAX as i64 {
                    let id = ClassId(n as u32);
                    if self.classes().object(id) == value {
                        Some(id)
                    } else {
                        None
                    }
                } else {
                    None
                }
            },
            None => None,
        }
    }

    /// The class table entry an object is an instance of; `None` for an
    /// object without a class, and for an immediate, which has no header.
    pub fn class_of(&self, handle: Handle) -> (r: Option<ClassId>)
        requires
            self.wf(),
            self.holds(handle),
        ensures
            r == if self.at(handle)@ is Heap {
                class_in(self@, self.at(handle))
            } else {
                None
            },
            r matches Some(id) ==> self@.classes.has(id),
    {
        let value = self.get(handle);
        if value.is_immediate() {
            return None;
        }
        self.class_of_value(value)
    }

    /// The class table entry an object is an instance of; `None` for an
    /// object without a class.
    pub fn class_of_value(&self, value: Value) -> (r: Option<ClassId>)
        requires
            self.wf(),
            self@.has_object(value),
        ensures
            r == class_in(self@, value),
            r matches Some(id) ==> self@.classes.has(id),
    {
        let class = match self.header_of(value) {
            Some(class) => class,
            None => {
                return None;
            },
        };
        if class.is_immediate() {
            return None;
        }
        let slot = match self.slot_of(class, SLOT_ID) {
            Some(slot) => slot,
            None => {
                return None;
            },
        };
        match slot.as_fixnum() {
            Some(n) => {
                let total: usize = self.classes().len();
                if n >= 0 && (n as u64) < (total as u64) && n <= u32::MAX as i64 {
                    Some(ClassId(n as u32))
                } else {
                    None
                }
            },
            None => None,
        }
    }
}

} // verus!
