//! Method bodies: compiled code, and the operations Ruby cannot define in
//! Ruby.
//!
//! A body is known by its place in a table, which the method tables hold as a
//! fixnum. Redefining a method adds a body and leaves the old one in place, so
//! a frame that is running it is not disturbed.

use std::collections::HashMap;
use std::sync::Arc;

use vstd::prelude::*;

use crate::bytecode;
use crate::bytecode::Iseq;
use crate::value::{Unpacked, Value};

verus! {

broadcast use {vstd::std_specs::hash::group_hash_axioms, Value::law_pack};

/// An operation the interpreter performs itself.
#[derive(Debug, Clone, Copy, PartialEq, Eq, Structural)]
pub enum Native {
    /// `Proc#call`
    Call,
    /// `Kernel#send`
    Send,
    /// `Kernel#proc` and `Kernel#lambda`
    MakeProc { lambda: bool },
    /// `Proc#lambda?`
    IsLambda,
    /// `Proc#arity`
    Arity,
    /// `Kernel#block_given?`
    BlockGiven,
    /// `Kernel#class`
    ClassOf,
    /// `Class#new`
    New,
    /// `Kernel#equal?`
    Equal,
    /// `Array#+`
    ArrayPlus,
    /// Reads a slot of the receiver.
    Getter(u16),
    /// Writes a slot of the receiver.
    Setter(u16),
    /// `Kernel#raise`
    Raise,
    /// `Kernel#throw`
    Throw,
    /// `Kernel#catch`
    Catch,
    /// `Exception#message`
    ExceptionMessage,
    /// `Exception#backtrace`
    ExceptionBacktrace,
    /// `Kernel#nil?`
    NilP,
}

/// A method body.
#[derive(Debug)]
pub enum Definition {
    Iseq(Arc<Iseq>),
    Native(Native),
}

impl Definition {
    /// The same body.
    pub fn same(&self) -> (r: Definition)
        ensures
            r == *self,
    {
        match self {
            Definition::Iseq(iseq) => Definition::Iseq(bytecode::share(iseq)),
            Definition::Native(native) => Definition::Native(*native),
        }
    }
}

/// How many bodies a table holds at most: a body is known by a Fixnum.
pub const MAX_DEFINITIONS: u64 = 0x4000_0000_0000_0000;

/// Whether two pointers are to one unit: `Arc::ptr_eq`, which says so of
/// pointers to one allocation, and what they point to is then the same. Of
/// pointers to two allocations nothing is said.
#[verifier::external_body]
fn one_unit(a: &Arc<Iseq>, b: &Arc<Iseq>) -> (r: bool)
    ensures
        r ==> **a == **b,
{
    Arc::ptr_eq(a, b)
}

/// The body table.
pub struct Definitions {
    entries: Vec<Definition>,
    /// The bodies known by a key of the caller's.
    interned: HashMap<usize, Value>,
    /// The bodies nested in another, by its place and theirs.
    nested: HashMap<u128, usize>,
}

/// The value a body is known by.
pub open spec fn body_value(index: int) -> Value {
    Value::pack(Unpacked::Fixnum(index as i64))
}

/// What [`Definitions`] files a nested body under.
pub open spec fn nested_key(parent: int, child: int) -> u128 {
    (parent * 0x1_0000_0000 + child) as u128
}

impl Definitions {
    /// The bodies.
    pub closed spec fn all(&self) -> Seq<Definition> {
        self.entries@
    }

    /// The bodies interned under a key.
    pub closed spec fn keyed(&self) -> Map<usize, Value> {
        self.interned@
    }

    /// The bodies interned as a child of another.
    pub closed spec fn children(&self) -> Map<u128, usize> {
        self.nested@
    }

    /// The body that code at `parent` has as its child, where it is interned.
    spec fn nested_ok(&self, parent: int, child: int) -> bool {
        self.nested@.contains_key(nested_key(parent, child)) ==> {
            let at = self.nested@[nested_key(parent, child)] as int;
            &&& at < self.entries@.len()
            &&& self.entries@[parent] matches Definition::Iseq(outer) && child
                < outer.children@.len() && self.entries@[at] == Definition::Iseq(
                outer.children@[child],
            )
        }
    }

    /// Places fit, and an interned child is the child it is filed as.
    pub closed spec fn wf(&self) -> bool {
        &&& self.entries@.len() <= MAX_DEFINITIONS
        &&& forall|parent: int, child: int|
            0 <= parent < self.entries@.len() && 0 <= child <= u32::MAX
                ==> #[trigger] self.nested_ok(parent, child)
        &&& forall|key: u128| #[trigger]
            self.nested@.contains_key(key) ==> key < self.entries@.len() * 0x1_0000_0000
    }

    /// Every place in a table fits one.
    pub proof fn law_places(&self)
        requires
            self.wf(),
        ensures
            self.all().len() <= MAX_DEFINITIONS,
    {
    }

    /// An empty table.
    pub fn new() -> (r: Definitions)
        ensures
            r.wf(),
            r.all() == Seq::<Definition>::empty(),
            r.keyed() == Map::<usize, Value>::empty(),
            r.children() == Map::<u128, usize>::empty(),
    {
        Definitions { entries: Vec::new(), interned: HashMap::new(), nested: HashMap::new() }
    }

    /// Whether another body fits.
    pub fn has_room(&self) -> (r: bool)
        ensures
            r == (self.all().len() < MAX_DEFINITIONS),
    {
        (self.entries.len() as u64) < MAX_DEFINITIONS
    }

    /// The body known by `key`, added on the first ask.
    pub fn intern_iseq(&mut self, iseq: &Arc<Iseq>, key: usize) -> (r: Value)
        requires
            old(self).wf(),
            old(self).all().len() < MAX_DEFINITIONS,
        ensures
            final(self).wf(),
            old(self).keyed().contains_key(key) ==> r == old(self).keyed()[key] && *final(self)
                == *old(self),
            !old(self).keyed().contains_key(key) ==> {
                &&& r == body_value(old(self).all().len() as int)
                &&& final(self).all() == old(self).all().push(Definition::Iseq(*iseq))
                &&& final(self).keyed() == old(self).keyed().insert(key, r)
                &&& final(self).children() == old(self).children()
            },
    {
        if let Some(body) = self.interned.get(&key) {
            return *body;
        }
        let body = self.add(Definition::Iseq(bytecode::share(iseq)));
        self.interned.insert(key, body);
        proof {
            assert forall|parent: int, child: int|
                0 <= parent < self.entries@.len() && 0 <= child
                    <= u32::MAX implies #[trigger] self.nested_ok(parent, child) by {
                assert(self.entries@.len() == old(self).entries@.len() + 1);
                if parent < old(self).entries@.len() {
                    assert(old(self).nested_ok(parent, child));
                }
            }
        }
        body
    }

    /// Add a body.
    pub fn add(&mut self, definition: Definition) -> (r: Value)
        requires
            old(self).wf(),
            old(self).all().len() < MAX_DEFINITIONS,
        ensures
            final(self).wf(),
            r == body_value(old(self).all().len() as int),
            final(self).all() == old(self).all().push(definition),
            final(self).keyed() == old(self).keyed(),
            final(self).children() == old(self).children(),
    {
        let id: usize = self.entries.len();
        self.entries.push(definition);
        proof {
            let n = old(self).entries@.len() as int;
            assert forall|parent: int, child: int|
                0 <= parent < self.entries@.len() && 0 <= child
                    <= u32::MAX implies #[trigger] self.nested_ok(parent, child) by {
                if parent < n {
                    assert(old(self).nested_ok(parent, child));
                } else {
                    assert(nested_key(parent, child) >= n * 0x1_0000_0000);
                }
            }
        }
        match Value::fixnum(id as i64) {
            Some(value) => value,
            None => Value::nil(),
        }
    }

    /// The place of the body that the code at `parent` has as its `child`,
    /// added on the first ask.
    pub fn intern_child(&mut self, parent: usize, child: u32) -> (r: usize)
        requires
            old(self).wf(),
            old(self).all().len() < MAX_DEFINITIONS,
            parent < old(self).all().len(),
            old(self).all()[parent as int] matches Definition::Iseq(outer) && child
                < outer.children@.len(),
        ensures
            final(self).wf(),
            r < final(self).all().len(),
            final(self).all()[r as int] == Definition::Iseq(
                old(self).all()[parent as int]->Iseq_0.children@[child as int],
            ),
            final(self).keyed() == old(self).keyed(),
            ({
                let key = nested_key(parent as int, child as int);
                if old(self).children().contains_key(key) {
                    r == old(self).children()[key] && *final(self) == *old(self)
                } else {
                    &&& r == old(self).all().len()
                    &&& final(self).all() == old(self).all().push(
                        Definition::Iseq(
                            old(self).all()[parent as int]->Iseq_0.children@[child as int],
                        ),
                    )
                    &&& final(self).children() == old(self).children().insert(key, r)
                }
            }),
    {
        let key: u128 = (parent as u128) * 0x1_0000_0000 + (child as u128);
        assert(key == nested_key(parent as int, child as int));
        assert(self.nested_ok(parent as int, child as int));
        if let Some(at) = self.nested.get(&key) {
            return *at;
        }
        let body = match &self.entries[parent] {
            Definition::Iseq(outer) => Definition::Iseq(
                bytecode::share(&outer.children[child as usize]),
            ),
            Definition::Native(native) => Definition::Native(*native),
        };
        let at: usize = self.entries.len();
        self.entries.push(body);
        self.nested.insert(key, at);
        proof {
            let n = old(self).entries@.len() as int;
            assert forall|p: int, c: int|
                0 <= p < self.entries@.len() && 0 <= c <= u32::MAX implies #[trigger] self.nested_ok(
                p,
                c,
            ) by {
                if p < n {
                    assert(old(self).nested_ok(p, c));
                    if nested_key(p, c) == key {
                        assert(p * 0x1_0000_0000 + c == parent * 0x1_0000_0000 + child);
                        assert(p == parent && c == child);
                    }
                } else {
                    assert(nested_key(p, c) >= n * 0x1_0000_0000);
                    assert(!old(self).nested@.contains_key(nested_key(p, c)));
                }
            }
        }
        at
    }

    /// Where the table holds a unit, told by where the unit itself is: a copy
    /// of it elsewhere is another unit.
    fn find_unit(&self, iseq: &Arc<Iseq>) -> (r: Option<usize>)
        ensures
            r matches Some(at) ==> self.holds_unit(at as int, **iseq),
    {
        let mut i: usize = 0;
        while i < self.entries.len()
            invariant
                i <= self.entries@.len(),
            decreases self.entries@.len() - i,
        {
            if let Definition::Iseq(known) = &self.entries[i] {
                if one_unit(known, iseq) {
                    return Some(i);
                }
            }
            i += 1;
        }
        None
    }

    /// Whether the body at a place is this code.
    pub open spec fn holds_unit(&self, at: int, iseq: Iseq) -> bool {
        0 <= at < self.all().len() && (self.all()[at] matches Definition::Iseq(code) && *code
            == iseq)
    }

    /// The place of a unit: where it is known to be, or at the end.
    pub fn hold_at(&mut self, iseq: &Arc<Iseq>, known: Option<usize>) -> (r: usize)
        requires
            old(self).wf(),
            old(self).all().len() < MAX_DEFINITIONS,
            known matches Some(at) ==> old(self).holds_unit(at as int, **iseq),
        ensures
            final(self).wf(),
            final(self).holds_unit(r as int, **iseq),
            match known {
                Some(at) => r == at && *final(self) == *old(self),
                None => {
                    &&& r == old(self).all().len()
                    &&& final(self).all() == old(self).all().push(Definition::Iseq(*iseq))
                    &&& final(self).keyed() == old(self).keyed()
                    &&& final(self).children() == old(self).children()
                },
            },
    {
        if let Some(at) = known {
            return at;
        }
        let at: usize = self.entries.len();
        self.add(Definition::Iseq(bytecode::share(iseq)));
        at
    }

    /// The place of a unit: where the table holds that very unit it stays
    /// there, and otherwise it goes to the end.
    pub fn hold(&mut self, iseq: &Arc<Iseq>) -> (r: usize)
        requires
            old(self).wf(),
            old(self).all().len() < MAX_DEFINITIONS,
        ensures
            final(self).wf(),
            final(self).keyed() == old(self).keyed(),
            final(self).children() == old(self).children(),
            unit_held(old(self).all(), final(self).all(), **iseq, r as int),
    {
        let known = self.find_unit(iseq);
        self.hold_at(iseq, known)
    }

    /// The body a value stands for.
    pub fn get(&self, body: Value) -> (r: Option<&Definition>)
        ensures
            match r {
                Some(definition) => body@ matches Unpacked::Fixnum(n) && 0 <= n < self.all().len()
                    && *definition == self.all()[n as int],
                None => !(body@ matches Unpacked::Fixnum(n) && 0 <= n < self.all().len()),
            },
    {
        match body.as_fixnum() {
            Some(n) => if n >= 0 && (n as u64) < (self.entries.len() as u64) {
                Some(&self.entries[n as usize])
            } else {
                None
            },
            None => None,
        }
    }

    /// How many bodies there are.
    pub fn len(&self) -> (r: usize)
        ensures
            r == self.all().len(),
    {
        self.entries.len()
    }

    /// Whether there are none.
    pub fn is_empty(&self) -> (r: bool)
        ensures
            r == (self.all().len() == 0),
    {
        self.entries.len() == 0
    }
}

impl Default for Definitions {
    fn default() -> (r: Definitions)
        ensures
            r.wf(),
            r.all() == Seq::<Definition>::empty(),
            r.keyed() == Map::<usize, Value>::empty(),
            r.children() == Map::<u128, usize>::empty(),
    {
        Definitions::new()
    }
}

/// What holding a unit does to the bodies: nothing where it is among them, and
/// otherwise it is put at the end.
pub open spec fn unit_held(
    before: Seq<Definition>,
    after: Seq<Definition>,
    iseq: Iseq,
    place: int,
) -> bool {
    &&& after[place] matches Definition::Iseq(code) && *code == iseq
    &&& {
        ||| after == before && 0 <= place < before.len()
        ||| after == before.push(after[place]) && place == before.len()
    }
}

/// A definition is found by the value that adding it answered, also after
/// more were added.
pub proof fn law_a_body_stays_reachable(
    before: Seq<Definition>,
    definition: Definition,
    later: Seq<Definition>,
)
    requires
        before.len() < MAX_DEFINITIONS,
        before.push(definition).is_prefix_of(later),
    ensures
        body_value(before.len() as int)@ == Unpacked::Fixnum(before.len() as i64),
        later[before.len() as int] == definition,
{
    assert(before.push(definition)[before.len() as int] == definition);
}

} // verus!
