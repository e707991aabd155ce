//! Inline caches: what each call site last resolved to.
//!
//! A unit of code is shared between heaps, and what a call resolves to is a
//! matter of one heap. So the caches stand beside the code, one table for each
//! heap, and every unit has a run of slots in it, one for each call site.

use std::collections::HashMap;
use std::sync::Arc;

use vstd::prelude::*;

use crate::bytecode;
use crate::bytecode::Iseq;
use crate::class::{ClassId, Method};

verus! {

/// What one call site last resolved to, and what has to hold still for it to
/// be used again.
#[derive(Debug, Clone, Copy, PartialEq, Eq, Structural)]
pub struct Entry {
    /// The receiver's class.
    pub class: ClassId,
    /// The class table's serial.
    pub serial: u64,
    pub method: Method,
}

/// The slots of one unit.
#[derive(Debug, Clone, Copy, PartialEq, Eq, Structural)]
pub struct Run {
    pub base: u32,
    pub len: usize,
}

/// The inline caches of a heap.
pub struct CallCaches {
    entries: Vec<Option<Entry>>,
    runs: HashMap<usize, Run>,
    iseqs: Vec<Arc<Iseq>>,
}

/// How many slots have something in them.
pub open spec fn count_filled(slots: Seq<Option<Entry>>) -> nat
    decreases slots.len(),
{
    if slots.len() == 0 {
        0
    } else {
        count_filled(slots.drop_last()) + if slots.last() is Some {
            1nat
        } else {
            0nat
        }
    }
}

/// What a slot answers: the method, where the class and the serial are those
/// it was filled for.
pub open spec fn answer(slot: Option<Entry>, class: ClassId, serial: u64) -> Option<Method> {
    match slot {
        Some(entry) => if entry.class == class && entry.serial == serial {
            Some(entry.method)
        } else {
            None
        },
        None => None,
    }
}

impl CallCaches {
    /// The slots of all runs.
    pub closed spec fn slots(&self) -> Seq<Option<Entry>> {
        self.entries@
    }

    /// The run of each unit, by the unit's key.
    pub closed spec fn run_of(&self) -> Map<usize, Run> {
        self.runs@
    }

    /// The units that have a run.
    pub closed spec fn kept(&self) -> Seq<Arc<Iseq>> {
        self.iseqs@
    }

    /// Every run is inside the table, and no two share a slot.
    pub open spec fn wf(&self) -> bool {
        &&& forall|key: usize| #[trigger]
            self.run_of().contains_key(key) ==> self.run_of()[key].base + self.run_of()[key].len
                <= self.slots().len()
        &&& forall|a: usize, b: usize|
            #![trigger self.run_of().contains_key(a), self.run_of().contains_key(b)]
            self.run_of().contains_key(a) && self.run_of().contains_key(b) && a != b ==> {
                ||| self.run_of()[a].base + self.run_of()[a].len <= self.run_of()[b].base
                ||| self.run_of()[b].base + self.run_of()[b].len <= self.run_of()[a].base
            }
    }

    /// No runs.
    pub fn new() -> (r: CallCaches)
        ensures
            r.wf(),
            r.slots() == Seq::<Option<Entry>>::empty(),
            r.run_of() == Map::<usize, Run>::empty(),
            r.kept() == Seq::<Arc<Iseq>>::empty(),
    {
        CallCaches { entries: Vec::new(), runs: HashMap::new(), iseqs: Vec::new() }
    }

    /// The first slot of the run of the unit known by `key`, made of empty
    /// slots on the first ask. A unit with a run is kept alive, so that its
    /// key stays its own.
    pub fn base(&mut self, iseq: &Arc<Iseq>, key: usize) -> (r: u32)
        requires
            old(self).wf(),
            old(self).run_of().contains_key(key) || old(self).slots().len() <= u32::MAX,
        ensures
            final(self).wf(),
            final(self).run_of().contains_key(key),
            r == final(self).run_of()[key].base,
            old(self).run_of().contains_key(key) ==> *final(self) == *old(self),
            !old(self).run_of().contains_key(key) ==> {
                &&& r == old(self).slots().len()
                &&& final(self).slots() == old(self).slots() + Seq::new(
                    iseq.call_sites@.len(),
                    |i: int| None,
                )
                &&& final(self).run_of() == old(self).run_of().insert(
                    key,
                    (Run { base: r, len: iseq.call_sites@.len() as usize }),
                )
                &&& final(self).kept() == old(self).kept().push(*iseq)
            },
    {
        if let Some(run) = self.runs.get(&key) {
            return run.base;
        }
        let base: u32 = self.entries.len() as u32;
        let len: usize = iseq.call_sites.len();
        let mut i: usize = 0;
        while i < len
            invariant
                i <= len,
                self.entries@ == old(self).entries@ + Seq::new(i as nat, |k: int| None),
                self.runs == old(self).runs,
                self.iseqs == old(self).iseqs,
            decreases len - i,
        {
            self.entries.push(None);
            i += 1;
            assert(self.entries@ =~= old(self).entries@ + Seq::new(i as nat, |k: int| None));
        }
        self.runs.insert(key, Run { base, len });
        self.iseqs.push(bytecode::share(iseq));
        base
    }

    /// What a slot resolved to, if it was for this very class and nothing has
    /// moved since.
    pub fn get(&self, slot: u32, class: ClassId, serial: u64) -> (r: Option<Method>)
        requires
            slot < self.slots().len(),
        ensures
            r == answer(self.slots()[slot as int], class, serial),
    {
        match self.entries[slot as usize] {
            Some(entry) => if entry.class == class && entry.serial == serial {
                Some(entry.method)
            } else {
                None
            },
            None => None,
        }
    }

    /// Remember what a lookup answered. A slot remembers one class: another
    /// takes its place.
    pub fn fill(&mut self, slot: u32, class: ClassId, serial: u64, method: Method)
        requires
            old(self).wf(),
            slot < old(self).slots().len(),
        ensures
            final(self).wf(),
            final(self).slots() == old(self).slots().update(
                slot as int,
                Some(Entry { class, serial, method }),
            ),
            final(self).run_of() == old(self).run_of(),
            final(self).kept() == old(self).kept(),
    {
        self.entries.set(slot as usize, Some(Entry { class, serial, method }));
        assert(self.run_of() == old(self).run_of());
        assert(self.slots().len() == old(self).slots().len());
    }

    /// How many slots have something in them.
    pub fn filled(&self) -> (r: usize)
        ensures
            r == count_filled(self.slots()),
    {
        let mut n: usize = 0;
        let mut i: usize = 0;
        while i < self.entries.len()
            invariant
                i <= self.entries.len(),
                n <= i,
                n == count_filled(self.entries@.take(i as int)),
            decreases self.entries.len() - i,
        {
            assert(self.entries@.take(i + 1).drop_last() =~= self.entries@.take(i as int));
            if self.entries[i].is_some() {
                n += 1;
            }
            i += 1;
        }
        assert(self.entries@.take(i as int) =~= self.entries@);
        n
    }

    /// How many slots there are.
    pub fn len(&self) -> (r: usize)
        ensures
            r == self.slots().len(),
    {
        self.entries.len()
    }

    /// Whether there are none.
    pub fn is_empty(&self) -> (r: bool)
        ensures
            r == (self.slots().len() == 0),
    {
        self.entries.len() == 0
    }
}

impl Default for CallCaches {
    fn default() -> (r: CallCaches)
        ensures
            r.wf(),
            r.slots() == Seq::<Option<Entry>>::empty(),
            r.run_of() == Map::<usize, Run>::empty(),
            r.kept() == Seq::<Arc<Iseq>>::empty(),
    {
        CallCaches::new()
    }
}

/// A slot answers what it was filled with, to the class and serial it was
/// filled for, and nothing to any other.
pub proof fn law_a_slot_answers_what_filled_it(
    class: ClassId,
    serial: u64,
    method: Method,
    other: ClassId,
    later: u64,
)
    ensures
        answer(Some(Entry { class, serial, method }), class, serial) == Some(method),
        other != class || later != serial ==> answer(
            Some(Entry { class, serial, method }),
            other,
            later,
        ) is None,
{
}

} // verus!
