//! The symbol table: a [`SymbolId`] for each name, and the name of each id.
//!
//! A table only grows. An id is the position its name was interned at, so it
//! keeps meaning the same name for as long as the table lives.

use std::collections::HashMap;

use vstd::prelude::*;

use crate::value::SymbolId;

verus! {

broadcast use vstd::std_specs::hash::group_hash_axioms;

/// Interned names.
pub struct Symbols {
    names: Vec<String>,
    /// The ids of the names with each hash, so that interning a known name
    /// reads a handful of names rather than all of them.
    index: HashMap<u64, Vec<u32>>,
}

/// A hash of the first `n` bytes of a name.
spec fn hash_prefix(bytes: Seq<u8>, n: int) -> u64
    decreases n,
{
    if n <= 0 {
        0xcbf2_9ce4_8422_2325
    } else {
        (hash_prefix(bytes, n - 1) ^ (bytes[n - 1] as u64)).wrapping_mul(0x100_0000_01b3)
    }
}

/// The hash [`Symbols`] files a name under.
spec fn name_hash(name: Seq<char>) -> u64 {
    let bytes = vstd::utf8::encode_utf8(name);
    hash_prefix(bytes, bytes.len() as int)
}

fn hash_of(name: &str) -> (r: u64)
    ensures
        r == name_hash(name@),
{
    let bytes = name.as_bytes();
    let mut hash: u64 = 0xcbf2_9ce4_8422_2325;
    let mut i: usize = 0;
    while i < bytes.len()
        invariant
            i <= bytes.len(),
            hash == hash_prefix(bytes@, i as int),
        decreases bytes.len() - i,
    {
        hash = (hash ^ (bytes[i] as u64)).wrapping_mul(0x100_0000_01b3);
        i += 1;
    }
    hash
}

impl View for Symbols {
    type V = Seq<Seq<char>>;

    closed spec fn view(&self) -> Seq<Seq<char>> {
        Seq::new(self.names@.len(), |i: int| self.names@[i]@)
    }
}

/// Where `name` stands in a table, or its length when it is not there.
pub open spec fn position(table: Seq<Seq<char>>, name: Seq<char>) -> int {
    if table.contains(name) {
        table.index_of(name)
    } else {
        table.len() as int
    }
}

/// The table after interning `name`.
pub open spec fn interned(table: Seq<Seq<char>>, name: Seq<char>) -> Seq<Seq<char>> {
    if table.contains(name) {
        table
    } else {
        table.push(name)
    }
}

impl Symbols {
    /// No name stands twice, ids fit a [`SymbolId`], and each name is filed
    /// under its hash.
    pub closed spec fn wf(&self) -> bool {
        &&& self@.no_duplicates()
        &&& self.names@.len() <= u32::MAX
        &&& forall|i: int|
            0 <= i < self.names@.len() ==> {
                let h = name_hash(#[trigger] self.names@[i]@);
                self.index@.contains_key(h) && self.index@[h]@.contains(i as u32)
            }
        &&& forall|h: u64, k: int|
            #![trigger self.index@[h]@[k]]
            self.index@.contains_key(h) && 0 <= k < self.index@[h]@.len() ==> self.index@[h]@[k]
                < self.names@.len()
    }

    /// What holds of every table: names are distinct and ids fit.
    pub broadcast proof fn law_table(&self)
        requires
            self.wf(),
        ensures
            (#[trigger] self@).no_duplicates(),
            self@.len() <= u32::MAX,
    {
    }

    /// An empty table.
    pub fn new() -> (r: Symbols)
        ensures
            r.wf(),
            r@ == Seq::<Seq<char>>::empty(),
    {
        Symbols { names: Vec::new(), index: HashMap::new() }
    }

    /// Whether another name can be interned.
    pub fn has_room(&self) -> (r: bool)
        ensures
            r == (self@.len() < u32::MAX),
    {
        self.names.len() < u32::MAX as usize
    }

    /// The id of a name that is already interned.
    pub fn find(&self, name: &str) -> (r: Option<SymbolId>)
        requires
            self.wf(),
        ensures
            match r {
                Some(id) => id.0 < self@.len() && self@[id.0 as int] == name@,
                None => !self@.contains(name@),
            },
    {
        let hash = hash_of(name);
        let owned: String = name.to_owned();
        match self.index.get(&hash) {
            None => {
                assert(!self@.contains(name@)) by {
                    if self@.contains(name@) {
                        let i = self@.index_of(name@);
                        assert(self.names@[i]@ == name@);
                    }
                }
                None
            },
            Some(ids) => {
                let mut k: usize = 0;
                while k < ids.len()
                    invariant
                        k <= ids.len(),
                        self.wf(),
                        hash == name_hash(name@),
                        self.index@.contains_key(hash),
                        *ids == self.index@[hash],
                        owned@ == name@,
                        forall|j: int| 0 <= j < k ==> self@[#[trigger] ids@[j] as int] != name@,
                    decreases ids.len() - k,
                {
                    let id: u32 = ids[k];
                    assert(self.index@[hash]@[k as int] < self.names@.len());
                    if self.names[id as usize] == owned {
                        return Some(SymbolId(id));
                    }
                    k += 1;
                }
                assert(!self@.contains(name@)) by {
                    if self@.contains(name@) {
                        let i = self@.index_of(name@);
                        assert(self.names@[i]@ == name@);
                        let j = ids@.index_of(i as u32);
                        assert(ids@[j] == i as u32);
                    }
                }
                None
            },
        }
    }

    /// The id of `name`, which is interned if it was not already.
    pub fn intern(&mut self, name: &str) -> (r: SymbolId)
        requires
            old(self).wf(),
            old(self)@.contains(name@) || old(self)@.len() < u32::MAX,
        ensures
            final(self).wf(),
            final(self)@ == interned(old(self)@, name@),
            r.0 == position(old(self)@, name@),
            final(self)@[r.0 as int] == name@,
    {
        if let Some(id) = self.find(name) {
            proof {
                let i = self@.index_of(name@);
                assert(self@[i] == self@[id.0 as int]);
            }
            return id;
        }
        let ghost before = self.names@;
        let id: u32 = self.names.len() as u32;
        let hash = hash_of(name);
        let mut ids: Vec<u32> = match self.index.remove(&hash) {
            Some(ids) => ids,
            None => Vec::new(),
        };
        let ghost earlier = ids@;
        ids.push(id);
        self.index.insert(hash, ids);
        self.names.push(name.to_owned());
        proof {
            assert(self@ =~= old(self)@.push(name@));
            assert forall|i: int| 0 <= i < self.names@.len() implies {
                let h = name_hash(#[trigger] self.names@[i]@);
                self.index@.contains_key(h) && self.index@[h]@.contains(i as u32)
            } by {
                let h = name_hash(self.names@[i]@);
                if i < before.len() {
                    assert(self.names@[i] == before[i]);
                    assert(old(self).index@[h]@.contains(i as u32));
                    if h == hash {
                        let j = earlier.index_of(i as u32);
                        assert(self.index@[h]@[j] == i as u32);
                    }
                } else {
                    assert(self.index@[h]@[earlier.len() as int] == id);
                }
            }
            assert forall|h: u64, k: int|
                #![trigger self.index@[h]@[k]]
                self.index@.contains_key(h) && 0 <= k < self.index@[h]@.len() implies self.index@[h]@[k]
                < self.names@.len() by {
                if h == hash {
                    if k < earlier.len() {
                        assert(old(self).index@[h]@[k] < before.len());
                    }
                } else {
                    assert(old(self).index@[h]@[k] < before.len());
                }
            }
        }
        SymbolId(id)
    }

    /// The name of `id`, or `None` for an id this table never gave out.
    pub fn name(&self, id: SymbolId) -> (r: Option<String>)
        ensures
            match r {
                Some(name) => id.0 < self@.len() && name@ == self@[id.0 as int],
                None => id.0 >= self@.len(),
            },
    {
        let at: usize = id.0 as usize;
        if at < self.names.len() {
            Some(self.names[at].clone())
        } else {
            None
        }
    }

    /// How many names are interned.
    pub fn len(&self) -> (r: usize)
        ensures
            r == self@.len(),
    {
        self.names.len()
    }

    /// Whether nothing is interned.
    pub fn is_empty(&self) -> (r: bool)
        ensures
            r == (self@.len() == 0),
    {
        self.names.len() == 0
    }
}

/// Interning a name twice gives one id, and changes nothing the second time.
pub proof fn law_interning_is_idempotent(table: Seq<Seq<char>>, name: Seq<char>)
    requires
        table.no_duplicates(),
    ensures
        interned(interned(table, name), name) == interned(table, name),
        position(interned(table, name), name) == position(table, name),
{
    if !table.contains(name) {
        let grown = table.push(name);
        assert(grown[table.len() as int] == name);
        let at = grown.index_of(name);
        assert(grown[at] == name);
        if at < table.len() {
            assert(table[at] == name);
        }
    }
}

/// Two names get one id only if they are one name.
pub proof fn law_ids_tell_names_apart(table: Seq<Seq<char>>, one: Seq<char>, other: Seq<char>)
    ensures
        ({
            let grown = interned(interned(table, one), other);
            grown.contains(one) && grown.contains(other)
        }),
        position(interned(table, one), one) == position(interned(table, one), other) ==> one == other,
{
    let first = interned(table, one);
    if !table.contains(one) {
        assert(first[table.len() as int] == one);
    }
    assert(first.contains(one));
    let grown = interned(first, other);
    if !first.contains(other) {
        assert(grown[first.len() as int] == other);
        let i = first.index_of(one);
        assert(grown[i] == one);
    }
}

/// Interning keeps every name at its id.
pub proof fn law_the_table_only_grows(table: Seq<Seq<char>>, name: Seq<char>)
    ensures
        table.is_prefix_of(interned(table, name)),
{
}

} // verus!
