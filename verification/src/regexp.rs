//! The patterns a heap has compiled, and the regexp objects it has cached.

use vstd::prelude::*;

use crate::heap::Payload;
use crate::value::Value;

verus! {

/// Slot of a `Regexp`: its place in [`Regexps`].
pub const REGEXP_INDEX: usize = 0;

/// Slot of a `Regexp`: its source.
pub const REGEXP_SOURCE: usize = 1;

/// Slot of a `Regexp`: its options.
pub const REGEXP_OPTIONS: usize = 2;

pub const REGEXP_SLOTS: u32 = 3;

/// Slot of a `MatchData`: the pattern.
pub const MATCH_REGEXP: usize = 0;

/// Slot of a `MatchData`: what was matched against.
pub const MATCH_SUBJECT: usize = 1;

/// Slot of a `MatchData`: where the groups are.
pub const MATCH_OFFSETS: usize = 2;

pub const MATCH_SLOTS: u32 = 3;

/// A pattern: its source and its option bits.
#[derive(Debug, Clone, PartialEq, Eq)]
pub struct Pattern {
    pub source: String,
    pub options: i64,
}

struct Cached {
    source: String,
    options: i64,
    value: Value,
}

/// The patterns of a heap.
pub struct Regexps {
    compiled: Vec<Pattern>,
    cache: Vec<Cached>,
}

impl Regexps {
    /// The patterns, by place.
    pub closed spec fn patterns(&self) -> Seq<Pattern> {
        self.compiled@
    }

    /// The objects that stand for a literal.
    pub closed spec fn objects(&self) -> Map<(Seq<char>, i64), Value> {
        Map::new(
            |key: (Seq<char>, i64)|
                exists|i: int|
                    0 <= i < self.cache@.len() && #[trigger] self.cache@[i].source@ == key.0
                        && self.cache@[i].options == key.1,
            |key: (Seq<char>, i64)| self.cache@[self.place(key)].value,
        )
    }

    spec fn place(&self, key: (Seq<char>, i64)) -> int {
        choose|i: int|
            0 <= i < self.cache@.len() && #[trigger] self.cache@[i].source@ == key.0
                && self.cache@[i].options == key.1
    }

    /// A literal is cached once.
    pub closed spec fn wf(&self) -> bool {
        forall|i: int, j: int|
            0 <= i < j < self.cache@.len() ==> !(#[trigger] self.cache@[i].source@
                == #[trigger] self.cache@[j].source@ && self.cache@[i].options
                == self.cache@[j].options)
    }

    /// None.
    pub fn new() -> (r: Regexps)
        ensures
            r.wf(),
            r.patterns() == Seq::<Pattern>::empty(),
            r.objects() == Map::<(Seq<char>, i64), Value>::empty(),
    {
        let r = Regexps { compiled: Vec::new(), cache: Vec::new() };
        assert(r.objects() =~= Map::<(Seq<char>, i64), Value>::empty());
        r
    }

    /// Add a pattern; its place.
    pub fn add(&mut self, pattern: Pattern) -> (r: usize)
        requires
            old(self).wf(),
        ensures
            final(self).wf(),
            r == old(self).patterns().len(),
            final(self).patterns() == old(self).patterns().push(pattern),
            final(self).objects() == old(self).objects(),
    {
        let at: usize = self.compiled.len();
        self.compiled.push(pattern);
        assert(self.objects() =~= old(self).objects());
        at
    }

    /// The pattern at a place.
    pub fn get(&self, index: usize) -> (r: Option<&Pattern>)
        ensures
            match r {
                Some(pattern) => index < self.patterns().len() && *pattern
                    == self.patterns()[index as int],
                None => index >= self.patterns().len(),
            },
    {
        if index < self.compiled.len() {
            Some(&self.compiled[index])
        } else {
            None
        }
    }

    fn find(&self, source: &str, options: i64) -> (r: Option<usize>)
        requires
            self.wf(),
        ensures
            match r {
                Some(i) => i < self.cache@.len() && self.cache@[i as int].source@ == source@
                    && self.cache@[i as int].options == options && self.place((source@, options))
                    == i,
                None => forall|i: int|
                    0 <= i < self.cache@.len() ==> !(#[trigger] self.cache@[i].source@ == source@
                        && self.cache@[i].options == options),
            },
    {
        let wanted: String = source.to_owned();
        let mut i: usize = 0;
        while i < self.cache.len()
            invariant
                i <= self.cache.len(),
                self.wf(),
                wanted@ == source@,
                forall|j: int|
                    0 <= j < i ==> !(#[trigger] self.cache@[j].source@ == source@
                        && self.cache@[j].options == options),
            decreases self.cache.len() - i,
        {
            if self.cache[i].source == wanted && self.cache[i].options == options {
                proof {
                    let p = self.place((source@, options));
                    assert(self.cache@[i as int].source@ == source@);
                    assert(self.cache@[p].source@ == source@ && self.cache@[p].options == options);
                }
                return Some(i);
            }
            i += 1;
        }
        None
    }

    /// The object that stands for a literal, once it is cached.
    pub fn cached(&self, source: &str, options: i64) -> (r: Option<Value>)
        requires
            self.wf(),
        ensures
            r == if self.objects().contains_key((source@, options)) {
                Some(self.objects()[(source@, options)])
            } else {
                None
            },
    {
        match self.find(source, options) {
            Some(i) => {
                assert(self.cache@[i as int].source@ == source@);
                Some(self.cache[i].value)
            },
            None => None,
        }
    }

    /// Let `value` stand for a literal.
    pub fn cache(&mut self, source: &str, options: i64, value: Value)
        requires
            old(self).wf(),
        ensures
            final(self).wf(),
            final(self).patterns() == old(self).patterns(),
            final(self).objects() == old(self).objects().insert((source@, options), value),
    {
        let ghost before = *self;
        let ghost key = (source@, options);
        match self.find(source, options) {
            Some(i) => {
                self.cache[i].value = value;
                proof {
                    assert forall|k: (Seq<char>, i64)| #[trigger]
                        self.objects().contains_key(k) <==> before.objects().contains_key(k) by {
                        if self.objects().contains_key(k) {
                            let p = self.place(k);
                            assert(before.cache@[p].source@ == k.0);
                        }
                        if before.objects().contains_key(k) {
                            let p = before.place(k);
                            assert(self.cache@[p].source@ == k.0);
                        }
                    }
                    assert(before.cache@[i as int].source@ == key.0);
                    assert forall|k: (Seq<char>, i64)|
                        self.objects().contains_key(k) implies #[trigger] self.objects()[k]
                        == before.objects().insert(key, value)[k] by {
                        let p = self.place(k);
                        let q = before.place(k);
                        assert(self.cache@[p].source@ == k.0 && self.cache@[p].options == k.1);
                        assert(before.cache@[p].source@ == k.0);
                        assert(before.cache@[q].source@ == k.0);
                        assert(p == q);
                    }
                    assert(self.objects() =~= before.objects().insert(key, value));
                }
            },
            None => {
                self.cache.push(Cached { source: source.to_owned(), options, value });
                proof {
                    let n = before.cache@.len() as int;
                    assert(self.cache@[n].source@ == key.0);
                    assert forall|k: (Seq<char>, i64)| #[trigger]
                        self.objects().contains_key(k) <==> (before.objects().contains_key(k) || k
                            == key) by {
                        if self.objects().contains_key(k) {
                            let p = self.place(k);
                            if p < n {
                                assert(before.cache@[p].source@ == k.0);
                            }
                        }
                        if before.objects().contains_key(k) {
                            let p = before.place(k);
                            assert(self.cache@[p].source@ == k.0);
                        }
                    }
                    assert forall|k: (Seq<char>, i64)|
                        self.objects().contains_key(k) implies #[trigger] self.objects()[k]
                        == before.objects().insert(key, value)[k] by {
                        let p = self.place(k);
                        assert(self.cache@[p].source@ == k.0 && self.cache@[p].options == k.1);
                        if k != key {
                            assert(before.objects().contains_key(k));
                            let q = before.place(k);
                            assert(before.cache@[q].source@ == k.0);
                            assert(self.cache@[q].source@ == k.0);
                            assert(p == q);
                        } else {
                            assert(p == n);
                        }
                    }
                    assert(self.objects() =~= before.objects().insert(key, value));
                }
            },
        }
    }

    /// Every value the cache keeps alive.
    pub fn each_root(&self) -> (r: Vec<Value>)
        requires
            self.wf(),
        ensures
            forall|v: Value| #[trigger] r@.contains(v) <==> self.objects().contains_value(v),
    {
        let mut out: Vec<Value> = Vec::new();
        let mut i: usize = 0;
        while i < self.cache.len()
            invariant
                i <= self.cache.len(),
                out@.len() == i,
                forall|k: int| 0 <= k < i ==> #[trigger] out@[k] == self.cache@[k].value,
            decreases self.cache.len() - i,
        {
            out.push(self.cache[i].value);
            i += 1;
        }
        assert forall|v: Value| #[trigger] out@.contains(v) <==> self.objects().contains_value(
            v,
        ) by {
            if out@.contains(v) {
                let k = out@.index_of(v);
                let key = (self.cache@[k].source@, self.cache@[k].options);
                assert(self.cache@[k].source@ == key.0);
                let p = self.place(key);
                assert(self.cache@[p].source@ == key.0 && self.cache@[p].options == key.1);
                assert(p == k);
                assert(self.objects().contains_key(key));
                assert(self.objects()[key] == v);
            }
            if self.objects().contains_value(v) {
                let key = choose|key: (Seq<char>, i64)|
                    self.objects().contains_key(key) && #[trigger] self.objects()[key] == v;
                let p = self.place(key);
                assert(self.cache@[p].source@ == key.0);
                assert(out@[p] == v);
            }
        }
        out
    }
}

impl Default for Regexps {
    fn default() -> (r: Regexps)
        ensures
            r.wf(),
            r.patterns() == Seq::<Pattern>::empty(),
            r.objects() == Map::<(Seq<char>, i64), Value>::empty(),
    {
        Regexps::new()
    }
}

/// How a `Regexp` object is laid out.
pub fn regexp_shape() -> (r: (Payload, u32))
    ensures
        r == (Payload::Slots, REGEXP_SLOTS),
{
    (Payload::Slots, REGEXP_SLOTS)
}

/// How a `MatchData` object is laid out.
pub fn match_shape() -> (r: (Payload, u32))
    ensures
        r == (Payload::Slots, MATCH_SLOTS),
{
    (Payload::Slots, MATCH_SLOTS)
}

} // verus!
