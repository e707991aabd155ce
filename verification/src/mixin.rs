//! What mixing a module in does to the class table.
//!
//! A module's own run is walked from its front with a cursor into the target's
//! run. A module the target already has moves the cursor behind it; one it
//! lacks is put in at the cursor; one its superclass has is left to it. What
//! was mixed into a module later reaches everything that has the module
//! already.

use vstd::prelude::*;

use crate::class;
use crate::class::{ClassId, ClassModel, Mixin};

verus! {

/// Where a module's run is going into a target's.
pub struct Cursor {
    /// Where the next missing module goes.
    pub at: int,
    /// The last place the walk has passed, if any.
    pub behind: Option<int>,
    /// The part of the target's run that counts as already having a module.
    pub from: int,
    pub to: int,
    /// Whether having it through the superclass counts too.
    pub search_super: bool,
}

/// `include`: right behind the entry itself, and not what it has anywhere.
pub open spec fn include_cursor(c: ClassModel) -> Cursor {
    Cursor {
        at: c.origin + 1,
        behind: Some(c.origin),
        from: 0,
        to: c.own.len() as int,
        search_super: true,
    }
}

/// `prepend`: at the front, and not what was prepended already.
pub open spec fn prepend_cursor(c: ClassModel) -> Cursor {
    Cursor { at: 0, behind: None, from: 0, to: c.origin, search_super: false }
}

/// Behind a module that the run already has at `anchor`.
pub open spec fn after_cursor(c: ClassModel, anchor: int) -> Cursor {
    Cursor {
        at: anchor + 1,
        behind: Some(anchor),
        from: anchor + 1,
        to: c.own.len() as int,
        search_super: true,
    }
}

/// In front of a module that the run already has, and of what was prepended to
/// it.
pub open spec fn before_cursor(start: int, anchor: int) -> Cursor {
    Cursor { at: start, behind: None, from: start, to: anchor, search_super: false }
}

/// The first place in `from..to` that holds `m`.
pub open spec fn first_at(own: Seq<ClassId>, from: int, to: int, m: ClassId) -> Option<int>
    decreases to - from,
{
    if from >= to || from >= own.len() {
        None
    } else if own[from] == m {
        Some(from)
    } else {
        first_at(own, from + 1, to, m)
    }
}

/// The table with `m` put into the run of `target` at `at`.
pub open spec fn inserted(t: Seq<ClassModel>, target: int, at: int, m: ClassId) -> Seq<ClassModel> {
    let c = t[target];
    let with_own = t.update(
        target,
        ClassModel {
            own: c.own.insert(at, m),
            origin: if at <= c.origin {
                c.origin + 1
            } else {
                c.origin
            },
            ..c
        },
    );
    let e = with_own[m.0 as int];
    if e.includers.contains(ClassId(target as u32)) {
        with_own
    } else {
        with_own.update(
            m.0 as int,
            ClassModel { includers: e.includers.push(ClassId(target as u32)), ..e },
        )
    }
}

/// The table with the modules of `chain` put into the run of `target`.
pub open spec fn spliced(
    t: Seq<ClassModel>,
    target: int,
    cursor: Cursor,
    chain: Seq<ClassId>,
) -> Seq<ClassModel>
    decreases chain.len(),
{
    if chain.len() == 0 {
        t
    } else {
        let m = chain[0];
        let rest = chain.skip(1);
        match first_at(t[target].own, cursor.from, cursor.to, m) {
            Some(q) => if cursor.behind is None || q >= cursor.behind->0 {
                spliced(t, target, Cursor { behind: Some(q), at: q + 1, ..cursor }, rest)
            } else {
                spliced(t, target, cursor, rest)
            },
            None => if cursor.search_super && class::inherited_of(t, target).contains(m) {
                spliced(t, target, cursor, rest)
            } else {
                spliced(
                    inserted(t, target, cursor.at, m),
                    target,
                    Cursor {
                        behind: Some(cursor.at),
                        at: cursor.at + 1,
                        to: if cursor.at <= cursor.to {
                            cursor.to + 1
                        } else {
                            cursor.to
                        },
                        ..cursor
                    },
                    rest,
                )
            },
        }
    }
}

/// Where the modules prepended to an entry start, in a run that has the entry
/// at `anchor`.
pub open spec fn run_start(own: Seq<ClassId>, prepends: Seq<ClassId>, anchor: int) -> int
    decreases anchor,
{
    if 0 < anchor <= own.len() && prepends.contains(own[anchor - 1]) {
        run_start(own, prepends, anchor - 1)
    } else {
        anchor
    }
}

/// The cursor for a run that already has `target` at `anchor`.
pub open spec fn reached_cursor(
    t: Seq<ClassModel>,
    who: int,
    target: int,
    how: Mixin,
    anchor: int,
) -> Cursor {
    match how {
        Mixin::Include => after_cursor(t[who], anchor),
        Mixin::Prepend => before_cursor(
            run_start(t[who].own, t[target].own.take(t[target].origin), anchor),
            anchor,
        ),
    }
}

/// The table once `module`, mixed into `target`, has reached the entries
/// listed.
pub open spec fn propagated(
    t: Seq<ClassModel>,
    target: int,
    module: int,
    how: Mixin,
    includers: Seq<ClassId>,
) -> Seq<ClassModel>
    decreases includers.len(),
{
    if includers.len() == 0 {
        t
    } else {
        let who = includers[0].0 as int;
        let own = t[who].own;
        let next = match first_at(own, 0, own.len() as int, ClassId(target as u32)) {
            None => t,
            Some(anchor) => spliced(
                t,
                who,
                reached_cursor(t, who, target, how, anchor),
                t[module].own,
            ),
        };
        propagated(next, target, module, how, includers.skip(1))
    }
}

/// The table with `module` mixed into `target` alone.
pub open spec fn mixed_once(t: Seq<ClassModel>, target: int, module: int, how: Mixin) -> Seq<
    ClassModel,
> {
    spliced(
        t,
        target,
        match how {
            Mixin::Include => include_cursor(t[target]),
            Mixin::Prepend => prepend_cursor(t[target]),
        },
        t[module].own,
    )
}

/// The table with `module` mixed into `target` and everything that has it.
pub open spec fn mixed(t: Seq<ClassModel>, target: int, module: int, how: Mixin) -> Seq<
    ClassModel,
> {
    let once = mixed_once(t, target, module, how);
    propagated(once, target, module, how, once[target].includers)
}

/// A cursor inside the run it points into.
pub open spec fn cursor_ok(t: Seq<ClassModel>, target: int, cursor: Cursor) -> bool {
    let len = t[target].own.len();
    &&& 0 <= cursor.at <= len
    &&& 0 <= cursor.from
    &&& 0 <= cursor.to <= len
    &&& cursor.behind matches Some(b) ==> 0 <= b
}

pub proof fn lemma_first_at(own: Seq<ClassId>, from: int, to: int, m: ClassId)
    requires
        0 <= from,
    ensures
        match first_at(own, from, to, m) {
            Some(q) => from <= q < to && q < own.len() && own[q] == m && forall|j: int|
                from <= j < q ==> own[j] != m,
            None => forall|j: int| from <= j < to && j < own.len() ==> own[j] != m,
        },
    decreases to - from,
{
    if from < to && from < own.len() && own[from] != m {
        lemma_first_at(own, from + 1, to, m);
    }
}

/// A module that is put in knows where it went, and every other one still
/// does.
proof fn lemma_knows(
    t: Seq<ClassModel>,
    after: Seq<ClassModel>,
    m: ClassId,
    target: int,
    x: ClassId,
)
    requires
        0 <= target < t.len(),
        m.0 < t.len(),
        x.0 < t.len(),
        exists|at: int| after == #[trigger] inserted(t, target, at, m),
    ensures
        after[x.0 as int].kind == t[x.0 as int].kind,
        forall|v: ClassId|
            t[x.0 as int].includers.contains(v) ==> #[trigger] after[x.0 as int].includers.contains(
                v,
            ),
        x == m ==> after[x.0 as int].includers.contains(ClassId(target as u32)),
{
    let was = t[x.0 as int].includers;
    let now = after[x.0 as int].includers;
    let at = choose|at: int| after == #[trigger] inserted(t, target, at, m);
    assert(after == inserted(t, target, at, m));
    if x == m && !was.contains(ClassId(target as u32)) {
        assert(now == was.push(ClassId(target as u32)));
    }
    if now != was {
        assert(now == was.push(ClassId(target as u32)));
        assert(now[was.len() as int] == ClassId(target as u32));
        assert forall|v: ClassId| was.contains(v) implies #[trigger] now.contains(v) by {
            let k = was.index_of(v);
            assert(now[k] == v);
        }
    }
}

/// Whether `places` are where the items of `a` stand in `b`, in order.
pub open spec fn embeds(places: Seq<int>, a: Seq<ClassId>, b: Seq<ClassId>) -> bool {
    &&& places.len() == a.len()
    &&& forall|i: int| 0 <= i < a.len() ==> 0 <= #[trigger] places[i] < b.len()
    &&& forall|i: int| 0 <= i < a.len() ==> b[#[trigger] places[i]] == a[i]
    &&& forall|i: int, j: int| 0 <= i < j < a.len() ==> #[trigger] places[i] < #[trigger] places[j]
}

/// Whether one list is another with items left out.
pub open spec fn is_subsequence(a: Seq<ClassId>, b: Seq<ClassId>) -> bool {
    exists|places: Seq<int>| #[trigger] embeds(places, a, b)
}

proof fn lemma_embeds_self(a: Seq<ClassId>)
    ensures
        is_subsequence(a, a),
{
    assert(embeds(Seq::new(a.len(), |i: int| i), a, a));
}

proof fn lemma_insert_embeds(a: Seq<ClassId>, at: int, m: ClassId)
    requires
        0 <= at <= a.len(),
    ensures
        is_subsequence(a, a.insert(at, m)),
{
    let places = Seq::new(
        a.len(),
        |i: int|
            if i < at {
                i
            } else {
                i + 1
            },
    );
    assert(embeds(places, a, a.insert(at, m)));
}

proof fn lemma_embeds_trans(a: Seq<ClassId>, b: Seq<ClassId>, c: Seq<ClassId>)
    requires
        is_subsequence(a, b),
        is_subsequence(b, c),
    ensures
        is_subsequence(a, c),
{
    let f = choose|f: Seq<int>| #[trigger] embeds(f, a, b);
    let g = choose|g: Seq<int>| #[trigger] embeds(g, b, c);
    let h = Seq::new(a.len(), |i: int| g[f[i]]);
    assert forall|i: int| 0 <= i < a.len() implies 0 <= #[trigger] h[i] < c.len() && c[h[i]] == a[i] by {
        assert(0 <= f[i] < b.len());
        assert(0 <= g[f[i]] < c.len());
    }
    assert forall|i: int, j: int| 0 <= i < j < a.len() implies #[trigger] h[i] < #[trigger] h[j] by {
        assert(f[i] < f[j]);
        assert(0 <= f[i] && f[j] < b.len());
        assert(g[f[i]] < g[f[j]]);
    }
    assert(embeds(h, a, c));
}

/// Lists put behind lists they are left out of.
proof fn lemma_embeds_both(a: Seq<ClassId>, b: Seq<ClassId>, c: Seq<ClassId>, d: Seq<ClassId>)
    requires
        is_subsequence(a, b),
        is_subsequence(c, d),
    ensures
        is_subsequence(a + c, b + d),
{
    let f = choose|f: Seq<int>| #[trigger] embeds(f, a, b);
    let g = choose|g: Seq<int>| #[trigger] embeds(g, c, d);
    let n = a.len() as int;
    let h = Seq::new(
        (a + c).len(),
        |i: int|
            if i < n {
                f[i]
            } else {
                b.len() + g[i - n]
            },
    );
    assert forall|i: int| 0 <= i < (a + c).len() implies 0 <= #[trigger] h[i] < (b + d).len() && (b
        + d)[h[i]] == (a + c)[i] by {
        if i < n {
            assert(0 <= f[i] < b.len());
        } else {
            assert(0 <= g[i - n] < d.len());
        }
    }
    assert forall|i: int, j: int| 0 <= i < j < (a + c).len() implies #[trigger] h[i]
        < #[trigger] h[j] by {
        if j < n {
            assert(f[i] < f[j]);
        } else if i >= n {
            assert(g[i - n] < g[j - n]);
        } else {
            assert(0 <= f[i] < b.len());
            assert(0 <= g[j - n]);
        }
    }
    assert(embeds(h, a + c, b + d));
}

/// A module's run holds modules alone.
pub proof fn lemma_run_of_modules(t: Seq<ClassModel>, module: int)
    requires
        class::table_ok(t),
        0 <= module < t.len(),
        t[module].kind is Module,
    ensures
        forall|k: int|
            0 <= k < t[module].own.len() ==> (#[trigger] t[module].own[k]).0 < t.len()
                && t[t[module].own[k].0 as int].kind is Module,
{
    assert(class::class_ok(t, module));
}

/// A table lost nothing to itself.
pub proof fn lemma_kept_same(t: Seq<ClassModel>)
    ensures
        kept(t, t),
{
    assert forall|i: int| 0 <= i < t.len() implies #[trigger] keeps(t, t, i) by {
        lemma_embeds_self(t[i].own);
    }
}

/// What putting a module in leaves alone, and what it keeps true.
pub proof fn lemma_inserted(t: Seq<ClassModel>, target: int, at: int, m: ClassId)
    requires
        class::table_ok(t),
        0 <= target < t.len(),
        0 <= at <= t[target].own.len(),
        m.0 < t.len(),
        t[m.0 as int].kind is Module,
    ensures
        class::table_ok(inserted(t, target, at, m)),
        kept(t, inserted(t, target, at, m)),
        inserted(t, target, at, m)[target].own == t[target].own.insert(at, m),
        forall|i: int|
            0 <= i < t.len() && i != target ==> (#[trigger] inserted(t, target, at, m)[i]).own
                == t[i].own,
{
    let after = inserted(t, target, at, m);
    let c = t[target];
    let own = c.own.insert(at, m);
    assert(class::class_ok(t, target));
    assert(after[target].own == own);
    assert forall|i: int| 0 <= i < after.len() implies #[trigger] class::class_ok(after, i) by {
        assert(class::class_ok(t, i));
        assert forall|k: int| 0 <= k < after[i].own.len() implies (#[trigger] after[i].own[k]).0
            < t.len() && (k != after[i].origin ==> class::mixed_in_ok(after, i, after[i].own[k])) by {
            if i == target && k == at {
                lemma_knows(t, after, m, target, m);
            } else {
                let j = if i == target && k > at {
                    k - 1
                } else {
                    k
                };
                assert(after[i].own[k] == t[i].own[j]);
                if k != after[i].origin {
                    assert(class::mixed_in_ok(t, i, t[i].own[j]));
                    lemma_knows(t, after, m, target, t[i].own[j]);
                }
            }
        }
        let includers = after[i].includers;
        assert forall|k: int| 0 <= k < includers.len() implies (#[trigger] includers[k]).0
            < t.len() by {
            if k < t[i].includers.len() {
                assert(includers[k] == t[i].includers[k]);
            }
        }
    }
    assert forall|i: int, j: int| 0 <= i < j < after.len() implies #[trigger] class::apart(
        after,
        i,
        j,
    ) by {
        assert(class::apart(t, i, j));
    }
    assert forall|i: int| 0 <= i < t.len() implies #[trigger] keeps(t, after, i) by {
        if i == target {
            lemma_insert_embeds(c.own, at, m);
        } else {
            lemma_embeds_self(t[i].own);
        }
        if i == target {
            assert forall|x: ClassId| t[i].own.contains(x) implies #[trigger] after[i].own.contains(
                x,
            ) by {
                let k = t[i].own.index_of(x);
                if k < at {
                    assert(own[k] == x);
                } else {
                    assert(own[k + 1] == x);
                }
            }
        }
    }
}

/// An entry that lost nothing: its run has grown at most, with what was in it
/// in the same order, and all but its run and its includers is as it was.
pub open spec fn keeps(t: Seq<ClassModel>, after: Seq<ClassModel>, i: int) -> bool {
    &&& forall|x: ClassId| t[i].own.contains(x) ==> #[trigger] after[i].own.contains(x)
    &&& is_subsequence(t[i].own, after[i].own)
    &&& after[i].object == t[i].object
    &&& after[i].name == t[i].name
    &&& after[i].kind == t[i].kind
    &&& after[i].superclass == t[i].superclass
    &&& after[i].methods == t[i].methods
    &&& after[i].singleton == t[i].singleton
    &&& after[i].is_singleton == t[i].is_singleton
    &&& after[i].constants == t[i].constants
}

/// A table in which no entry lost anything.
pub open spec fn kept(t: Seq<ClassModel>, after: Seq<ClassModel>) -> bool {
    &&& after.len() == t.len()
    &&& forall|i: int| 0 <= i < t.len() ==> #[trigger] keeps(t, after, i)
}

pub proof fn lemma_kept_trans(a: Seq<ClassModel>, b: Seq<ClassModel>, c: Seq<ClassModel>)
    requires
        kept(a, b),
        kept(b, c),
    ensures
        kept(a, c),
{
    assert forall|i: int| 0 <= i < a.len() implies #[trigger] keeps(a, c, i) by {
        assert(keeps(a, b, i));
        assert(keeps(b, c, i));
        lemma_embeds_trans(a[i].own, b[i].own, c[i].own);
    }
}

/// Ancestors are never lost, and keep their order.
pub proof fn lemma_kept_ancestors(t: Seq<ClassModel>, after: Seq<ClassModel>, id: int)
    requires
        class::table_ok(t),
        kept(t, after),
        0 <= id < t.len(),
    ensures
        forall|x: ClassId|
            class::ancestors_of(t, id).contains(x) ==> #[trigger] class::ancestors_of(after, id).contains(x),
        is_subsequence(class::ancestors_of(t, id), class::ancestors_of(after, id)),
    decreases id,
{
    assert(keeps(t, after, id));
    assert(class::class_ok(t, id));
    class::lemma_ancestors(t, id);
    class::lemma_ancestors(after, id);
    if let Some(s) = t[id].superclass {
        lemma_kept_ancestors(t, after, s.0 as int);
        lemma_embeds_both(
            t[id].own,
            after[id].own,
            class::ancestors_of(t, s.0 as int),
            class::ancestors_of(after, s.0 as int),
        );
    }
    assert forall|x: ClassId| class::ancestors_of(t, id).contains(x) implies #[trigger] class::ancestors_of(
        after,
        id,
    ).contains(x) by {
        class::lemma_is_ancestor(t, id, x);
        class::lemma_is_ancestor(after, id, x);
    }
}

/// Splicing keeps the table in order and loses nothing, and what it was given
/// is in the target's run or in its superclass's ancestors.
pub proof fn lemma_spliced(t: Seq<ClassModel>, target: int, cursor: Cursor, chain: Seq<ClassId>)
    requires
        class::table_ok(t),
        0 <= target < t.len(),
        cursor_ok(t, target, cursor),
        forall|k: int|
            0 <= k < chain.len() ==> (#[trigger] chain[k]).0 < t.len()
                && t[chain[k].0 as int].kind is Module,
    ensures
        class::table_ok(spliced(t, target, cursor, chain)),
        kept(t, spliced(t, target, cursor, chain)),
        forall|k: int|
            0 <= k < chain.len() ==> {
                ||| spliced(t, target, cursor, chain)[target].own.contains(#[trigger] chain[k])
                ||| cursor.search_super && class::inherited_of(t, target).contains(chain[k])
            },
        forall|i: int|
            0 <= i < t.len() && i != target ==> (#[trigger] spliced(
                t,
                target,
                cursor,
                chain,
            )[i]).own == t[i].own,
    decreases chain.len(),
{
    let after = spliced(t, target, cursor, chain);
    if chain.len() > 0 {
        let m = chain[0];
        let rest = chain.skip(1);
        lemma_first_at(t[target].own, cursor.from, cursor.to, m);
        assert forall|k: int| 0 <= k < rest.len() implies (#[trigger] rest[k]).0 < t.len()
            && t[rest[k].0 as int].kind is Module by {
            assert(rest[k] == chain[k + 1]);
        }
        match first_at(t[target].own, cursor.from, cursor.to, m) {
            Some(q) => {
                assert(t[target].own.contains(m));
                if cursor.behind is None || q >= cursor.behind->0 {
                    lemma_spliced(
                        t,
                        target,
                        Cursor { behind: Some(q), at: q + 1, ..cursor },
                        rest,
                    );
                } else {
                    lemma_spliced(t, target, cursor, rest);
                }
                assert(keeps(t, after, target));
            },
            None => {
                if cursor.search_super && class::inherited_of(t, target).contains(m) {
                    lemma_spliced(t, target, cursor, rest);
                } else {
                    let next = inserted(t, target, cursor.at, m);
                    let moved = Cursor {
                        behind: Some(cursor.at),
                        at: cursor.at + 1,
                        to: if cursor.at <= cursor.to {
                            cursor.to + 1
                        } else {
                            cursor.to
                        },
                        ..cursor
                    };
                    lemma_inserted(t, target, cursor.at, m);
                    assert forall|k: int| 0 <= k < rest.len() implies (#[trigger] rest[k]).0
                        < next.len() && next[rest[k].0 as int].kind is Module by {
                        assert(keeps(t, next, rest[k].0 as int));
                    }
                    lemma_spliced(next, target, moved, rest);
                    lemma_kept_trans(t, next, after);
                    assert(next[target].own[cursor.at] == m);
                    assert(keeps(next, after, target));
                    lemma_inherited_unchanged(t, next, target);
                }
            },
        }
        assert forall|k: int| 0 <= k < chain.len() implies {
            ||| after[target].own.contains(#[trigger] chain[k])
            ||| cursor.search_super && class::inherited_of(t, target).contains(chain[k])
        } by {
            if k > 0 {
                assert(rest[k - 1] == chain[k]);
            }
        }
    } else {
        lemma_kept_same(t);
    }
}

proof fn lemma_inherited_unchanged(t: Seq<ClassModel>, next: Seq<ClassModel>, target: int)
    requires
        class::table_ok(t),
        kept(t, next),
        0 <= target < t.len(),
        forall|i: int| 0 <= i < t.len() && i != target ==> (#[trigger] next[i]).own == t[i].own,
    ensures
        class::inherited_of(next, target) == class::inherited_of(t, target),
{
    assert(keeps(t, next, target));
    assert(class::class_ok(t, target));
    if let Some(s) = t[target].superclass {
        lemma_below_unchanged(t, next, target, s.0 as int);
    }
}

proof fn lemma_below_unchanged(t: Seq<ClassModel>, next: Seq<ClassModel>, target: int, id: int)
    requires
        kept(t, next),
        0 <= id < target < t.len(),
        forall|i: int| 0 <= i < t.len() && i != target ==> (#[trigger] next[i]).own == t[i].own,
    ensures
        class::ancestors_of(next, id) == class::ancestors_of(t, id),
    decreases id,
{
    assert(keeps(t, next, id));
    assert(next[id].own == t[id].own);
    if let Some(s) = t[id].superclass {
        if s.0 < id {
            lemma_below_unchanged(t, next, target, s.0 as int);
        }
    }
}

pub proof fn lemma_run_start(own: Seq<ClassId>, prepends: Seq<ClassId>, anchor: int)
    requires
        0 <= anchor,
    ensures
        0 <= run_start(own, prepends, anchor) <= anchor,
    decreases anchor,
{
    if 0 < anchor <= own.len() && prepends.contains(own[anchor - 1]) {
        lemma_run_start(own, prepends, anchor - 1);
    }
}

/// The cursor for a run that has the target is inside that run.
pub proof fn lemma_reached_cursor(t: Seq<ClassModel>, who: int, target: int, how: Mixin, anchor: int)
    requires
        0 <= anchor < t[who].own.len(),
    ensures
        cursor_ok(t, who, reached_cursor(t, who, target, how, anchor)),
{
    lemma_run_start(t[who].own, t[target].own.take(t[target].origin), anchor);
}

/// Whether an entry has another among its ancestors.
pub open spec fn has_ancestor(t: Seq<ClassModel>, id: ClassId, x: ClassId) -> bool {
    class::ancestors_of(t, id.0 as int).contains(x)
}

pub proof fn lemma_propagated(
    t: Seq<ClassModel>,
    target: int,
    module: int,
    how: Mixin,
    includers: Seq<ClassId>,
)
    requires
        class::table_ok(t),
        0 <= target < t.len(),
        0 <= module < t.len(),
        t[module].kind is Module,
        forall|k: int| 0 <= k < includers.len() ==> (#[trigger] includers[k]).0 < t.len(),
    ensures
        class::table_ok(propagated(t, target, module, how, includers)),
        kept(t, propagated(t, target, module, how, includers)),
        !t[module].own.contains(ClassId(target as u32)) ==> forall|w: ClassId, k: int|
            includers.contains(w) && t[w.0 as int].own.contains(ClassId(target as u32)) && 0 <= k
                < t[module].own.len() ==> #[trigger] has_ancestor(
                propagated(t, target, module, how, includers),
                w,
                t[module].own[k],
            ),
    decreases includers.len(),
{
    if includers.len() == 0 {
        lemma_kept_same(t);
    } else {
        let who = includers[0].0 as int;
        let own = t[who].own;
        let rest = includers.skip(1);
        assert forall|k: int| 0 <= k < rest.len() implies (#[trigger] rest[k]).0 < t.len() by {
            assert(rest[k] == includers[k + 1]);
        }
        lemma_first_at(own, 0, own.len() as int, ClassId(target as u32));
        match first_at(own, 0, own.len() as int, ClassId(target as u32)) {
            None => {
                lemma_propagated(t, target, module, how, rest);
                let after = propagated(t, target, module, how, includers);
                if !t[module].own.contains(ClassId(target as u32)) {
                    assert forall|w: ClassId, k: int|
                        includers.contains(w) && t[w.0 as int].own.contains(
                            ClassId(target as u32),
                        ) && 0 <= k < t[module].own.len() implies #[trigger] has_ancestor(
                        after,
                        w,
                        t[module].own[k],
                    ) by {
                        let j = includers.index_of(w);
                        assert(rest[j - 1] == w);
                    }
                }
            },
            Some(anchor) => {
                let cursor = reached_cursor(t, who, target, how, anchor);
                lemma_reached_cursor(t, who, target, how, anchor);
                assert(class::class_ok(t, module));
                lemma_run_of_modules(t, module);
                lemma_spliced(t, who, cursor, t[module].own);
                let next = spliced(t, who, cursor, t[module].own);
                let after = propagated(next, target, module, how, rest);
                assert(keeps(t, next, module));
                lemma_propagated(next, target, module, how, rest);
                lemma_kept_trans(t, next, after);
                if !t[module].own.contains(ClassId(target as u32)) {
                    assert(who != module);
                    assert forall|w: ClassId, k: int|
                        includers.contains(w) && t[w.0 as int].own.contains(
                            ClassId(target as u32),
                        ) && 0 <= k < t[module].own.len() implies #[trigger] has_ancestor(
                        after,
                        w,
                        t[module].own[k],
                    ) by {
                        let m = t[module].own[k];
                        let j = includers.index_of(w);
                        if j == 0 {
                            lemma_inherited_unchanged(t, next, who);
                            assert(class::class_ok(next, who));
                            class::lemma_is_ancestor(next, who, m);
                            assert(keeps(t, next, who));
                            lemma_kept_ancestors(next, after, who);
                        } else {
                            assert(rest[j - 1] == w);
                            assert(keeps(t, next, w.0 as int));
                            assert(has_ancestor(after, w, next[module].own[k]));
                        }
                    }
                }
            },
        }
    }
}

/// An entry's ancestors are among those of what inherits from it.
proof fn lemma_inherits(t: Seq<ClassModel>, id: int, above: int, x: ClassId)
    requires
        class::table_ok(t),
        0 <= above < t.len(),
        0 <= id < t.len(),
        class::in_line(t, id, above),
        class::ancestors_of(t, above).contains(x),
    ensures
        class::ancestors_of(t, id).contains(x),
    decreases id,
{
    assert(class::class_ok(t, id));
    if id != above {
        let s = (t[id].superclass->0).0 as int;
        lemma_inherits(t, s, above, x);
        class::lemma_is_ancestor(t, id, x);
    }
}

/// What has an ancestor has it in its own run or in a superclass's.
proof fn lemma_holder(t: Seq<ClassModel>, id: int, x: ClassId) -> (above: int)
    requires
        class::table_ok(t),
        0 <= id < t.len(),
        class::ancestors_of(t, id).contains(x),
    ensures
        0 <= above < t.len(),
        class::in_line(t, id, above),
        t[above].own.contains(x),
    decreases id,
{
    assert(class::class_ok(t, id));
    class::lemma_is_ancestor(t, id, x);
    if t[id].own.contains(x) {
        id
    } else {
        lemma_holder(t, (t[id].superclass->0).0 as int, x)
    }
}

/// A run holds modules alone beside the entry itself.
pub proof fn law_a_run_holds_modules(t: Seq<ClassModel>, id: int, k: int)
    requires
        class::table_ok(t),
        0 <= id < t.len(),
        0 <= k < t[id].own.len(),
    ensures
        t[id].own[k].0 < t.len(),
        k == t[id].origin ==> t[id].own[k] == ClassId(id as u32),
        k != t[id].origin ==> t[t[id].own[k].0 as int].kind is Module,
{
    assert(class::class_ok(t, id));
}

/// Mixing in keeps the table in order, takes no ancestor away and keeps the
/// order of those there were.
pub proof fn law_mixing_in_keeps_ancestors(
    t: Seq<ClassModel>,
    target: int,
    module: int,
    how: Mixin,
    id: int,
)
    requires
        class::table_ok(t),
        0 <= target < t.len(),
        0 <= module < t.len(),
        0 <= id < t.len(),
        t[module].kind is Module,
    ensures
        class::table_ok(mixed(t, target, module, how)),
        kept(t, mixed(t, target, module, how)),
        is_subsequence(
            class::ancestors_of(t, id),
            class::ancestors_of(mixed(t, target, module, how), id),
        ),
{
    let once = lemma_once(t, target, module, how);
    lemma_propagated(once, target, module, how, once[target].includers);
    lemma_kept_trans(t, once, mixed(t, target, module, how));
    lemma_kept_ancestors(t, mixed(t, target, module, how), id);
}

/// Mixing into the target alone.
proof fn lemma_once(t: Seq<ClassModel>, target: int, module: int, how: Mixin) -> (once: Seq<
    ClassModel,
>)
    requires
        class::table_ok(t),
        0 <= target < t.len(),
        0 <= module < t.len(),
        t[module].kind is Module,
    ensures
        once == mixed_once(t, target, module, how),
        class::table_ok(once),
        kept(t, once),
        once[module].kind is Module,
        class::class_ok(once, target),
        forall|i: int| 0 <= i < t.len() && i != target ==> (#[trigger] once[i]).own == t[i].own,
        forall|k: int|
            0 <= k < t[module].own.len() ==> {
                ||| once[target].own.contains(#[trigger] t[module].own[k])
                ||| how is Include && class::inherited_of(t, target).contains(t[module].own[k])
            },
{
    let cursor = match how {
        Mixin::Include => include_cursor(t[target]),
        Mixin::Prepend => prepend_cursor(t[target]),
    };
    assert(class::class_ok(t, target));
    lemma_run_of_modules(t, module);
    lemma_spliced(t, target, cursor, t[module].own);
    let once = mixed_once(t, target, module, how);
    assert(class::class_ok(once, target));
    assert(keeps(t, once, module));
    once
}

/// Everything a module's run holds becomes an ancestor of what it is mixed
/// into, of all that inherits from that, and of all that had it mixed in
/// before, with what inherits from those. `prepend` puts it into the target's
/// own run; `include` leaves to the superclass what the superclass has.
pub proof fn law_mixing_in_reaches(
    t: Seq<ClassModel>,
    target: int,
    module: int,
    how: Mixin,
    id: int,
    k: int,
)
    requires
        class::table_ok(t),
        0 <= target < t.len(),
        0 <= module < t.len(),
        0 <= id < t.len(),
        t[module].kind is Module,
        !t[module].own.contains(ClassId(target as u32)),
        0 <= k < t[module].own.len(),
        class::ancestors_of(t, id).contains(ClassId(target as u32)),
    ensures
        class::ancestors_of(mixed(t, target, module, how), id).contains(t[module].own[k]),
        how is Prepend ==> mixed(t, target, module, how)[target].own.contains(t[module].own[k]),
{
    let me = ClassId(target as u32);
    let m = t[module].own[k];
    let after = mixed(t, target, module, how);
    let once = lemma_once(t, target, module, how);
    let includers = once[target].includers;
    lemma_propagated(once, target, module, how, includers);
    lemma_kept_trans(t, once, after);
    assert(keeps(once, after, target));
    assert(keeps(t, after, target));
    assert(class::class_ok(t, target));
    assert(class::class_ok(t, module));
    assert(module != target) by {
        assert(t[module].own.contains(ClassId(module as u32))) by {
            assert(t[module].own[t[module].origin] == ClassId(module as u32));
        }
    }
    let above = lemma_holder(t, id, me);
    assert(class::class_ok(t, above));
    assert(class::ancestors_of(after, above).contains(m)) by {
        if above == target {
            class::lemma_is_ancestor(after, target, m);
            if !once[target].own.contains(m) {
                lemma_kept_ancestors(t, after, (t[target].superclass->0).0 as int);
            }
        } else {
            let j = t[above].own.index_of(me);
            assert(class::class_ok(once, above));
            assert(once[above].own == t[above].own);
            assert(once[above].own[j] == me);
            assert(once[above].own[once[above].origin] == ClassId(above as u32));
            assert(class::mixed_in_ok(once, above, once[above].own[j]));
            assert(has_ancestor(after, ClassId(above as u32), once[module].own[k]));
        }
    }
    lemma_same_line(t, after, id, above);
    lemma_inherits(after, id, above, m);
}

/// Whether a module stands before the entry itself in the entry's run.
pub open spec fn stands_before(c: ClassModel, m: ClassId) -> bool {
    exists|p: int| 0 <= p < c.origin && #[trigger] c.own[p] == m
}

/// What stands before an entry still does when a module is put in anywhere.
proof fn lemma_inserted_before(
    t: Seq<ClassModel>,
    who: int,
    at: int,
    m: ClassId,
    i: int,
    x: ClassId,
)
    requires
        class::table_ok(t),
        0 <= who < t.len(),
        0 <= at <= t[who].own.len(),
        m.0 < t.len(),
        0 <= i < t.len(),
        stands_before(t[i], x),
    ensures
        stands_before(inserted(t, who, at, m)[i], x),
{
    let p = choose|p: int| 0 <= p < t[i].origin && #[trigger] t[i].own[p] == x;
    let next = inserted(t, who, at, m);
    assert(class::class_ok(t, i));
    if i == who {
        assert(next[i].own == t[i].own.insert(at, m));
        if p < at {
            assert(next[i].own[p] == x);
        } else {
            assert(next[i].own[p + 1] == x);
        }
    } else {
        assert(next[i].own == t[i].own);
        assert(next[i].own[p] == x);
    }
}

/// What stands before an entry still does when modules are spliced in
/// anywhere, and so do those spliced into the entry's own run in front of it.
proof fn lemma_spliced_before(
    t: Seq<ClassModel>,
    who: int,
    cursor: Cursor,
    chain: Seq<ClassId>,
    i: int,
)
    requires
        class::table_ok(t),
        0 <= who < t.len(),
        cursor_ok(t, who, cursor),
        forall|k: int|
            0 <= k < chain.len() ==> (#[trigger] chain[k]).0 < t.len()
                && t[chain[k].0 as int].kind is Module,
        0 <= i < t.len(),
    ensures
        forall|x: ClassId|
            stands_before(t[i], x) ==> #[trigger] stands_before(
                spliced(t, who, cursor, chain)[i],
                x,
            ),
        i == who && !cursor.search_super && cursor.to == t[who].origin && cursor.at
            <= t[who].origin ==> forall|k: int|
            0 <= k < chain.len() ==> stands_before(
                spliced(t, who, cursor, chain)[i],
                #[trigger] chain[k],
            ),
    decreases chain.len(),
{
    if chain.len() > 0 {
        let after = spliced(t, who, cursor, chain);
        let front = i == who && !cursor.search_super && cursor.to == t[who].origin && cursor.at
            <= t[who].origin;
        let m = chain[0];
        let rest = chain.skip(1);
        lemma_first_at(t[who].own, cursor.from, cursor.to, m);
        assert forall|k: int| 0 <= k < rest.len() implies (#[trigger] rest[k]).0 < t.len()
            && t[rest[k].0 as int].kind is Module by {
            assert(rest[k] == chain[k + 1]);
        }
        match first_at(t[who].own, cursor.from, cursor.to, m) {
            Some(q) => {
                if front {
                    assert(t[who].own[q] == m);
                    assert(stands_before(t[i], m));
                }
                let moved = if cursor.behind is None || q >= cursor.behind->0 {
                    Cursor { behind: Some(q), at: q + 1, ..cursor }
                } else {
                    cursor
                };
                lemma_spliced_before(t, who, moved, rest, i);
                assert(after == spliced(t, who, moved, rest));
                if front {
                    assert(stands_before(after[i], m));
                }
            },
            None => {
                if cursor.search_super && class::inherited_of(t, who).contains(m) {
                    lemma_spliced_before(t, who, cursor, rest, i);
                    assert(after == spliced(t, who, cursor, rest));
                } else {
                    let next = inserted(t, who, cursor.at, m);
                    let moved = Cursor {
                        behind: Some(cursor.at),
                        at: cursor.at + 1,
                        to: if cursor.at <= cursor.to {
                            cursor.to + 1
                        } else {
                            cursor.to
                        },
                        ..cursor
                    };
                    lemma_inserted(t, who, cursor.at, m);
                    assert forall|k: int| 0 <= k < rest.len() implies (#[trigger] rest[k]).0
                        < next.len() && next[rest[k].0 as int].kind is Module by {
                        assert(keeps(t, next, rest[k].0 as int));
                    }
                    lemma_spliced_before(next, who, moved, rest, i);
                    assert(after == spliced(next, who, moved, rest));
                    assert forall|x: ClassId| stands_before(t[i], x) implies #[trigger] stands_before(
                        after[i],
                        x,
                    ) by {
                        lemma_inserted_before(t, who, cursor.at, m, i, x);
                        assert(stands_before(spliced(next, who, moved, rest)[i], x));
                    }
                    if front {
                        assert(next[i].own[cursor.at] == m);
                        assert(stands_before(next[i], m));
                        assert(next[who].origin == t[who].origin + 1);
                        assert(stands_before(after[i], m));
                    }
                }
            },
        }
        if front {
            assert forall|k: int| 0 <= k < chain.len() implies stands_before(
                after[i],
                #[trigger] chain[k],
            ) by {
                if k > 0 {
                    assert(rest[k - 1] == chain[k]);
                    assert(stands_before(after[i], rest[k - 1]));
                }
            }
        }
    }
}

/// What stands before an entry still does once a module has reached the
/// entries listed.
proof fn lemma_propagated_before(
    t: Seq<ClassModel>,
    target: int,
    module: int,
    how: Mixin,
    includers: Seq<ClassId>,
    i: int,
    x: ClassId,
)
    requires
        class::table_ok(t),
        0 <= target < t.len(),
        0 <= module < t.len(),
        t[module].kind is Module,
        forall|k: int| 0 <= k < includers.len() ==> (#[trigger] includers[k]).0 < t.len(),
        0 <= i < t.len(),
        stands_before(t[i], x),
    ensures
        stands_before(propagated(t, target, module, how, includers)[i], x),
    decreases includers.len(),
{
    if includers.len() > 0 {
        let who = includers[0].0 as int;
        let own = t[who].own;
        let rest = includers.skip(1);
        assert forall|k: int| 0 <= k < rest.len() implies (#[trigger] rest[k]).0 < t.len() by {
            assert(rest[k] == includers[k + 1]);
        }
        lemma_first_at(own, 0, own.len() as int, ClassId(target as u32));
        match first_at(own, 0, own.len() as int, ClassId(target as u32)) {
            None => {
                lemma_propagated_before(t, target, module, how, rest, i, x);
            },
            Some(anchor) => {
                let cursor = reached_cursor(t, who, target, how, anchor);
                lemma_reached_cursor(t, who, target, how, anchor);
                lemma_run_of_modules(t, module);
                lemma_spliced(t, who, cursor, t[module].own);
                lemma_spliced_before(t, who, cursor, t[module].own, i);
                let next = spliced(t, who, cursor, t[module].own);
                assert(keeps(t, next, module));
                lemma_propagated_before(next, target, module, how, rest, i, x);
            },
        }
    }
}

/// A module that is prepended stands, with all its run holds, before the target
/// in the target's run, and so among the target's ancestors; what was prepended
/// to an entry earlier still stands before that entry.
pub proof fn law_prepending_puts_before(
    t: Seq<ClassModel>,
    target: int,
    module: int,
    k: int,
    id: int,
    x: ClassId,
)
    requires
        class::table_ok(t),
        0 <= target < t.len(),
        0 <= module < t.len(),
        t[module].kind is Module,
        0 <= k < t[module].own.len(),
        0 <= id < t.len(),
    ensures
        stands_before(mixed(t, target, module, Mixin::Prepend)[target], t[module].own[k]),
        exists|p: int, q: int|
            0 <= p < q < class::ancestors_of(mixed(t, target, module, Mixin::Prepend), target).len()
                && #[trigger] class::ancestors_of(
                mixed(t, target, module, Mixin::Prepend),
                target,
            )[p] == t[module].own[k] && #[trigger] class::ancestors_of(
                mixed(t, target, module, Mixin::Prepend),
                target,
            )[q] == ClassId(target as u32),
        stands_before(t[id], x) ==> stands_before(
            mixed(t, target, module, Mixin::Prepend)[id],
            x,
        ),
{
    let how = Mixin::Prepend;
    let m = t[module].own[k];
    let after = mixed(t, target, module, how);
    let once = lemma_once(t, target, module, how);
    let includers = once[target].includers;
    let cursor = prepend_cursor(t[target]);
    assert(class::class_ok(t, target));
    lemma_run_of_modules(t, module);
    lemma_spliced_before(t, target, cursor, t[module].own, target);
    lemma_spliced_before(t, target, cursor, t[module].own, id);
    assert(stands_before(once[target], m));
    lemma_propagated_before(once, target, module, how, includers, target, m);
    if stands_before(t[id], x) {
        lemma_propagated_before(once, target, module, how, includers, id, x);
    }
    lemma_propagated(once, target, module, how, includers);
    assert(class::class_ok(after, target));
    class::lemma_ancestors(after, target);
    let own = after[target].own;
    let p = choose|p: int| 0 <= p < after[target].origin && #[trigger] own[p] == m;
    let q = after[target].origin;
    assert(class::ancestors_of(after, target)[p] == own[p]);
    assert(class::ancestors_of(after, target)[q] == own[q]);
}

/// A table that lost nothing has the same superclasses.
proof fn lemma_same_line(t: Seq<ClassModel>, after: Seq<ClassModel>, id: int, above: int)
    requires
        kept(t, after),
        0 <= id < t.len(),
        class::in_line(t, id, above),
    ensures
        class::in_line(after, id, above),
    decreases id,
{
    assert(keeps(t, after, id));
    if id != above {
        lemma_same_line(t, after, (t[id].superclass->0).0 as int, above);
    }
}

/// Including a module that mixes nothing else in, into an entry that nothing
/// has and whose superclass lacks the module, puts it right behind the entry.
pub proof fn lemma_simple_include(t: Seq<ClassModel>, target: int, module: int)
    requires
        class::table_ok(t),
        0 <= target < t.len(),
        0 <= module < t.len(),
        target != module,
        t.len() <= u32::MAX,
        t[target].own == seq![ClassId(target as u32)],
        t[target].origin == 0,
        t[target].includers == Seq::<ClassId>::empty(),
        t[module].own == seq![ClassId(module as u32)],
        !class::inherited_of(t, target).contains(ClassId(module as u32)),
    ensures
        mixed(t, target, module, Mixin::Include) == inserted(
            t,
            target,
            1,
            ClassId(module as u32),
        ),
{
    let m = ClassId(module as u32);
    let cursor = include_cursor(t[target]);
    let chain = t[module].own;
    lemma_first_at(t[target].own, cursor.from, cursor.to, m);
    assert(chain[0] == m);
    assert(chain.skip(1) =~= Seq::<ClassId>::empty());
    let after = inserted(t, target, 1, m);
    reveal_with_fuel(spliced, 2);
    assert(mixed_once(t, target, module, Mixin::Include) == after);
    assert(after[target].includers =~= Seq::<ClassId>::empty());
}

} // verus!
