//! The heap: objects, roots, and the collector that tells them apart from
//! garbage.
//!
//! An object is a header and a body of slots or bytes, in a cell. Cells of one
//! size come from blocks and return to a free list; an object larger than the
//! largest cell has a cell of its own. Collection marks what the roots reach,
//! with a work list rather than by recursion, and sweeps the rest.
//!
//! A [`HandleScope`] is how a heap is used. Everything it is handed stays
//! rooted until the scope, or the nested scope it was handed to, is left.

use vstd::prelude::*;

use crate::class;
use crate::class::Classes;
use crate::method::{Definition, Definitions};
use crate::regexp::{Pattern, Regexps};
use crate::shared::symbols::Symbols;
use crate::value::{Unpacked, Value};
use crate::value;

verus! {

broadcast use Value::law_pack;

/// The bytes a block of cells holds.
pub const BLOCK_SIZE: u64 = 65536;

/// The largest cell.
pub const MAX_CELL: u64 = 512;

/// How much is allocated before the first collection, and between any two.
pub const MIN_GC_BYTES: u64 = 1048576;

/// The bytes of an object's header.
pub const HEADER_SIZE: u64 = 16;

/// How many cells a heap has addresses for.
pub const MAX_CELLS: u64 = 0x0400_0000_0000_0000;

/// What an object's body is made of.
#[derive(Debug, Clone, Copy, PartialEq, Eq, Structural)]
pub enum Payload {
    Slots,
    Bytes,
}

/// What a heap has done and holds.
#[derive(Debug, Clone, Copy, PartialEq, Eq, Structural)]
pub struct Stats {
    /// Objects that survived the last collection.
    pub live_objects: usize,
    /// The bytes of their cells.
    pub live_bytes: u64,
    pub collections: u64,
    pub blocks: usize,
    /// Objects in a cell of their own.
    pub large_objects: usize,
    pub total_allocated: u64,
}

// ---------------------------------------------------------------------------
// The heap as a map from addresses to objects
// ---------------------------------------------------------------------------

/// An object's body.
#[verifier::ext_equal]
pub enum BodyModel {
    Slots(Seq<Value>),
    Bytes(Seq<u8>),
}

/// An object.
#[verifier::ext_equal]
pub struct Object {
    pub class: Option<Value>,
    pub frozen: bool,
    pub body: BodyModel,
}

impl Object {
    pub open spec fn payload(self) -> Payload {
        match self.body {
            BodyModel::Slots(_) => Payload::Slots,
            BodyModel::Bytes(_) => Payload::Bytes,
        }
    }

    pub open spec fn len(self) -> nat {
        match self.body {
            BodyModel::Slots(slots) => slots.len(),
            BodyModel::Bytes(bytes) => bytes.len(),
        }
    }

    /// Whether the object holds `v`, as its class or in a slot.
    pub open spec fn points_to(self, v: Value) -> bool {
        ||| self.class == Some(v)
        ||| self.body matches BodyModel::Slots(slots) && slots.contains(v)
    }
}

/// An object as it is born: every slot `nil`, every byte zero.
pub open spec fn fresh_object(class: Option<Value>, payload: Payload, len: u32) -> Object {
    Object {
        class,
        frozen: false,
        body: match payload {
            Payload::Slots => BodyModel::Slots(
                Seq::new(len as nat, |i: int| Value::pack(Unpacked::Nil)),
            ),
            Payload::Bytes => BodyModel::Bytes(Seq::new(len as nat, |i: int| 0u8)),
        },
    }
}

/// All of a heap that a program can tell.
#[verifier::ext_equal]
pub struct HeapModel {
    pub objects: Map<u64, Object>,
    /// What the open scopes hold, outermost first.
    pub roots: Seq<Value>,
    pub classes: Classes,
    pub definitions: Definitions,
    pub regexps: Regexps,
    pub last_match: Value,
    pub symbols: Symbols,
}

impl HeapModel {
    /// What a collection starts from.
    pub open spec fn is_root(self, v: Value) -> bool {
        ||| self.roots.contains(v)
        ||| class::is_class_root(self.classes.table(), v)
        ||| self.regexps.objects().contains_value(v)
        ||| v == self.last_match
    }

    /// Whether a value is an immediate or an object of this heap.
    pub open spec fn live(self, v: Value) -> bool {
        v@ matches Unpacked::Heap(a) ==> self.objects.contains_key(a)
    }

    /// Whether a value is an object of this heap.
    pub open spec fn has_object(self, v: Value) -> bool {
        v@ matches Unpacked::Heap(a) && self.objects.contains_key(a)
    }

    /// The object a heap value is.
    pub open spec fn object(self, v: Value) -> Object {
        self.objects[v@->Heap_0]
    }

    /// Whether a set of addresses holds every root and everything its members
    /// hold.
    pub open spec fn traces(self, s: Set<u64>) -> bool {
        &&& forall|v: Value| #[trigger] self.is_root(v) ==> (v@ matches Unpacked::Heap(a) ==> s.contains(a))
        &&& forall|a: u64, v: Value|
            s.contains(a) && self.objects.contains_key(a) && #[trigger] self.objects[a].points_to(v)
                ==> (v@ matches Unpacked::Heap(b) ==> s.contains(b))
    }

    /// Whether the roots reach an address: it is in every set that traces.
    pub open spec fn reachable(self, a: u64) -> bool {
        forall|s: Set<u64>| #[trigger] self.traces(s) ==> s.contains(a)
    }

    /// Nothing the heap holds is gone, and no object is longer than an
    /// allocation can ask for.
    pub open spec fn sound(self) -> bool {
        &&& forall|v: Value| #[trigger] self.is_root(v) ==> self.live(v)
        &&& forall|a: u64, v: Value|
            self.objects.contains_key(a) && #[trigger] self.objects[a].points_to(v) ==> self.live(v)
        &&& forall|a: u64|
            self.objects.contains_key(a) ==> #[trigger] self.objects[a].len() <= u32::MAX
    }

    /// Whether every value a class table holds is an immediate or an object
    /// of this heap.
    pub open spec fn keeps_classes(self, classes: Classes) -> bool {
        forall|v: Value| #[trigger] class::is_class_root(classes.table(), v) ==> self.live(v)
    }

    /// Whether every object a pattern table has cached is an immediate or an
    /// object of this heap.
    pub open spec fn keeps_regexps(self, regexps: Regexps) -> bool {
        forall|v: Value| #[trigger] regexps.objects().contains_value(v) ==> self.live(v)
    }

    /// The heap with what the roots do not reach gone.
    pub open spec fn collected(self) -> HeapModel {
        HeapModel {
            objects: self.objects.restrict(Set::new(|a: u64| self.reachable(a))),
            ..self
        }
    }

    /// The heap with another root.
    pub open spec fn rooting(self, v: Value) -> HeapModel {
        HeapModel { roots: self.roots.push(v), ..self }
    }

    /// The heap with an object replaced.
    pub open spec fn storing(self, v: Value, object: Object) -> HeapModel {
        HeapModel { objects: self.objects.insert(v@->Heap_0, object), ..self }
    }
}

/// A heap holds finitely many objects.
pub proof fn law_objects_are_finite(scope: HandleScope)
    requires
        scope.wf(),
    ensures
        scope@.objects.dom().finite(),
{
    let cells = scope.inner().cells@;
    lemma_live_count(cells, 0);
    assert(addresses_from(cells, 0) =~= scope@.objects.dom());
}

/// A root is reachable.
pub proof fn law_roots_are_reachable(m: HeapModel, v: Value, a: u64)
    requires
        m.is_root(v),
        v@ == Unpacked::Heap(a),
    ensures
        m.reachable(a),
{
}

/// What a reachable object holds is reachable.
pub proof fn law_reaching_goes_on(m: HeapModel, a: u64, v: Value, b: u64)
    requires
        m.reachable(a),
        m.objects.contains_key(a),
        m.objects[a].points_to(v),
        v@ == Unpacked::Heap(b),
    ensures
        m.reachable(b),
{
}

/// Collecting keeps the heap sound, keeps every reachable object as it is and
/// drops every other, and a second collection finds nothing more to drop.
pub proof fn law_collecting(m: HeapModel)
    requires
        m.sound(),
    ensures
        m.collected().sound(),
        forall|a: u64|
            #![trigger m.collected().objects.contains_key(a)]
            m.collected().objects.contains_key(a) <==> m.objects.contains_key(a) && m.reachable(a),
        forall|a: u64|
            #![trigger m.collected().objects[a]]
            m.collected().objects.contains_key(a) ==> m.collected().objects[a] == m.objects[a],
        m.collected().collected() == m.collected(),
{
    let c = m.collected();
    assert forall|v: Value| #[trigger] c.is_root(v) implies c.live(v) by {
        assert(m.is_root(v));
        if let Unpacked::Heap(a) = v@ {
            law_roots_are_reachable(m, v, a);
        }
    }
    assert forall|a: u64, v: Value|
        c.objects.contains_key(a) && #[trigger] c.objects[a].points_to(v) implies c.live(v) by {
        assert(m.objects[a].points_to(v));
        if let Unpacked::Heap(b) = v@ {
            law_reaching_goes_on(m, a, v, b);
        }
    }
    assert forall|a: u64| c.objects.contains_key(a) implies #[trigger] c.reachable(a) by {
        assert forall|s: Set<u64>| #[trigger] c.traces(s) implies s.contains(a) by {
            let narrow = s.intersect(Set::new(|x: u64| m.reachable(x)));
            assert(m.traces(narrow)) by {
                assert forall|v: Value| #[trigger] m.is_root(v) implies (v@ matches Unpacked::Heap(x)
                    ==> narrow.contains(x)) by {
                    assert(c.is_root(v));
                    if let Unpacked::Heap(x) = v@ {
                        law_roots_are_reachable(m, v, x);
                    }
                }
                assert forall|x: u64, v: Value|
                    narrow.contains(x) && m.objects.contains_key(x)
                        && #[trigger] m.objects[x].points_to(v) implies (v@ matches Unpacked::Heap(y)
                    ==> narrow.contains(y)) by {
                    assert(c.objects.contains_key(x));
                    assert(c.objects[x].points_to(v));
                    if let Unpacked::Heap(y) = v@ {
                        law_reaching_goes_on(m, x, v, y);
                    }
                }
            }
        }
    }
    assert(c.collected().objects =~= c.objects);
}

// ---------------------------------------------------------------------------
// Cells
// ---------------------------------------------------------------------------

enum Body {
    Slots(Vec<Value>),
    Bytes(Vec<u8>),
}

struct Cell {
    /// Whether the cell holds an object.
    live: bool,
    marked: bool,
    frozen: bool,
    class: Option<Value>,
    body: Body,
    /// The bytes the cell stands for; zero for one that a large object left.
    size: u64,
}

impl Cell {
    spec fn model(&self) -> Object {
        Object {
            class: self.class,
            frozen: self.frozen,
            body: match self.body {
                Body::Slots(slots) => BodyModel::Slots(slots@),
                Body::Bytes(bytes) => BodyModel::Bytes(bytes@),
            },
        }
    }
}

/// The cell size of a size class.
pub open spec fn cell_bytes(class_index: int) -> u64 {
    if class_index <= 0 {
        32
    } else if class_index == 1 {
        64
    } else if class_index == 2 {
        128
    } else if class_index == 3 {
        256
    } else {
        512
    }
}

/// The cell size of a size class.
pub fn cell_size(class_index: usize) -> (r: u64)
    ensures
        r == cell_bytes(class_index as int),
{
    if class_index == 0 {
        32
    } else if class_index == 1 {
        64
    } else if class_index == 2 {
        128
    } else if class_index == 3 {
        256
    } else {
        512
    }
}

/// The smallest size class whose cells hold `bytes`, or `None` when an object
/// that large gets a cell of its own.
pub fn size_class(bytes: u64) -> (r: Option<usize>)
    ensures
        match r {
            Some(c) => {
                &&& c < 5
                &&& bytes <= cell_bytes(c as int)
                &&& c > 0 ==> cell_bytes(c - 1) < bytes
            },
            None => bytes > MAX_CELL,
        },
{
    if bytes > MAX_CELL {
        None
    } else if bytes <= 32 {
        Some(0)
    } else if bytes <= 64 {
        Some(1)
    } else if bytes <= 128 {
        Some(2)
    } else if bytes <= 256 {
        Some(3)
    } else {
        Some(4)
    }
}

/// The bytes of an object: its header, and its slots or its bytes rounded up
/// to whole words.
pub open spec fn object_bytes(payload: Payload, len: u32) -> int {
    HEADER_SIZE + match payload {
        Payload::Slots => len * 8,
        Payload::Bytes => (len + 7) / 8 * 8,
    }
}

/// The address of a cell.
spec fn address_of(index: int) -> u64 {
    ((index + 1) * 16) as u64
}

/// The cell at an address.
spec fn index_at(address: u64) -> int {
    address / 16 - 1
}

/// Whether a cell at this address holds an object.
spec fn occupied(cells: Seq<Cell>, address: u64) -> bool {
    &&& address >= 16
    &&& address % 16 == 0
    &&& index_at(address) < cells.len()
    &&& cells[index_at(address)].live
}

/// The objects in the cells.
spec fn objects_in(cells: Seq<Cell>) -> Map<u64, Object> {
    Map::new(
        |address: u64| occupied(cells, address),
        |address: u64| cells[index_at(address)].model(),
    )
}

/// How many of the first `n` cells pass a test that marking changes.
spec fn unmarked_in(cells: Seq<Cell>, n: int) -> nat
    decreases n,
{
    if n <= 0 {
        0
    } else {
        unmarked_in(cells, n - 1) + if cells[n - 1].live && !cells[n - 1].marked {
            1nat
        } else {
            0
        }
    }
}

proof fn lemma_marking_shrinks(cells: Seq<Cell>, i: int, n: int)
    requires
        0 <= i < cells.len(),
        n <= cells.len(),
        cells[i].live,
        !cells[i].marked,
    ensures
        unmarked_in(cells.update(i, Cell { marked: true, ..cells[i] }), n) == unmarked_in(cells, n)
            - (if i < n {
            1int
        } else {
            0
        }),
    decreases n,
{
    if n > 0 {
        lemma_marking_shrinks(cells, i, n - 1);
    }
}

/// Two runs of cells that differ in marks alone.
spec fn same_but_marks(a: Seq<Cell>, b: Seq<Cell>) -> bool {
    &&& a.len() == b.len()
    &&& forall|i: int| 0 <= i < a.len() ==> #[trigger] a[i] == (Cell { marked: a[i].marked, ..b[i] })
}

/// Whether a value is an immediate, gone, or a marked object.
spec fn covered(cells: Seq<Cell>, v: Value) -> bool {
    v@ matches Unpacked::Heap(a) ==> occupied(cells, a) ==> cells[index_at(a)].marked
}

/// Whether everything a cell holds is covered.
spec fn scanned(cells: Seq<Cell>, i: int) -> bool {
    forall|v: Value| #[trigger] cells[i].model().points_to(v) ==> covered(cells, v)
}

/// What marking keeps true: only objects are marked, what waits is marked,
/// what is marked is in every set that traces, and what is marked and does not
/// wait has been scanned. `busy` is the one being scanned.
spec fn marking(
    m: HeapModel,
    start: Seq<Cell>,
    cells: Seq<Cell>,
    work: Seq<usize>,
    busy: Option<usize>,
) -> bool {
    &&& same_but_marks(cells, start)
    &&& m.objects == objects_in(start)
    &&& start.len() <= MAX_CELLS
    &&& start.len() <= usize::MAX
    &&& forall|i: int| 0 <= i < cells.len() && #[trigger] cells[i].marked ==> cells[i].live
    &&& forall|k: int|
        0 <= k < work.len() ==> #[trigger] work[k] < cells.len() && cells[work[k] as int].marked
    &&& forall|s: Set<u64>, i: int|
        m.traces(s) && 0 <= i < cells.len() && cells[i].marked ==> #[trigger] s.contains(
            address_of(i),
        )
    &&& forall|i: int|
        0 <= i < cells.len() && cells[i].marked ==> work.contains(i as usize) || busy == Some(
            i as usize,
        ) || #[trigger] scanned(cells, i)
}

/// Mark an object and queue it, unless it is marked already.
fn shade(cells: &mut Vec<Cell>, work: &mut Vec<usize>, value: Value)
    requires
        old(cells)@.len() <= MAX_CELLS,
    ensures
        same_but_marks(final(cells)@, old(cells)@),
        covered(final(cells)@, value),
        ({
            let fresh = value@ matches Unpacked::Heap(a) && occupied(old(cells)@, a) && !old(
                cells,
            )@[index_at(a)].marked;
            if fresh {
                let i = index_at(value@->Heap_0);
                &&& final(cells)@ == old(cells)@.update(
                    i,
                    (Cell { marked: true, ..old(cells)@[i] }),
                )
                &&& final(work)@ == old(work)@.push(i as usize)
            } else {
                final(cells)@ == old(cells)@ && final(work)@ == old(work)@
            }
        }),
{
    if let Some(address) = value.as_heap() {
        if address >= 16 && address % 16 == 0 {
            let at: u64 = address / 16 - 1;
            if at < cells.len() as u64 {
                let i: usize = at as usize;
                if cells[i].live && !cells[i].marked {
                    cells[i].marked = true;
                    work.push(i);
                }
            }
        }
    }
}

/// Shading a value that every tracing set must hold keeps marking on course.
proof fn lemma_shaded(
    m: HeapModel,
    start: Seq<Cell>,
    cells: Seq<Cell>,
    work: Seq<usize>,
    busy: Option<usize>,
    value: Value,
    after: Seq<Cell>,
    queue: Seq<usize>,
)
    requires
        marking(m, start, cells, work, busy),
        same_but_marks(after, cells),
        ({
            let fresh = value@ matches Unpacked::Heap(a) && occupied(cells, a) && !cells[index_at(
                a,
            )].marked;
            if fresh {
                let i = index_at(value@->Heap_0);
                &&& after == cells.update(i, (Cell { marked: true, ..cells[i] }))
                &&& queue == work.push(i as usize)
            } else {
                after == cells && queue == work
            }
        }),
        forall|s: Set<u64>| #[trigger]
            m.traces(s) ==> (value@ matches Unpacked::Heap(a) ==> s.contains(a)),
    ensures
        marking(m, start, after, queue, busy),
        forall|v: Value| covered(cells, v) ==> #[trigger] covered(after, v),
        unmarked_in(after, after.len() as int) + queue.len() == unmarked_in(
            cells,
            cells.len() as int,
        ) + work.len(),
        unmarked_in(after, after.len() as int) <= unmarked_in(cells, cells.len() as int),
{
    let fresh = value@ matches Unpacked::Heap(a) && occupied(cells, a) && !cells[index_at(
        a,
    )].marked;
    if fresh {
        let a = value@->Heap_0;
        let j = index_at(a);
        assert(address_of(j) == a);
        lemma_marking_shrinks(cells, j, cells.len() as int);
        assert forall|v: Value| covered(cells, v) implies #[trigger] covered(after, v) by {}
        assert forall|i: int| 0 <= i < after.len() && after[i].marked implies queue.contains(
            i as usize,
        ) || busy == Some(i as usize) || #[trigger] scanned(after, i) by {
            if i == j {
                assert(queue[work.len() as int] == j as usize);
            } else {
                assert(cells[i].marked);
                if work.contains(i as usize) {
                    let k = work.index_of(i as usize);
                    assert(queue[k] == i as usize);
                } else if busy != Some(i as usize) {
                    assert(scanned(cells, i));
                    assert(after[i].model() == cells[i].model());
                }
            }
        }
        assert forall|s: Set<u64>, i: int|
            m.traces(s) && 0 <= i < after.len() && after[i].marked implies #[trigger] s.contains(
            address_of(i),
        ) by {
            if i != j {
                assert(cells[i].marked);
            }
        }
        assert(same_but_marks(after, start)) by {
            assert forall|i: int| 0 <= i < after.len() implies #[trigger] after[i] == (Cell {
                marked: after[i].marked,
                ..start[i]
            }) by {
                assert(cells[i] == (Cell { marked: cells[i].marked, ..start[i] }));
            }
        }
        assert forall|k: int| 0 <= k < queue.len() implies #[trigger] queue[k] < after.len()
            && after[queue[k] as int].marked by {
            if k < work.len() {
                assert(queue[k] == work[k]);
            }
        }
    }
}

/// When nothing waits, the marked objects are the reachable ones.
proof fn lemma_marked_is_reachable(m: HeapModel, start: Seq<Cell>, cells: Seq<Cell>)
    requires
        marking(m, start, cells, Seq::empty(), None),
        forall|v: Value| #[trigger] m.is_root(v) ==> covered(cells, v),
    ensures
        forall|i: int|
            0 <= i < cells.len() && (#[trigger] cells[i]).live ==> (cells[i].marked <==> m.reachable(
                address_of(i),
            )),
{
    let kept = Set::new(|a: u64| occupied(cells, a) ==> cells[index_at(a)].marked);
    assert forall|a: u64| #[trigger] m.objects.contains_key(a) implies occupied(cells, a)
        && m.objects[a] == cells[index_at(a)].model() by {
        let i = index_at(a);
        assert(cells[i] == (Cell { marked: cells[i].marked, ..start[i] }));
    }
    assert(m.traces(kept)) by {
        assert forall|v: Value| #[trigger] m.is_root(v) implies (v@ matches Unpacked::Heap(a)
            ==> kept.contains(a)) by {
            assert(covered(cells, v));
        }
        assert forall|a: u64, v: Value|
            kept.contains(a) && m.objects.contains_key(a)
                && #[trigger] m.objects[a].points_to(v) implies (v@ matches Unpacked::Heap(b)
            ==> kept.contains(b)) by {
            let i = index_at(a);
            assert(cells[i].marked);
            assert(scanned(cells, i));
            assert(cells[i].model().points_to(v));
            assert(covered(cells, v));
        }
    }
    assert forall|i: int| 0 <= i < cells.len() && (#[trigger] cells[i]).live implies (
    cells[i].marked <==> m.reachable(address_of(i))) by {
        let a = address_of(i);
        assert(index_at(a) == i);
        assert(occupied(cells, a));
        if m.reachable(a) {
            assert(kept.contains(a));
        }
    }
}

// ---------------------------------------------------------------------------
// The heap
// ---------------------------------------------------------------------------

/// Objects, roots, and everything else a program's state is made of.
pub struct Heap {
    roots: Vec<Value>,
    cells: Vec<Cell>,
    /// How many cells hold an object.
    held: usize,
    /// Empty cells by size class, next one last.
    free: Vec<Vec<usize>>,
    /// Cells that large objects left.
    vacant: Vec<usize>,
    blocks: usize,
    large_objects: usize,
    live_bytes: u64,
    live_objects: usize,
    bytes_since_gc: u64,
    next_gc: u64,
    collections: u64,
    total_allocated: u64,
    classes: Classes,
    definitions: Definitions,
    regexps: Regexps,
    last_match: Value,
    symbols: Symbols,
}

/// A list of empty cells of one size, none twice.
spec fn free_list_ok(cells: Seq<Cell>, list: Seq<usize>, size: u64) -> bool {
    &&& list.no_duplicates()
    &&& forall|k: int|
        0 <= k < list.len() ==> {
            &&& #[trigger] list[k] < cells.len()
            &&& !cells[list[k] as int].live
            &&& cells[list[k] as int].size == size
        }
}

/// What holds of cells and the lists of empty ones.
spec fn cells_ok(cells: Seq<Cell>, free: Seq<Vec<usize>>, vacant: Seq<usize>) -> bool {
    &&& cells.len() <= MAX_CELLS
    &&& free.len() == 5
    &&& forall|c: int| 0 <= c < 5 ==> free_list_ok(cells, (#[trigger] free[c])@, cell_bytes(c))
    &&& free_list_ok(cells, vacant, 0)
    &&& forall|i: int| 0 <= i < cells.len() ==> !(#[trigger] cells[i]).marked
}

impl View for Heap {
    type V = HeapModel;

    closed spec fn view(&self) -> HeapModel {
        HeapModel {
            objects: objects_in(self.cells@),
            roots: self.roots@,
            classes: self.classes,
            definitions: self.definitions,
            regexps: self.regexps,
            last_match: self.last_match,
            symbols: self.symbols,
        }
    }
}

/// A sum that stops at the largest count.
pub open spec fn capped(n: int) -> u64 {
    if n > u64::MAX {
        u64::MAX
    } else {
        n as u64
    }
}

/// Shade every value of a list of roots.
fn shade_all(
    cells: &mut Vec<Cell>,
    work: &mut Vec<usize>,
    values: &Vec<Value>,
    Ghost(m): Ghost<HeapModel>,
    Ghost(start): Ghost<Seq<Cell>>,
)
    requires
        marking(m, start, old(cells)@, old(work)@, None),
        forall|v: Value| #[trigger] values@.contains(v) ==> m.is_root(v),
    ensures
        marking(m, start, final(cells)@, final(work)@, None),
        forall|v: Value| #[trigger] values@.contains(v) ==> covered(final(cells)@, v),
        forall|v: Value| covered(old(cells)@, v) ==> #[trigger] covered(final(cells)@, v),
{
    let mut k: usize = 0;
    while k < values.len()
        invariant
            k <= values.len(),
            marking(m, start, cells@, work@, None),
            forall|v: Value| #[trigger] values@.contains(v) ==> m.is_root(v),
            forall|j: int| 0 <= j < k ==> covered(cells@, #[trigger] values@[j]),
            forall|v: Value| covered(old(cells)@, v) ==> #[trigger] covered(cells@, v),
        decreases values.len() - k,
    {
        let value = values[k];
        let ghost before = cells@;
        let ghost queue = work@;
        assert(values@.contains(value));
        shade(cells, work, value);
        proof {
            lemma_shaded(m, start, before, queue, None, value, cells@, work@);
        }
        k += 1;
    }
}

/// Mark every object the roots reach.
fn mark(
    cells: &mut Vec<Cell>,
    roots: &Vec<Value>,
    classes: &Classes,
    regexps: &Regexps,
    last_match: Value,
    Ghost(m): Ghost<HeapModel>,
)
    requires
        m.objects == objects_in(old(cells)@),
        m.roots == roots@,
        m.classes == *classes,
        m.regexps == *regexps,
        m.last_match == last_match,
        regexps.wf(),
        old(cells)@.len() <= MAX_CELLS,
        forall|i: int| 0 <= i < old(cells)@.len() ==> !(#[trigger] old(cells)@[i]).marked,
    ensures
        same_but_marks(final(cells)@, old(cells)@),
        forall|i: int|
            0 <= i < final(cells)@.len() ==> {
                &&& (#[trigger] final(cells)@[i]).marked ==> final(cells)@[i].live
                &&& final(cells)@[i].live ==> (final(cells)@[i].marked <==> m.reachable(
                    address_of(i),
                ))
            },
{
    let ghost start = cells@;
    let mut work: Vec<usize> = Vec::new();
    let from_classes = classes.roots();
    let from_regexps = regexps.each_root();
    let total: usize = cells.len();
    assert(same_but_marks(cells@, start));
    shade_all(cells, &mut work, roots, Ghost(m), Ghost(start));
    shade_all(cells, &mut work, &from_classes, Ghost(m), Ghost(start));
    shade_all(cells, &mut work, &from_regexps, Ghost(m), Ghost(start));
    let ghost before = cells@;
    let ghost queue = work@;
    assert(m.is_root(last_match));
    shade(cells, &mut work, last_match);
    proof {
        lemma_shaded(m, start, before, queue, None, last_match, cells@, work@);
        assert forall|v: Value| #[trigger] m.is_root(v) implies covered(cells@, v) by {
            if roots@.contains(v) {
            } else if class::is_class_root(m.classes.table(), v) {
                assert(from_classes@.contains(v));
            } else if m.regexps.objects().contains_value(v) {
                assert(from_regexps@.contains(v));
            }
            assert(covered(before, v) || v == last_match);
        }
    }
    while work.len() > 0
        invariant
            marking(m, start, cells@, work@, None),
            forall|v: Value| #[trigger] m.is_root(v) ==> covered(cells@, v),
        decreases unmarked_in(cells@, cells@.len() as int), work@.len(),
    {
        let ghost at_top = cells@;
        let ghost waiting = work@;
        let popped = work.pop();
        let i: usize = popped.unwrap();
        let ghost address = address_of(i as int);
        proof {
            assert(waiting[waiting.len() - 1] == i);
            assert forall|j: int| 0 <= j < cells@.len() && cells@[j].marked implies work@.contains(
                j as usize,
            ) || Some(i) == Some(j as usize) || #[trigger] scanned(cells@, j) by {
                if waiting.contains(j as usize) {
                    let k = waiting.index_of(j as usize);
                    if k < waiting.len() - 1 {
                        assert(work@[k] == j as usize);
                    }
                }
            }
            assert forall|k: int| 0 <= k < work@.len() implies #[trigger] work@[k] < cells@.len()
                && cells@[work@[k] as int].marked by {
                assert(work@[k] == waiting[k]);
            }
            assert(marking(m, start, cells@, work@, Some(i)));
            assert(index_at(address) == i);
            assert(start[i as int].live);
            assert(m.objects.contains_key(address));
            assert(m.objects[address] == cells@[i as int].model());
        }
        let ghost object = cells@[i as int].model();
        if let Some(class) = cells[i].class {
            let ghost before = cells@;
            let ghost queue = work@;
            assert(object.points_to(class));
            shade(cells, &mut work, class);
            proof {
                assert forall|s: Set<u64>| #[trigger] m.traces(s) implies (class@ matches
                    Unpacked::Heap(a) ==> s.contains(a)) by {
                    assert(s.contains(address_of(i as int)));
                    assert(m.objects[address].points_to(class));
                }
                lemma_shaded(m, start, before, queue, Some(i), class, cells@, work@);
            }
        }
        let count: usize = match &cells[i].body {
            Body::Slots(slots) => slots.len(),
            Body::Bytes(_) => 0,
        };
        let mut k: usize = 0;
        while k < count
            invariant
                k <= count,
                marking(m, start, cells@, work@, Some(i)),
                forall|v: Value| #[trigger] m.is_root(v) ==> covered(cells@, v),
                i < cells@.len(),
                cells@[i as int].marked,
                address == address_of(i as int),
                m.objects.contains_key(address),
                m.objects[address] == object,
                cells@[i as int].model() == object,
                count == (match object.body {
                    BodyModel::Slots(slots) => slots.len(),
                    BodyModel::Bytes(_) => 0,
                }),
                object.class matches Some(c) ==> covered(cells@, c),
                object.body matches BodyModel::Slots(slots) ==> forall|j: int|
                    0 <= j < k ==> covered(cells@, #[trigger] slots[j]),
                unmarked_in(cells@, cells@.len() as int) + work@.len() + 1 == unmarked_in(
                    at_top,
                    at_top.len() as int,
                ) + waiting.len(),
                unmarked_in(cells@, cells@.len() as int) <= unmarked_in(
                    at_top,
                    at_top.len() as int,
                ),
            decreases count - k,
        {
            let value = match &cells[i].body {
                Body::Slots(slots) => slots[k],
                Body::Bytes(_) => Value::nil(),
            };
            let ghost before = cells@;
            let ghost queue = work@;
            proof {
                assert(object.body->Slots_0[k as int] == value);
                assert(object.points_to(value));
                assert forall|s: Set<u64>| #[trigger] m.traces(s) implies (value@ matches
                    Unpacked::Heap(a) ==> s.contains(a)) by {
                    assert(s.contains(address_of(i as int)));
                    assert(m.objects[address].points_to(value));
                }
            }
            shade(cells, &mut work, value);
            proof {
                lemma_shaded(m, start, before, queue, Some(i), value, cells@, work@);
                assert(cells@[i as int] == (Cell {
                    marked: cells@[i as int].marked,
                    ..before[i as int]
                }));
            }
            k += 1;
        }
        assert(scanned(cells@, i as int));
        assert(marking(m, start, cells@, work@, None));
    }
    proof {
        assert(work@ =~= Seq::<usize>::empty());
        lemma_marked_is_reachable(m, start, cells@);
    }
}

/// What sweeping makes of a cell.
spec fn is_swept(before: Cell, after: Cell) -> bool {
    if before.marked {
        after == (Cell { marked: false, ..before })
    } else {
        &&& !after.live
        &&& !after.marked
        &&& after.size == if before.size > MAX_CELL {
            0
        } else {
            before.size
        }
    }
}

/// How many cells from `i` on hold an object.
spec fn live_from(cells: Seq<Cell>, i: int) -> nat
    decreases cells.len() - i,
{
    if i >= cells.len() {
        0
    } else {
        live_from(cells, i + 1) + if cells[i].live {
            1nat
        } else {
            0
        }
    }
}

/// The bytes of the cells from `i` on that hold an object.
spec fn bytes_from(cells: Seq<Cell>, i: int) -> nat
    decreases cells.len() - i,
{
    if i >= cells.len() {
        0
    } else {
        bytes_from(cells, i + 1) + if cells[i].live {
            cells[i].size as nat
        } else {
            0
        }
    }
}

proof fn lemma_live_from_same(a: Seq<Cell>, b: Seq<Cell>, i: int)
    requires
        0 <= i,
        a.len() == b.len(),
        forall|j: int| i <= j < a.len() ==> #[trigger] a[j] == b[j],
    ensures
        live_from(a, i) == live_from(b, i),
        bytes_from(a, i) == bytes_from(b, i),
    decreases a.len() - i,
{
    if i < a.len() {
        lemma_live_from_same(a, b, i + 1);
        assert(a[i] == b[i]);
    }
}

/// The addresses of the objects from cell `i` on.
spec fn addresses_from(cells: Seq<Cell>, i: int) -> Set<u64> {
    Set::new(|a: u64| occupied(cells, a) && index_at(a) >= i)
}

/// There are as many objects as cells that hold one.
proof fn lemma_live_count(cells: Seq<Cell>, i: int)
    requires
        0 <= i <= cells.len() <= MAX_CELLS,
    ensures
        addresses_from(cells, i).finite(),
        addresses_from(cells, i).len() == live_from(cells, i),
    decreases cells.len() - i,
{
    let here = addresses_from(cells, i);
    if i == cells.len() {
        assert(here =~= Set::<u64>::empty());
    } else {
        lemma_live_count(cells, i + 1);
        let fewer = addresses_from(cells, i + 1);
        let a = address_of(i);
        assert(index_at(a) == i);
        if cells[i].live {
            assert(here =~= fewer.insert(a)) by {
                assert forall|x: u64| here.contains(x) implies fewer.insert(a).contains(x) by {
                    if index_at(x) == i {
                        assert(x == a);
                    }
                }
            }
            assert(!fewer.contains(a));
        } else {
            assert(here =~= fewer);
        }
    }
}

/// Putting one more empty cell of its size on a list keeps the list in order.
proof fn lemma_listed(cells: Seq<Cell>, list: Seq<usize>, size: u64, i: usize)
    requires
        free_list_ok(cells, list, size),
        i < cells.len(),
        !cells[i as int].live,
        cells[i as int].size == size,
        forall|k: int| 0 <= k < list.len() ==> #[trigger] list[k] > i,
    ensures
        free_list_ok(cells, list.push(i), size),
{
}

/// There are no more objects than cells.
proof fn lemma_live_below(cells: Seq<Cell>, i: int)
    requires
        0 <= i <= cells.len(),
    ensures
        live_from(cells, i) <= cells.len() - i,
    decreases cells.len() - i,
{
    if i < cells.len() {
        lemma_live_below(cells, i + 1);
    }
}

/// There are fewer objects than cells where a cell is empty.
proof fn lemma_vacant(cells: Seq<Cell>, empty: int, i: int)
    requires
        0 <= i <= empty < cells.len(),
        !cells[empty].live,
    ensures
        live_from(cells, i) < cells.len() - i,
    decreases cells.len() - i,
{
    if i < empty {
        lemma_vacant(cells, empty, i + 1);
    } else {
        lemma_live_below(cells, i + 1);
    }
}

/// Changing a cell that is on no list keeps the lists in order.
proof fn lemma_unlisted(before: Seq<Cell>, cells: Seq<Cell>, list: Seq<usize>, size: u64, i: int)
    requires
        free_list_ok(before, list, size),
        cells.len() >= before.len(),
        forall|j: int| 0 <= j < before.len() && j != i ==> #[trigger] cells[j] == before[j],
        forall|k: int| 0 <= k < list.len() ==> #[trigger] list[k] != i,
    ensures
        free_list_ok(cells, list, size),
{
    assert forall|k: int| 0 <= k < list.len() implies {
        &&& #[trigger] list[k] < cells.len()
        &&& !cells[list[k] as int].live
        &&& cells[list[k] as int].size == size
    } by {
        assert(cells[list[k] as int] == before[list[k] as int]);
    }
}

/// Empty every cell that is not marked, and take the marks off the others.
fn sweep(cells: &mut Vec<Cell>, free: &mut Vec<Vec<usize>>, vacant: &mut Vec<usize>) -> (r: (
    u64,
    usize,
    usize,
))
    requires
        old(cells)@.len() <= MAX_CELLS,
        forall|i: int|
            0 <= i < old(cells)@.len() && (#[trigger] old(cells)@[i]).marked ==> old(
                cells,
            )@[i].live,
    ensures
        cells_ok(final(cells)@, final(free)@, final(vacant)@),
        final(cells)@.len() == old(cells)@.len(),
        forall|i: int|
            0 <= i < old(cells)@.len() ==> is_swept(
                old(cells)@[i],
                #[trigger] final(cells)@[i],
            ),
        r.0 == capped(bytes_from(final(cells)@, 0) as int),
        r.1 == objects_in(final(cells)@).dom().len(),
        r.2 <= final(cells)@.len(),
{
    let ghost before = cells@;
    let mut lists: Vec<Vec<usize>> = Vec::new();
    lists.push(Vec::new());
    lists.push(Vec::new());
    lists.push(Vec::new());
    lists.push(Vec::new());
    lists.push(Vec::new());
    let mut left: Vec<usize> = Vec::new();
    let mut bytes: u64 = 0;
    let mut objects: usize = 0;
    let mut large: usize = 0;
    let total: usize = cells.len();
    let mut i: usize = total;
    while i > 0
        invariant
            i <= total,
            total == cells@.len(),
            total == before.len(),
            total <= MAX_CELLS,
            lists@.len() == 5,
            forall|j: int| 0 <= j < i ==> #[trigger] cells@[j] == before[j],
            forall|j: int| i <= j < total ==> is_swept(before[j], #[trigger] cells@[j]),
            forall|j: int| 0 <= j < total && (#[trigger] before[j]).marked ==> before[j].live,
            forall|c: int|
                0 <= c < 5 ==> free_list_ok(cells@, (#[trigger] lists@[c])@, cell_bytes(c)),
            free_list_ok(cells@, left@, 0),
            forall|c: int, k: int|
                0 <= c < 5 && 0 <= k < lists@[c]@.len() ==> #[trigger] lists@[c]@[k] >= i,
            forall|k: int| 0 <= k < left@.len() ==> #[trigger] left@[k] >= i,
            objects == live_from(cells@, i as int),
            bytes == capped(bytes_from(cells@, i as int) as int),
            objects <= total - i,
            large <= total - i,
        decreases i,
    {
        i -= 1;
        let ghost earlier = cells@;
        let size: u64 = cells[i].size;
        if cells[i].marked {
            cells[i].marked = false;
            bytes = bytes.saturating_add(size);
            objects += 1;
            if size > MAX_CELL {
                large += 1;
            }
        } else {
            let kept: u64 = if size > MAX_CELL {
                0
            } else {
                size
            };
            let empty = Cell {
                live: false,
                marked: false,
                frozen: false,
                class: None,
                body: Body::Slots(Vec::new()),
                size: kept,
            };
            cells[i] = empty;
        }
        proof {
            lemma_live_from_same(earlier, cells@, i + 1);
            assert forall|c: int| 0 <= c < 5 implies free_list_ok(
                cells@,
                (#[trigger] lists@[c])@,
                cell_bytes(c),
            ) by {
                assert forall|k: int| 0 <= k < lists@[c]@.len() implies #[trigger] lists@[c]@[k]
                    != i by {
                    assert(lists@[c]@[k] >= i + 1);
                }
                lemma_unlisted(earlier, cells@, lists@[c]@, cell_bytes(c), i as int);
            }
            lemma_unlisted(earlier, cells@, left@, 0, i as int);
        }
        if !cells[i].live {
            let ghost waiting = lists@;
            let kept: u64 = cells[i].size;
            if kept == 0 {
                left.push(i);
            } else {
                match size_class(kept) {
                    Some(c) => {
                        if cell_size(c) == kept {
                            proof {
                                assert forall|k: int|
                                    0 <= k < lists@[c as int]@.len() implies #[trigger] lists@[c as int]@[k]
                                    > i by {
                                    assert(lists@[c as int]@[k] >= i + 1);
                                }
                                lemma_listed(cells@, lists@[c as int]@, kept, i);
                            }
                            lists[c].push(i);
                            proof {
                                assert forall|d: int| 0 <= d < 5 implies free_list_ok(
                                    cells@,
                                    (#[trigger] lists@[d])@,
                                    cell_bytes(d),
                                ) by {
                                    if d != c {
                                        assert(lists@[d] == waiting[d]);
                                    }
                                }
                                assert forall|d: int, k: int|
                                    0 <= d < 5 && 0 <= k
                                        < lists@[d]@.len() implies #[trigger] lists@[d]@[k] >= i by {
                                    if d != c {
                                        assert(lists@[d] == waiting[d]);
                                        assert(waiting[d]@[k] >= i + 1);
                                    } else if k < waiting[d]@.len() {
                                        assert(waiting[d]@[k] >= i + 1);
                                    }
                                }
                            }
                        }
                    },
                    None => {},
                }
            }
        }
    }
    *free = lists;
    *vacant = left;
    proof {
        lemma_live_count(cells@, 0);
        assert(addresses_from(cells@, 0) =~= objects_in(cells@).dom());
        assert forall|j: int| 0 <= j < cells@.len() implies !(#[trigger] cells@[j]).marked by {
            assert(is_swept(before[j], cells@[j]));
        }
    }
    (bytes, objects, large)
}

/// What a fresh heap is: in order, with nothing in it and nothing counted.
pub open spec fn empty_heap(r: Heap) -> bool {
    &&& r.wf()
    &&& r.room() == MAX_CELLS / 2048
    &&& r@.sound()
    &&& r@.objects == Map::<u64, Object>::empty()
    &&& r@.roots == Seq::<Value>::empty()
    &&& r@.classes.wf()
    &&& r@.classes.table() == Seq::<class::ClassModel>::empty()
    &&& r@.classes.scopes() == Seq::<class::CrefNode>::empty()
    &&& r@.classes.cached() == Map::<u64, Option<class::Method>>::empty()
    &&& r@.classes.generation() == 0
    &&& r@.classes.stamps() == Seq::<u64>::empty()
    &&& r@.definitions.wf()
    &&& r@.definitions.all() == Seq::<Definition>::empty()
    &&& r@.definitions.keyed() == Map::<usize, Value>::empty()
    &&& r@.definitions.children() == Map::<u128, usize>::empty()
    &&& r@.regexps.wf()
    &&& r@.regexps.patterns() == Seq::<Pattern>::empty()
    &&& r@.regexps.objects() == Map::<(Seq<char>, i64), Value>::empty()
    &&& r@.last_match == Value::pack(Unpacked::Nil)
    &&& r@.symbols.wf()
    &&& r@.symbols@ == Seq::<Seq<char>>::empty()
    &&& r.counters() == Stats {
        live_objects: 0,
        live_bytes: 0,
        collections: 0,
        blocks: 0,
        large_objects: 0,
        total_allocated: 0,
    }
    &&& r.pending() == 0
    &&& r.threshold() == MIN_GC_BYTES
}

/// What a heap has counted, and what collecting goes by.
pub struct Accounts {
    /// What [`Heap::stats`] reports.
    pub counters: Stats,
    /// The bytes allocated since the last collection.
    pub pending: u64,
    /// The bytes after which the next allocation collects first.
    pub threshold: u64,
}

impl Heap {
    pub closed spec fn wf(&self) -> bool {
        &&& cells_ok(self.cells@, self.free@, self.vacant@)
        &&& self.held == objects_in(self.cells@).dom().len()
        &&& self.classes.wf()
        &&& self.definitions.wf()
        &&& self.regexps.wf()
        &&& self.symbols.wf()
    }

    /// What [`Heap::stats`] reports.
    pub closed spec fn counters(&self) -> Stats {
        Stats {
            live_objects: self.live_objects,
            live_bytes: self.live_bytes,
            collections: self.collections,
            blocks: self.blocks,
            large_objects: self.large_objects,
            total_allocated: self.total_allocated,
        }
    }

    /// The bytes allocated since the last collection.
    pub closed spec fn pending(&self) -> u64 {
        self.bytes_since_gc
    }

    /// The bytes after which the next allocation collects first.
    pub closed spec fn threshold(&self) -> u64 {
        self.next_gc
    }

    /// The bytes of the cells that hold an object.
    pub closed spec fn occupied_bytes(&self) -> int {
        bytes_from(self.cells@, 0) as int
    }

    /// Whether the next allocation collects first.
    pub open spec fn due(&self) -> bool {
        self.pending() >= self.threshold()
    }

    /// All that the heap counts and that collecting goes by.
    pub open spec fn accounts(&self) -> Accounts {
        Accounts {
            counters: self.counters(),
            pending: self.pending(),
            threshold: self.threshold(),
        }
    }

    /// How many more objects there are addresses for, whatever their sizes.
    pub closed spec fn room(&self) -> int {
        (MAX_CELLS - self.cells@.len()) / 2048
    }

    /// Whether there are addresses for another object.
    pub open spec fn roomy(&self) -> bool {
        self.room() >= 1
    }

    /// An empty heap.
    pub fn new() -> (r: Heap)
        ensures
            empty_heap(r),
    {
        let mut free: Vec<Vec<usize>> = Vec::new();
        free.push(Vec::new());
        free.push(Vec::new());
        free.push(Vec::new());
        free.push(Vec::new());
        free.push(Vec::new());
        let heap = Heap {
            roots: Vec::new(),
            cells: Vec::new(),
            held: 0,
            free,
            vacant: Vec::new(),
            blocks: 0,
            large_objects: 0,
            live_bytes: 0,
            live_objects: 0,
            bytes_since_gc: 0,
            next_gc: MIN_GC_BYTES,
            collections: 0,
            total_allocated: 0,
            classes: Classes::new(),
            definitions: Definitions::new(),
            regexps: Regexps::new(),
            last_match: Value::nil(),
            symbols: Symbols::new(),
        };
        assert(heap@.objects =~= Map::<u64, Object>::empty());
        assert(objects_in(heap.cells@).dom() =~= Set::<u64>::empty());
        heap
    }

    /// The class table.
    pub fn classes(&self) -> (r: &Classes)
        ensures
            *r == self@.classes,
    {
        &self.classes
    }

    /// The class table, to change.
    pub fn classes_mut(&mut self) -> (r: &mut Classes)
        ensures
            *r == old(self)@.classes,
            final(self)@ == (HeapModel { classes: *final(r), ..old(self)@ }),
            final(self).room() == old(self).room(),
            final(self).accounts() == old(self).accounts(),
            old(self).wf() && final(r).wf() ==> final(self).wf(),
            old(self)@.sound() && old(self)@.keeps_classes(*final(r)) ==> final(self)@.sound(),
    {
        proof {
            if self@.sound() {
                lemma_other_tables(self@);
            }
        }
        &mut self.classes
    }

    /// The body table.
    pub fn definitions(&self) -> (r: &Definitions)
        ensures
            *r == self@.definitions,
    {
        &self.definitions
    }

    /// The body table, to change.
    pub fn definitions_mut(&mut self) -> (r: &mut Definitions)
        ensures
            *r == old(self)@.definitions,
            final(self)@ == (HeapModel { definitions: *final(r), ..old(self)@ }),
            final(self).room() == old(self).room(),
            final(self).accounts() == old(self).accounts(),
            old(self).wf() && final(r).wf() ==> final(self).wf(),
            old(self)@.sound() ==> final(self)@.sound(),
    {
        proof {
            if self@.sound() {
                lemma_other_tables(self@);
            }
        }
        &mut self.definitions
    }

    /// The pattern table.
    pub fn regexps(&self) -> (r: &Regexps)
        ensures
            *r == self@.regexps,
    {
        &self.regexps
    }

    /// The pattern table, to change.
    pub fn regexps_mut(&mut self) -> (r: &mut Regexps)
        ensures
            *r == old(self)@.regexps,
            final(self)@ == (HeapModel { regexps: *final(r), ..old(self)@ }),
            final(self).room() == old(self).room(),
            final(self).accounts() == old(self).accounts(),
            old(self).wf() && final(r).wf() ==> final(self).wf(),
            old(self)@.sound() && old(self)@.keeps_regexps(*final(r)) ==> final(self)@.sound(),
    {
        proof {
            if self@.sound() {
                lemma_other_tables(self@);
            }
        }
        &mut self.regexps
    }

    /// The symbol table.
    pub fn symbols(&self) -> (r: &Symbols)
        ensures
            *r == self@.symbols,
    {
        &self.symbols
    }

    /// What the last match left: a `MatchData`, or `nil`.
    pub fn last_match(&self) -> (r: Value)
        ensures
            r == self@.last_match,
    {
        self.last_match
    }

    /// Set what the last match left.
    pub fn set_last_match(&mut self, value: Value)
        ensures
            final(self)@ == (HeapModel { last_match: value, ..old(self)@ }),
            final(self).room() == old(self).room(),
            final(self).accounts() == old(self).accounts(),
            old(self).wf() ==> final(self).wf(),
            old(self)@.sound() && old(self)@.live(value) ==> final(self)@.sound(),
    {
        self.last_match = value;
        proof {
            if old(self)@.sound() && old(self)@.live(value) {
                lemma_matched_is_sound(old(self)@, value);
            }
        }
    }

    /// What the heap has done and holds.
    pub fn stats(&self) -> (r: Stats)
        ensures
            r == self.counters(),
    {
        Stats {
            live_objects: self.live_objects,
            live_bytes: self.live_bytes,
            collections: self.collections,
            blocks: self.blocks,
            large_objects: self.large_objects,
            total_allocated: self.total_allocated,
        }
    }

    /// Whether there are addresses for another object.
    pub fn has_room(&self) -> (r: bool)
        ensures
            r == self.roomy(),
    {
        self.cells.len() as u64 <= MAX_CELLS - 2048
    }

    /// The bytes an object takes.
    pub fn object_size(payload: Payload, len: u32) -> (r: u64)
        ensures
            r == object_bytes(payload, len),
            r % 8 == 0,
    {
        let body: u64 = match payload {
            Payload::Slots => len as u64 * 8,
            Payload::Bytes => (len as u64 + 7) / 8 * 8,
        };
        HEADER_SIZE + body
    }

    /// Free every object the roots do not reach.
    pub fn collect(&mut self)
        requires
            old(self).wf(),
        ensures
            final(self).wf(),
            final(self)@ == old(self)@.collected(),
            final(self).room() == old(self).room(),
            swept(*old(self), *final(self)),
            final(self).counters().live_bytes == capped(final(self).occupied_bytes()),
    {
        let ghost m = self@;
        mark(
            &mut self.cells,
            &self.roots,
            &self.classes,
            &self.regexps,
            self.last_match,
            Ghost(m),
        );
        let ghost marked = self.cells@;
        let (live_bytes, live_objects, large_objects) = sweep(
            &mut self.cells,
            &mut self.free,
            &mut self.vacant,
        );
        self.live_bytes = live_bytes;
        self.live_objects = live_objects;
        self.held = live_objects;
        self.large_objects = large_objects;
        self.collections = self.collections.wrapping_add(1);
        self.bytes_since_gc = 0;
        let twice: u64 = if self.live_bytes > u64::MAX / 2 {
            u64::MAX
        } else {
            self.live_bytes * 2
        };
        self.next_gc = if twice > MIN_GC_BYTES {
            twice
        } else {
            MIN_GC_BYTES
        };
        assert(self@ =~= m.collected());
    }

    /// An empty cell of a size class, taken off its list.
    fn cell_from_free_list(&mut self, class_index: usize) -> (r: usize)
        requires
            cells_ok(old(self).cells@, old(self).free@, old(self).vacant@),
            old(self).cells@.len() + 2048 <= MAX_CELLS,
            class_index < 5,
        ensures
            taken(*old(self), *final(self), r),
            final(self).cells@[r as int].size == cell_bytes(class_index as int),
            final(self).large_objects == old(self).large_objects,
            final(self).blocks == old(self).blocks || final(self).blocks == old(
                self,
            ).blocks.saturating_add(1),
    {
        if self.free[class_index].len() == 0 {
            self.add_block(class_index);
        }
        let ghost lists = self.free@;
        let ghost list = lists[class_index as int]@;
        assert(free_list_ok(self.cells@, list, cell_bytes(class_index as int)));
        let popped = self.free[class_index].pop();
        let i: usize = popped.unwrap();
        proof {
            assert(list[list.len() - 1] == i);
            assert forall|c: int| 0 <= c < 5 implies free_list_ok(
                self.cells@,
                (#[trigger] self.free@[c])@,
                cell_bytes(c),
            ) && !self.free@[c]@.contains(i) by {
                if c == class_index {
                    let now = self.free@[c]@;
                    assert(now =~= list.take(list.len() - 1));
                    assert forall|k: int| 0 <= k < now.len() implies {
                        &&& #[trigger] now[k] < self.cells@.len()
                        &&& !self.cells@[now[k] as int].live
                        &&& self.cells@[now[k] as int].size == cell_bytes(c)
                    } by {
                        assert(now[k] == list[k]);
                    }
                    if now.contains(i) {
                        let k = now.index_of(i);
                        assert(list[k] == i);
                    }
                } else {
                    assert(self.free@[c] == lists[c]);
                    assert(free_list_ok(self.cells@, lists[c]@, cell_bytes(c)));
                    if lists[c]@.contains(i) {
                        let k = lists[c]@.index_of(i);
                        assert(self.cells@[lists[c]@[k] as int].size == cell_bytes(c));
                    }
                }
            }
            if self.vacant@.contains(i) {
                let k = self.vacant@.index_of(i);
                assert(self.cells@[self.vacant@[k] as int].size == 0);
            }
        }
        i
    }

    /// Add a block of empty cells of a size class.
    fn add_block(&mut self, class_index: usize)
        requires
            cells_ok(old(self).cells@, old(self).free@, old(self).vacant@),
            old(self).cells@.len() + 2048 <= MAX_CELLS,
            class_index < 5,
            old(self).free@[class_index as int]@.len() == 0,
        ensures
            cells_ok(final(self).cells@, final(self).free@, final(self).vacant@),
            objects_in(final(self).cells@) == objects_in(old(self).cells@),
            final(self).cells@.len() <= old(self).cells@.len() + 2048,
            final(self).free@[class_index as int]@.len() > 0,
            final(self).blocks == old(self).blocks.saturating_add(1),
            final(self).roots == old(self).roots,
            final(self).held == old(self).held,
            final(self).large_objects == old(self).large_objects,
            final(self).live_bytes == old(self).live_bytes,
            final(self).live_objects == old(self).live_objects,
            final(self).bytes_since_gc == old(self).bytes_since_gc,
            final(self).next_gc == old(self).next_gc,
            final(self).collections == old(self).collections,
            final(self).total_allocated == old(self).total_allocated,
            final(self).classes == old(self).classes,
            final(self).definitions == old(self).definitions,
            final(self).regexps == old(self).regexps,
            final(self).last_match == old(self).last_match,
            final(self).symbols == old(self).symbols,
    {
        let size: u64 = cell_size(class_index);
        let count: usize = (BLOCK_SIZE / size) as usize;
        assert(128 <= count <= 2048);
        self.blocks = self.blocks.saturating_add(1);
        let first: usize = self.cells.len();
        let ghost before = self.cells@;
        let ghost lists = self.free@;
        extend(&mut self.cells, count, size);
        let total: usize = self.cells.len();
        let mut list: Vec<usize> = Vec::new();
        let mut j: usize = count;
        while j > 0
            invariant
                j <= count,
                first + count == total,
                list@.len() == count - j,
                forall|k: int| 0 <= k < list@.len() ==> #[trigger] list@[k] == total - 1 - k,
            decreases j,
        {
            j -= 1;
            list.push(first + j);
        }
        self.free[class_index] = list;
        proof {
            assert(objects_in(self.cells@) =~= objects_in(before));
            assert forall|c: int| 0 <= c < 5 implies free_list_ok(
                self.cells@,
                (#[trigger] self.free@[c])@,
                cell_bytes(c),
            ) by {
                if c != class_index {
                    assert(self.free@[c] == lists[c]);
                    assert(free_list_ok(before, lists[c]@, cell_bytes(c)));
                    lemma_unlisted(before, self.cells@, lists[c]@, cell_bytes(c), -1);
                }
            }
            lemma_unlisted(before, self.cells@, self.vacant@, 0, -1);
            assert forall|i: int| 0 <= i < self.cells@.len() implies !(
            #[trigger] self.cells@[i]).marked by {
                if i < before.len() {
                    assert(self.cells@[i] == before[i]);
                }
            }
        }
    }

    /// A cell for an object of its own size.
    fn large_object(&mut self) -> (r: usize)
        requires
            cells_ok(old(self).cells@, old(self).free@, old(self).vacant@),
            old(self).cells@.len() + 2048 <= MAX_CELLS,
        ensures
            taken(*old(self), *final(self), r),
            final(self).blocks == old(self).blocks,
            final(self).large_objects == old(self).large_objects.saturating_add(1),
    {
        self.large_objects = self.large_objects.saturating_add(1);
        let ghost before = self.cells@;
        let ghost lists = self.free@;
        let ghost left = self.vacant@;
        if self.vacant.len() == 0 {
            let at: usize = self.cells.len();
            extend(&mut self.cells, 1, 0);
            let total: usize = self.cells.len();
            proof {
                assert(objects_in(self.cells@) =~= objects_in(before));
                assert forall|c: int| 0 <= c < 5 implies free_list_ok(
                    self.cells@,
                    (#[trigger] self.free@[c])@,
                    cell_bytes(c),
                ) && !self.free@[c]@.contains(at) by {
                    assert(free_list_ok(before, lists[c]@, cell_bytes(c)));
                    lemma_unlisted(before, self.cells@, lists[c]@, cell_bytes(c), -1);
                    if lists[c]@.contains(at) {
                        let k = lists[c]@.index_of(at);
                        assert(lists[c]@[k] < before.len());
                    }
                }
                assert(self.vacant@ =~= Seq::<usize>::empty());
                assert forall|i: int| 0 <= i < self.cells@.len() implies !(
                #[trigger] self.cells@[i]).marked by {
                    if i < before.len() {
                        assert(self.cells@[i] == before[i]);
                    }
                }
            }
            return at;
        }
        let popped = self.vacant.pop();
        let i: usize = popped.unwrap();
        proof {
            assert(left[left.len() - 1] == i);
            let now = self.vacant@;
            assert(now =~= left.take(left.len() - 1));
            assert forall|k: int| 0 <= k < now.len() implies {
                &&& #[trigger] now[k] < self.cells@.len()
                &&& !self.cells@[now[k] as int].live
                &&& self.cells@[now[k] as int].size == 0
            } by {
                assert(now[k] == left[k]);
            }
            if now.contains(i) {
                let k = now.index_of(i);
                assert(left[k] == i);
            }
            assert forall|c: int| 0 <= c < 5 implies !(#[trigger] self.free@[c])@.contains(i) by {
                assert(free_list_ok(before, lists[c]@, cell_bytes(c)));
                if lists[c]@.contains(i) {
                    let k = lists[c]@.index_of(i);
                    assert(self.cells@[lists[c]@[k] as int].size == cell_bytes(c));
                }
            }
        }
        i
    }

    /// A new object. A collection that is due happens first.
    fn allocate(&mut self, class: Option<Value>, payload: Payload, len: u32) -> (r: Value)
        requires
            old(self).wf(),
            old(self).roomy(),
        ensures
            final(self).wf(),
            allocated(*old(self), *final(self), class, payload, len, r),
            final(self).room() >= old(self).room() - 1,
    {
        let size: u64 = Heap::object_size(payload, len);
        if self.bytes_since_gc >= self.next_gc {
            self.collect();
        }
        let ghost mid = *self;
        self.bytes_since_gc = self.bytes_since_gc.saturating_add(size);
        self.total_allocated = self.total_allocated.wrapping_add(1);
        let (i, room): (usize, u64) = match size_class(size) {
            Some(c) => (self.cell_from_free_list(c), cell_size(c)),
            None => (self.large_object(), size),
        };
        let body = match payload {
            Payload::Slots => Body::Slots(nils(len)),
            Payload::Bytes => Body::Bytes(zeros(len)),
        };
        let cell = Cell { live: true, marked: false, frozen: false, class, body, size: room };
        let ghost before = self.cells@;
        let ghost lists = self.free@;
        self.cells[i] = cell;
        proof {
            lemma_live_count(before, 0);
            assert(addresses_from(before, 0) =~= objects_in(before).dom());
            lemma_vacant(before, i as int, 0);
            assert(self.held == objects_in(before).dom().len());
            assert(self.cells.len() == before.len());
        }
        self.held = self.held + 1;
        let address: u64 = (i as u64 + 1) * 16;
        proof {
            assert(cell.model() =~= fresh_object(class, payload, len));
            assert forall|c: int| 0 <= c < 5 implies free_list_ok(
                self.cells@,
                (#[trigger] self.free@[c])@,
                cell_bytes(c),
            ) by {
                assert(free_list_ok(before, lists[c]@, cell_bytes(c)));
                assert forall|k: int| 0 <= k < lists[c]@.len() implies #[trigger] lists[c]@[k]
                    != i by {
                    if lists[c]@[k] == i {
                        assert(lists[c]@.contains(i));
                    }
                }
                lemma_unlisted(before, self.cells@, lists[c]@, cell_bytes(c), i as int);
            }
            assert forall|k: int| 0 <= k < self.vacant@.len() implies #[trigger] self.vacant@[k]
                != i by {
                if self.vacant@[k] == i {
                    assert(self.vacant@.contains(i));
                }
            }
            lemma_unlisted(before, self.cells@, self.vacant@, 0, i as int);
            assert(index_at(address) == i);
            assert(objects_in(self.cells@) =~= objects_in(before).insert(address, cell.model())) by {
                assert forall|a: u64| #[trigger]
                    objects_in(self.cells@).contains_key(a) <==> objects_in(before).insert(
                        address,
                        cell.model(),
                    ).contains_key(a) by {
                    if occupied(self.cells@, a) && index_at(a) == i {
                        assert(a == address);
                    }
                }
            }
            assert(!objects_in(before).contains_key(address));
            assert(objects_in(self.cells@).dom() =~= objects_in(before).dom().insert(address));
            assert(self@ =~= (HeapModel {
                objects: mid@.objects.insert(address, fresh_object(class, payload, len)),
                ..mid@
            }));
        }
        Value::heap(address)
    }
}

/// A vector of `nil`s.
fn nils(len: u32) -> (r: Vec<Value>)
    ensures
        r@ =~= Seq::new(len as nat, |i: int| Value::pack(Unpacked::Nil)),
{
    let mut out: Vec<Value> = Vec::with_capacity(len as usize);
    let mut i: u32 = 0;
    while i < len
        invariant
            i <= len,
            out@.len() == i,
            forall|k: int| 0 <= k < i ==> out@[k] == Value::pack(Unpacked::Nil),
        decreases len - i,
    {
        out.push(Value::nil());
        i += 1;
    }
    out
}

/// A vector of zeros.
fn zeros(len: u32) -> (r: Vec<u8>)
    ensures
        r@ =~= Seq::new(len as nat, |i: int| 0u8),
{
    let mut out: Vec<u8> = Vec::with_capacity(len as usize);
    let mut i: u32 = 0;
    while i < len
        invariant
            i <= len,
            out@.len() == i,
            forall|k: int| 0 <= k < i ==> out@[k] == 0u8,
        decreases len - i,
    {
        out.push(0);
        i += 1;
    }
    out
}

/// Add empty cells of a size.
fn extend(cells: &mut Vec<Cell>, count: usize, size: u64)
    ensures
        final(cells)@.len() == old(cells)@.len() + count,
        forall|i: int| 0 <= i < old(cells)@.len() ==> #[trigger] final(cells)@[i] == old(cells)@[i],
        forall|i: int|
            old(cells)@.len() <= i < final(cells)@.len() ==> {
                &&& !(#[trigger] final(cells)@[i]).live
                &&& !final(cells)@[i].marked
                &&& final(cells)@[i].size == size
            },
{
    let mut k: usize = 0;
    let ghost n = cells@.len();
    while k < count
        invariant
            k <= count,
            n == old(cells)@.len(),
            cells@.len() == n + k,
            forall|i: int| 0 <= i < n ==> #[trigger] cells@[i] == old(cells)@[i],
            forall|i: int|
                n <= i < cells@.len() ==> {
                    &&& !(#[trigger] cells@[i]).live
                    &&& !cells@[i].marked
                    &&& cells@[i].size == size
                },
        decreases count - k,
    {
        cells.push(
            Cell {
                live: false,
                marked: false,
                frozen: false,
                class: None,
                body: Body::Slots(Vec::new()),
                size,
            },
        );
        k += 1;
    }
}

/// An empty cell taken off the lists, with all else as it was.
spec fn taken(before: Heap, after: Heap, i: usize) -> bool {
    &&& cells_ok(after.cells@, after.free@, after.vacant@)
    &&& objects_in(after.cells@) == objects_in(before.cells@)
    &&& after.cells@.len() <= before.cells@.len() + 2048
    &&& i < after.cells@.len()
    &&& !after.cells@[i as int].live
    &&& forall|c: int| 0 <= c < 5 ==> !(#[trigger] after.free@[c])@.contains(i)
    &&& !after.vacant@.contains(i)
    &&& after.roots == before.roots
    &&& after.held == before.held
    &&& after.live_bytes == before.live_bytes
    &&& after.live_objects == before.live_objects
    &&& after.bytes_since_gc == before.bytes_since_gc
    &&& after.next_gc == before.next_gc
    &&& after.collections == before.collections
    &&& after.total_allocated == before.total_allocated
    &&& after.classes == before.classes
    &&& after.definitions == before.definitions
    &&& after.regexps == before.regexps
    &&& after.last_match == before.last_match
    &&& after.symbols == before.symbols
}

/// The bytes after which a collection that leaves so many live lets the next
/// one come.
pub open spec fn next_threshold(live_bytes: u64) -> u64 {
    if capped(2 * live_bytes) > MIN_GC_BYTES {
        capped(2 * live_bytes)
    } else {
        MIN_GC_BYTES
    }
}

/// What a collection counts.
pub open spec fn swept(before: Heap, after: Heap) -> bool {
    &&& after.pending() == 0
    &&& after.threshold() == next_threshold(after.counters().live_bytes)
    &&& after.counters().collections == before.counters().collections.wrapping_add(1)
    &&& after.counters().total_allocated == before.counters().total_allocated
    &&& after.counters().blocks == before.counters().blocks
    &&& after.counters().live_objects == before@.collected().objects.dom().len()
}

/// What an allocation counts: one object more, and the collection that it made
/// first where one was due. What is live is counted by collections alone.
pub open spec fn tallied(before: Heap, after: Heap, payload: Payload, len: u32) -> bool {
    let was = before.counters();
    let now = after.counters();
    &&& now.total_allocated == was.total_allocated.wrapping_add(1)
    &&& now.blocks == was.blocks || object_bytes(payload, len) <= MAX_CELL && now.blocks
        == was.blocks.saturating_add(1)
    &&& if before.due() {
        &&& now.collections == was.collections.wrapping_add(1)
        &&& now.live_objects == before@.collected().objects.dom().len()
        &&& after.threshold() == next_threshold(now.live_bytes)
        &&& after.pending() == capped(object_bytes(payload, len))
    } else {
        &&& now.collections == was.collections
        &&& now.live_objects == was.live_objects
        &&& now.live_bytes == was.live_bytes
        &&& now.large_objects == if object_bytes(payload, len) > MAX_CELL {
            was.large_objects.saturating_add(1)
        } else {
            was.large_objects
        }
        &&& after.threshold() == before.threshold()
        &&& after.pending() == capped(before.pending() + object_bytes(payload, len))
    }
}

/// What an allocation does: collect if that is due, then put a fresh object at
/// an address that was free.
pub open spec fn allocated(
    before: Heap,
    after: Heap,
    class: Option<Value>,
    payload: Payload,
    len: u32,
    r: Value,
) -> bool {
    let mid = if before.due() {
        before@.collected()
    } else {
        before@
    };
    &&& r@ is Heap
    &&& r == Value::pack(r@)
    &&& value::is_heap_address(r@->Heap_0)
    &&& !mid.objects.contains_key(r@->Heap_0)
    &&& after@ == (HeapModel {
        objects: mid.objects.insert(r@->Heap_0, fresh_object(class, payload, len)),
        ..mid
    })
    &&& tallied(before, after, payload, len)
}

impl Default for Heap {
    fn default() -> (r: Heap)
        ensures
            empty_heap(r),
    {
        Heap::new()
    }
}

// ---------------------------------------------------------------------------
// Handles
// ---------------------------------------------------------------------------

/// A place on the root stack. The value there stays rooted until the scope
/// that made the handle is left.
#[derive(Debug, Clone, Copy, PartialEq, Eq, Structural)]
pub struct Handle {
    index: usize,
}

impl Handle {
    pub closed spec fn place(self) -> int {
        self.index as int
    }
}

/// A heap in use, with the scopes that are open on it.
pub struct HandleScope {
    heap: Heap,
    /// How many roots there were when each open scope was opened, outermost
    /// first.
    bases: Vec<usize>,
}

impl View for HandleScope {
    type V = HeapModel;

    open spec fn view(&self) -> HeapModel {
        self.inner()@
    }
}

impl HandleScope {
    /// The heap.
    pub closed spec fn inner(&self) -> Heap {
        self.heap
    }

    /// How many roots there were when each open scope was opened.
    pub closed spec fn scopes(&self) -> Seq<usize> {
        self.bases@
    }

    /// The heap is in order and sound, and scopes are nested.
    pub open spec fn wf(&self) -> bool {
        &&& self.inner().wf()
        &&& self@ == self.inner()@
        &&& self@.sound()
        &&& self@.classes.wf()
        &&& self@.definitions.wf()
        &&& self@.regexps.wf()
        &&& self@.symbols.wf()
        &&& self.nested_ok()
    }

    /// At least one scope is open, and each starts inside the one around it.
    pub open spec fn nested_ok(&self) -> bool {
        &&& self.scopes().len() > 0
        &&& forall|i: int|
            0 <= i < self.scopes().len() ==> #[trigger] self.scopes()[i] <= self@.roots.len()
        &&& forall|i: int, j: int|
            0 <= i <= j < self.scopes().len() ==> #[trigger] self.scopes()[i]
                <= #[trigger] self.scopes()[j]
    }

    /// Whether a handle is on the root stack.
    pub open spec fn holds(&self, handle: Handle) -> bool {
        0 <= handle.place() < self@.roots.len()
    }

    /// The value a handle stands for.
    pub open spec fn at(&self, handle: Handle) -> Value {
        self@.roots[handle.place()]
    }

    /// Whether a handle stands for an object.
    pub open spec fn holds_object(&self, handle: Handle) -> bool {
        &&& self.holds(handle)
        &&& self.at(handle)@ is Heap
    }

    /// The object a handle stands for.
    pub open spec fn object_at(&self, handle: Handle) -> Object {
        self@.object(self.at(handle))
    }

    /// How many more objects there are addresses for.
    pub open spec fn room(&self) -> int {
        self.inner().room()
    }

    /// What the heap has counted.
    pub open spec fn accounts(&self) -> Accounts {
        self.inner().accounts()
    }

    /// Whether there are addresses for another object.
    pub open spec fn roomy(&self) -> bool {
        self.room() >= 1
    }

    /// Root a value in this scope.
    pub fn root(&mut self, value: Value) -> (r: Handle)
        requires
            old(self).wf(),
            old(self)@.live(value),
        ensures
            final(self).wf(),
            final(self)@ == old(self)@.rooting(value),
            final(self).scopes() == old(self).scopes(),
            final(self).room() == old(self).room(),
            final(self).accounts() == old(self).accounts(),
            r.place() == old(self)@.roots.len(),
    {
        let index: usize = self.heap.roots.len();
        self.heap.roots.push(value);
        proof {
            lemma_rooted_is_sound(old(self)@, value);
        }
        Handle { index }
    }

    /// Allocate an object of a class, and root it.
    pub fn allocate(&mut self, class: Option<Handle>, payload: Payload, len: u32) -> (r: Handle)
        requires
            old(self).wf(),
            old(self).roomy(),
            class matches Some(h) ==> old(self).holds(h),
        ensures
            final(self).wf(),
            final(self).scopes() == old(self).scopes(),
            final(self).room() >= old(self).room() - 1,
            r.place() == old(self)@.roots.len(),
            born(
                old(self).inner(),
                final(self).inner(),
                match class {
                    Some(h) => Some(old(self).at(h)),
                    None => None,
                },
                payload,
                len,
                final(self).at(r),
            ),
    {
        let class: Option<Value> = match class {
            Some(handle) => Some(self.heap.roots[handle.index]),
            None => None,
        };
        let value = self.heap.allocate(class, payload, len);
        let ghost middle = self.heap;
        let index: usize = self.heap.roots.len();
        self.heap.roots.push(value);
        proof {
            lemma_born_is_sound(old(self).heap, middle, class, payload, len, value);
            lemma_rooted_is_sound(middle@, value);
            assert(self.heap@ =~= middle@.rooting(value));
            assert(self.heap.counters() == middle.counters());
        }
        Handle { index }
    }

    /// Open a scope inside this one.
    pub fn nested(&mut self)
        requires
            old(self).wf(),
        ensures
            final(self).wf(),
            final(self)@ == old(self)@,
            final(self).inner() == old(self).inner(),
            final(self).room() == old(self).room(),
            final(self).scopes() == old(self).scopes().push(old(self)@.roots.len() as usize),
            old(self)@.roots.len() <= usize::MAX,
    {
        let base: usize = self.heap.roots.len();
        self.bases.push(base);
    }

    /// Leave the innermost scope: what it rooted is rooted no longer.
    pub fn leave(&mut self)
        requires
            old(self).wf(),
            old(self).scopes().len() > 1,
        ensures
            final(self).wf(),
            final(self)@ == (HeapModel {
                roots: old(self)@.roots.take(old(self).scopes().last() as int),
                ..old(self)@
            }),
            final(self).scopes() == old(self).scopes().drop_last(),
            final(self).room() == old(self).room(),
            final(self).accounts() == old(self).accounts(),
    {
        let popped = self.bases.pop();
        let base: usize = popped.unwrap();
        assert(base == old(self).bases@.last());
        assert(base <= old(self)@.roots.len());
        self.heap.roots.truncate(base);
        proof {
            let keep = old(self)@.roots.take(base as int);
            assert(self.heap.roots@ =~= keep);
            lemma_fewer_roots_is_sound(old(self)@, keep);
            assert(self.bases@ =~= old(self).bases@.drop_last());
            assert forall|i: int| 0 <= i < self.bases@.len() implies #[trigger] self.bases@[i]
                <= self.heap.roots@.len() by {
                assert(old(self).scopes()[i] <= old(self).scopes()[old(self).scopes().len() - 1]);
            }
        }
    }

    /// Leave every scope and hand the heap back.
    pub fn close(self) -> (r: Heap)
        requires
            self.wf(),
        ensures
            r.wf(),
            r@.sound(),
            r@ == (HeapModel { roots: self@.roots.take(self.scopes()[0] as int), ..self@ }),
            r.room() == self.room(),
            r.accounts() == self.accounts(),
    {
        let base: usize = self.bases[0];
        let mut heap = self.heap;
        assert(base == self.scopes()[0]);
        heap.roots.truncate(base);
        proof {
            let keep = self@.roots.take(base as int);
            assert(heap.roots@ =~= keep);
            lemma_fewer_roots_is_sound(self@, keep);
        }
        heap
    }

    /// The value a handle stands for.
    pub fn get(&self, handle: Handle) -> (r: Value)
        requires
            self.wf(),
            self.holds(handle),
        ensures
            r == self.at(handle),
            self@.live(r),
    {
        let value = self.heap.roots[handle.index];
        proof {
            assert(self@.roots[handle.index as int] == value);
            assert(self@.is_root(value));
        }
        value
    }

    /// Let a handle stand for another value.
    pub fn set(&mut self, handle: Handle, value: Value)
        requires
            old(self).wf(),
            old(self).holds(handle),
            old(self)@.live(value),
        ensures
            final(self).wf(),
            final(self)@ == (HeapModel {
                roots: old(self)@.roots.update(handle.place(), value),
                ..old(self)@
            }),
            final(self).scopes() == old(self).scopes(),
            final(self).room() == old(self).room(),
            final(self).accounts() == old(self).accounts(),
    {
        self.heap.roots[handle.index] = value;
        proof {
            let m = self@;
            assert forall|v: Value| #[trigger] m.is_root(v) implies m.live(v) by {
                if m.roots.contains(v) {
                    let k = m.roots.index_of(v);
                    if k != handle.index {
                        assert(old(self)@.roots[k] == v);
                        assert(old(self)@.is_root(v));
                    }
                } else {
                    assert(old(self)@.is_root(v));
                }
            }
            assert forall|a: u64, v: Value|
                m.objects.contains_key(a) && #[trigger] m.objects[a].points_to(v) implies m.live(
                v,
            ) by {
                assert(old(self)@.objects[a].points_to(v));
            }
        }
    }

    /// Free every object the roots do not reach.
    pub fn collect(&mut self)
        requires
            old(self).wf(),
        ensures
            final(self).wf(),
            final(self)@ == old(self)@.collected(),
            final(self).scopes() == old(self).scopes(),
            final(self).room() == old(self).room(),
            swept(old(self).inner(), final(self).inner()),
    {
        self.heap.collect();
        proof {
            law_collecting(old(self)@);
        }
    }

    /// What the heap has done and holds.
    pub fn stats(&self) -> (r: Stats)
        ensures
            r == self.inner().counters(),
    {
        self.heap.stats()
    }

    /// How many objects there are.
    pub fn object_count(&self) -> (r: usize)
        requires
            self.wf(),
        ensures
            r == self@.objects.dom().len(),
            self@.objects.dom().finite(),
    {
        proof {
            lemma_live_count(self.heap.cells@, 0);
            assert(addresses_from(self.heap.cells@, 0) =~= self@.objects.dom());
        }
        self.heap.held
    }

    /// Whether there are addresses for another object.
    pub fn has_room(&self) -> (r: bool)
        ensures
            r == self.roomy(),
    {
        self.heap.has_room()
    }

    /// Whether there are addresses for `n` more objects.
    pub fn has_room_for(&self, n: u32) -> (r: bool)
        ensures
            r == (self.room() >= n),
    {
        let used: u64 = self.heap.cells.len() as u64;
        used <= MAX_CELLS && (MAX_CELLS - used) / 2048 >= n as u64
    }

    /// The class table.
    pub fn classes(&self) -> (r: &Classes)
        ensures
            *r == self@.classes,
    {
        &self.heap.classes
    }

    /// The class table, to change. What it is changed to has to be in order
    /// and to hold nothing that is gone.
    pub fn classes_mut(&mut self) -> (r: &mut Classes)
        requires
            old(self).wf(),
        ensures
            *r == old(self)@.classes,
            final(self)@ == (HeapModel { classes: *final(r), ..old(self)@ }),
            final(self).scopes() == old(self).scopes(),
            final(self).room() == old(self).room(),
            final(self).accounts() == old(self).accounts(),
            final(r).wf() && old(self)@.keeps_classes(*final(r)) ==> final(self).wf(),
    {
        proof {
            lemma_other_tables(self@);
        }
        &mut self.heap.classes
    }

    /// The body table.
    pub fn definitions(&self) -> (r: &Definitions)
        ensures
            *r == self@.definitions,
    {
        &self.heap.definitions
    }

    /// The body table, to change.
    pub fn definitions_mut(&mut self) -> (r: &mut Definitions)
        requires
            old(self).wf(),
        ensures
            *r == old(self)@.definitions,
            final(self)@ == (HeapModel { definitions: *final(r), ..old(self)@ }),
            final(self).scopes() == old(self).scopes(),
            final(self).room() == old(self).room(),
            final(self).accounts() == old(self).accounts(),
            final(r).wf() ==> final(self).wf(),
    {
        proof {
            lemma_other_tables(self@);
        }
        &mut self.heap.definitions
    }

    /// The symbol table.
    pub fn symbols(&self) -> (r: &Symbols)
        ensures
            *r == self@.symbols,
    {
        &self.heap.symbols
    }

    /// The symbol table, to change.
    pub fn symbols_mut(&mut self) -> (r: &mut Symbols)
        requires
            old(self).wf(),
        ensures
            *r == old(self)@.symbols,
            final(self)@ == (HeapModel { symbols: *final(r), ..old(self)@ }),
            final(self).scopes() == old(self).scopes(),
            final(self).room() == old(self).room(),
            final(self).accounts() == old(self).accounts(),
            final(r).wf() ==> final(self).wf(),
    {
        proof {
            lemma_other_tables(self@);
        }
        &mut self.heap.symbols
    }

    /// The pattern table.
    pub fn regexps(&self) -> (r: &Regexps)
        ensures
            *r == self@.regexps,
    {
        &self.heap.regexps
    }

    /// The pattern table, to change. What it is changed to has to be in order
    /// and to hold nothing that is gone.
    pub fn regexps_mut(&mut self) -> (r: &mut Regexps)
        requires
            old(self).wf(),
        ensures
            *r == old(self)@.regexps,
            final(self)@ == (HeapModel { regexps: *final(r), ..old(self)@ }),
            final(self).scopes() == old(self).scopes(),
            final(self).room() == old(self).room(),
            final(self).accounts() == old(self).accounts(),
            final(r).wf() && old(self)@.keeps_regexps(*final(r)) ==> final(self).wf(),
    {
        proof {
            lemma_other_tables(self@);
        }
        &mut self.heap.regexps
    }

    /// What the last match left: a `MatchData`, or `nil`.
    pub fn last_match(&self) -> (r: Value)
        ensures
            r == self@.last_match,
    {
        self.heap.last_match
    }

    /// Set what the last match left.
    pub fn set_last_match(&mut self, value: Value)
        requires
            old(self).wf(),
            old(self)@.live(value),
        ensures
            final(self).wf(),
            final(self)@ == (HeapModel { last_match: value, ..old(self)@ }),
            final(self).scopes() == old(self).scopes(),
            final(self).room() == old(self).room(),
            final(self).accounts() == old(self).accounts(),
    {
        self.heap.last_match = value;
        proof {
            lemma_matched_is_sound(old(self)@, value);
        }
    }

    /// How many values are on the root stack.
    pub fn rooted(&self) -> (r: usize)
        ensures
            r == self@.roots.len(),
    {
        self.heap.roots.len()
    }

    /// The cell of the object a handle stands for.
    fn cell_at(&self, handle: Handle) -> (r: usize)
        requires
            self.wf(),
            self.holds_object(handle),
        ensures
            r < self.heap.cells@.len(),
            self.heap.cells@[r as int].live,
            self.heap.cells@[r as int].model() == self.object_at(handle),
            address_of(r as int) == self.at(handle)@->Heap_0,
            index_at(self.at(handle)@->Heap_0) == r,
            self@.has_object(self.at(handle)),
    {
        let value = self.get(handle);
        match value.as_heap() {
            Some(address) => {
                let total: usize = self.heap.cells.len();
                assert(occupied(self.heap.cells@, address));
                (address / 16 - 1) as usize
            },
            None => 0,
        }
    }

    /// The cell of an object.
    fn cell_of(&self, value: Value) -> (r: usize)
        requires
            self.wf(),
            self@.has_object(value),
        ensures
            r < self.heap.cells@.len(),
            self.heap.cells@[r as int].live,
            self.heap.cells@[r as int].model() == self@.object(value),
            address_of(r as int) == value@->Heap_0,
            index_at(value@->Heap_0) == r,
    {
        match value.as_heap() {
            Some(address) => {
                let total: usize = self.heap.cells.len();
                assert(occupied(self.heap.cells@, address));
                (address / 16 - 1) as usize
            },
            None => 0,
        }
    }

    /// Root a value that needs it; an immediate does not.
    pub fn hold(&mut self, value: Value)
        requires
            old(self).wf(),
            old(self)@.live(value),
        ensures
            final(self).wf(),
            final(self)@ == (if value@ is Heap {
                old(self)@.rooting(value)
            } else {
                old(self)@
            }),
            final(self).scopes() == old(self).scopes(),
            final(self).room() == old(self).room(),
            final(self).accounts() == old(self).accounts(),
    {
        if !value.is_immediate() {
            self.root(value);
        }
    }

    /// How many slots or bytes an object has.
    pub fn len_of(&self, value: Value) -> (r: usize)
        requires
            self.wf(),
            self@.has_object(value),
        ensures
            r == self@.object(value).len(),
    {
        let i: usize = self.cell_of(value);
        match &self.heap.cells[i].body {
            Body::Slots(slots) => slots.len(),
            Body::Bytes(bytes) => bytes.len(),
        }
    }

    /// What an object's body is made of.
    pub fn payload_of(&self, value: Value) -> (r: Payload)
        requires
            self.wf(),
            self@.has_object(value),
        ensures
            r == self@.object(value).payload(),
    {
        let i: usize = self.cell_of(value);
        match &self.heap.cells[i].body {
            Body::Slots(_) => Payload::Slots,
            Body::Bytes(_) => Payload::Bytes,
        }
    }

    /// An object's class object.
    pub fn header_of(&self, value: Value) -> (r: Option<Value>)
        requires
            self.wf(),
            self@.has_object(value),
        ensures
            r == self@.object(value).class,
            r matches Some(c) ==> self@.live(c),
    {
        let i: usize = self.cell_of(value);
        let class = self.heap.cells[i].class;
        proof {
            let a = value@->Heap_0;
            if let Some(c) = class {
                assert(self@.objects[a].points_to(c));
            }
        }
        class
    }

    /// Give an object another class.
    pub fn set_header(&mut self, at: Value, class: Value)
        requires
            old(self).wf(),
            old(self)@.has_object(at),
            old(self)@.live(class),
        ensures
            final(self).wf(),
            final(self)@ == old(self)@.storing(
                at,
                (Object { class: Some(class), ..old(self)@.object(at) }),
            ),
            final(self).scopes() == old(self).scopes(),
            final(self).room() == old(self).room(),
            final(self).accounts() == old(self).accounts(),
    {
        let i: usize = self.cell_of(at);
        let ghost before = *self;
        self.heap.cells[i].class = Some(class);
        proof {
            let object = Object { class: Some(class), ..before@.object(at) };
            assert(self.heap.cells@[i as int].model() =~= object);
            lemma_stored(before.heap, self.heap, i as int, object);
            lemma_storing_is_sound(before@, at, object);
        }
    }

    /// What a slot of an object holds; `None` where it has no such slot.
    pub fn slot_of(&self, value: Value, index: usize) -> (r: Option<Value>)
        requires
            self.wf(),
            self@.has_object(value),
        ensures
            r == slot_in(self@.object(value), index as int),
            r matches Some(v) ==> self@.live(v),
    {
        let i: usize = self.cell_of(value);
        let found = match &self.heap.cells[i].body {
            Body::Slots(slots) => if index < slots.len() {
                Some(slots[index])
            } else {
                None
            },
            Body::Bytes(_) => None,
        };
        proof {
            let a = value@->Heap_0;
            if let Some(v) = found {
                let slots = self@.object(value).body->Slots_0;
                assert(slots[index as int] == v);
                assert(self@.objects[a].points_to(v));
            }
        }
        found
    }

    /// Write a slot of an object.
    pub fn store(&mut self, at: Value, index: usize, value: Value)
        requires
            old(self).wf(),
            old(self)@.has_object(at),
            slot_in(old(self)@.object(at), index as int) is Some,
            old(self)@.live(value),
        ensures
            final(self).wf(),
            final(self)@ == old(self)@.storing(
                at,
                with_slot(old(self)@.object(at), index as int, value),
            ),
            final(self).scopes() == old(self).scopes(),
            final(self).room() == old(self).room(),
            final(self).accounts() == old(self).accounts(),
    {
        let i: usize = self.cell_of(at);
        let ghost before = *self;
        match &mut self.heap.cells[i].body {
            Body::Slots(slots) => {
                slots[index] = value;
            },
            Body::Bytes(_) => {},
        }
        proof {
            let object = with_slot(before@.object(at), index as int, value);
            assert(self.heap.cells@[i as int].model() =~= object);
            lemma_stored(before.heap, self.heap, i as int, object);
            let slots = before@.object(at).body->Slots_0;
            assert forall|v: Value| #[trigger] object.points_to(v) implies v == value
                || before@.object(at).points_to(v) by {
                let now = object.body->Slots_0;
                if now.contains(v) {
                    let k = now.index_of(v);
                    if k != index {
                        assert(slots[k] == v);
                    }
                }
            }
            lemma_storing_is_sound(before@, at, object);
        }
    }

    /// An object's bytes.
    pub fn bytes_of(&self, value: Value) -> (r: &[u8])
        requires
            self.wf(),
            self@.has_object(value),
            self@.object(value).body is Bytes,
        ensures
            r@ == self@.object(value).body->Bytes_0,
    {
        let i: usize = self.cell_of(value);
        match &self.heap.cells[i].body {
            Body::Bytes(bytes) => bytes.as_slice(),
            Body::Slots(_) => &[],
        }
    }

    /// How many slots or bytes an object has.
    pub fn len(&self, handle: Handle) -> (r: usize)
        requires
            self.wf(),
            self.holds_object(handle),
        ensures
            r == self.object_at(handle).len(),
    {
        let i: usize = self.cell_at(handle);
        match &self.heap.cells[i].body {
            Body::Slots(slots) => slots.len(),
            Body::Bytes(bytes) => bytes.len(),
        }
    }

    /// What an object's body is made of.
    pub fn payload(&self, handle: Handle) -> (r: Payload)
        requires
            self.wf(),
            self.holds_object(handle),
        ensures
            r == self.object_at(handle).payload(),
    {
        let i: usize = self.cell_at(handle);
        match &self.heap.cells[i].body {
            Body::Slots(_) => Payload::Slots,
            Body::Bytes(_) => Payload::Bytes,
        }
    }

    /// An object's class object.
    pub fn class(&self, handle: Handle) -> (r: Option<Value>)
        requires
            self.wf(),
            self.holds_object(handle),
        ensures
            r == self.object_at(handle).class,
            r matches Some(c) ==> self@.live(c),
    {
        let i: usize = self.cell_at(handle);
        let class = self.heap.cells[i].class;
        proof {
            let a = self.at(handle)@->Heap_0;
            if let Some(c) = class {
                assert(self@.objects[a].points_to(c));
            }
        }
        class
    }

    /// Give an object another class.
    pub fn set_class(&mut self, handle: Handle, class: Value)
        requires
            old(self).wf(),
            old(self).holds_object(handle),
            old(self)@.live(class),
        ensures
            final(self).wf(),
            final(self)@ == old(self)@.storing(
                old(self).at(handle),
                (Object { class: Some(class), ..old(self).object_at(handle) }),
            ),
            final(self).scopes() == old(self).scopes(),
            final(self).room() == old(self).room(),
            final(self).accounts() == old(self).accounts(),
    {
        let i: usize = self.cell_at(handle);
        let ghost before = *self;
        self.heap.cells[i].class = Some(class);
        proof {
            let object = Object { class: Some(class), ..before.object_at(handle) };
            assert(self.heap.cells@[i as int].model() =~= object);
            lemma_stored(before.heap, self.heap, i as int, object);
            lemma_storing_is_sound(before@, before.at(handle), object);
        }
    }

    /// What a slot holds.
    pub fn slot(&self, handle: Handle, index: usize) -> (r: Value)
        requires
            self.wf(),
            self.holds_object(handle),
            self.object_at(handle).body matches BodyModel::Slots(slots) && index < slots.len(),
        ensures
            r == self.object_at(handle).body->Slots_0[index as int],
            self@.live(r),
    {
        let i: usize = self.cell_at(handle);
        let value = match &self.heap.cells[i].body {
            Body::Slots(slots) => slots[index],
            Body::Bytes(_) => Value::nil(),
        };
        proof {
            let a = self.at(handle)@->Heap_0;
            let slots = self.object_at(handle).body->Slots_0;
            assert(slots.contains(value)) by {
                assert(slots[index as int] == value);
            }
            assert(self@.objects[a].points_to(value));
        }
        value
    }

    /// Write a slot.
    pub fn set_slot(&mut self, handle: Handle, index: usize, value: Value)
        requires
            old(self).wf(),
            old(self).holds_object(handle),
            old(self).object_at(handle).body matches BodyModel::Slots(slots) && index < slots.len(),
            old(self)@.live(value),
        ensures
            final(self).wf(),
            final(self)@ == old(self)@.storing(
                old(self).at(handle),
                with_slot(old(self).object_at(handle), index as int, value),
            ),
            final(self).scopes() == old(self).scopes(),
            final(self).room() == old(self).room(),
            final(self).accounts() == old(self).accounts(),
    {
        let i: usize = self.cell_at(handle);
        let ghost before = *self;
        match &mut self.heap.cells[i].body {
            Body::Slots(slots) => {
                slots[index] = value;
            },
            Body::Bytes(_) => {},
        }
        proof {
            let object = with_slot(before.object_at(handle), index as int, value);
            assert(self.heap.cells@[i as int].model() =~= object);
            lemma_stored(before.heap, self.heap, i as int, object);
            let slots = before.object_at(handle).body->Slots_0;
            assert forall|v: Value| #[trigger] object.points_to(v) implies v == value
                || before.object_at(handle).points_to(v) by {
                let now = object.body->Slots_0;
                if now.contains(v) {
                    let k = now.index_of(v);
                    if k != index {
                        assert(slots[k] == v);
                    }
                }
            }
            lemma_storing_is_sound(before@, before.at(handle), object);
        }
    }

    /// An object's bytes.
    pub fn bytes(&self, handle: Handle) -> (r: &[u8])
        requires
            self.wf(),
            self.holds_object(handle),
            self.object_at(handle).body is Bytes,
        ensures
            r@ == self.object_at(handle).body->Bytes_0,
    {
        let i: usize = self.cell_at(handle);
        match &self.heap.cells[i].body {
            Body::Bytes(bytes) => bytes.as_slice(),
            Body::Slots(_) => &[],
        }
    }

    /// Write an object's bytes.
    pub fn set_bytes(&mut self, handle: Handle, bytes: Vec<u8>)
        requires
            old(self).wf(),
            old(self).holds_object(handle),
            old(self).object_at(handle).body matches BodyModel::Bytes(held) && held.len()
                == bytes@.len(),
        ensures
            final(self).wf(),
            final(self)@ == old(self)@.storing(
                old(self).at(handle),
                (Object { body: BodyModel::Bytes(bytes@), ..old(self).object_at(handle) }),
            ),
            final(self).scopes() == old(self).scopes(),
            final(self).room() == old(self).room(),
            final(self).accounts() == old(self).accounts(),
    {
        let i: usize = self.cell_at(handle);
        let ghost before = *self;
        let ghost text = bytes@;
        self.heap.cells[i].body = Body::Bytes(bytes);
        proof {
            let object = Object { body: BodyModel::Bytes(text), ..before.object_at(handle) };
            assert(self.heap.cells@[i as int].model() =~= object);
            lemma_stored(before.heap, self.heap, i as int, object);
            lemma_storing_is_sound(before@, before.at(handle), object);
        }
    }

    /// An object's bytes, to change. There stay as many of them.
    pub fn bytes_mut(&mut self, handle: Handle) -> (r: &mut [u8])
        requires
            old(self).wf(),
            old(self).holds_object(handle),
            old(self).object_at(handle).body is Bytes,
        ensures
            r@ == old(self).object_at(handle).body->Bytes_0,
            final(r)@.len() == r@.len() ==> {
                &&& final(self).wf()
                &&& final(self)@ == old(self)@.storing(
                    old(self).at(handle),
                    (Object { body: BodyModel::Bytes(final(r)@), ..old(self).object_at(handle) }),
                )
                &&& final(self).scopes() == old(self).scopes()
                &&& final(self).room() == old(self).room()
                &&& final(self).accounts() == old(self).accounts()
            },
    {
        let i: usize = self.cell_at(handle);
        let ghost before = *self;
        proof {
            lemma_rewritten(before, handle, i as int);
        }
        let r = match &mut self.heap.cells[i].body {
            Body::Bytes(bytes) => bytes.as_mut_slice(),
            Body::Slots(_) => &mut [],
        };
        assert(final(r)@.len() == r@.len() ==> rewritten(
            before,
            *after_borrow(self),
            i as int,
            final(r)@,
        ));
        r
    }

    /// The address of the object a handle stands for.
    pub fn address(&self, handle: Handle) -> (r: u64)
        requires
            self.wf(),
            self.holds_object(handle),
        ensures
            self.at(handle)@ == Unpacked::Heap(r),
    {
        let value = self.get(handle);
        match value.as_heap() {
            Some(address) => address,
            None => 0,
        }
    }

    /// Freeze an object.
    pub fn freeze(&mut self, handle: Handle)
        requires
            old(self).wf(),
            old(self).holds_object(handle),
        ensures
            final(self).wf(),
            final(self)@ == old(self)@.storing(
                old(self).at(handle),
                (Object { frozen: true, ..old(self).object_at(handle) }),
            ),
            final(self).scopes() == old(self).scopes(),
            final(self).room() == old(self).room(),
            final(self).accounts() == old(self).accounts(),
    {
        let i: usize = self.cell_at(handle);
        let ghost before = *self;
        self.heap.cells[i].frozen = true;
        proof {
            let object = Object { frozen: true, ..before.object_at(handle) };
            assert(self.heap.cells@[i as int].model() =~= object);
            lemma_stored(before.heap, self.heap, i as int, object);
            lemma_storing_is_sound(before@, before.at(handle), object);
        }
    }

    /// Whether an object is frozen.
    pub fn is_frozen(&self, handle: Handle) -> (r: bool)
        requires
            self.wf(),
            self.holds_object(handle),
        ensures
            r == self.object_at(handle).frozen,
    {
        let i: usize = self.cell_at(handle);
        self.heap.cells[i].frozen
    }
}

/// What a slot of an object holds; `None` where it has no such slot.
pub open spec fn slot_in(object: Object, index: int) -> Option<Value> {
    match object.body {
        BodyModel::Slots(slots) => if 0 <= index < slots.len() {
            Some(slots[index])
        } else {
            None
        },
        BodyModel::Bytes(_) => None,
    }
}

/// An object with a slot written.
pub open spec fn with_slot(object: Object, index: int, value: Value) -> Object {
    Object { body: BodyModel::Slots(object.body->Slots_0.update(index, value)), ..object }
}

/// A slot reads back what was stored in it, and nothing else changes.
pub proof fn law_a_store_reads_back(
    m: HeapModel,
    at: Value,
    slot: int,
    value: Value,
    other: Value,
    index: int,
)
    requires
        m.has_object(at),
        m.has_object(other),
        slot_in(m.object(at), slot) is Some,
    ensures
        ({
            let after = m.storing(at, with_slot(m.object(at), slot, value));
            &&& slot_in(after.object(at), slot) == Some(value)
            &&& other@ != at@ || index != slot ==> slot_in(after.object(other), index) == slot_in(
                m.object(other),
                index,
            )
            &&& other@ != at@ ==> after.object(other) == m.object(other)
        }),
{
}

/// What [`HandleScope::allocate`] does: an allocation, and the object rooted.
pub open spec fn born(
    before: Heap,
    after: Heap,
    class: Option<Value>,
    payload: Payload,
    len: u32,
    r: Value,
) -> bool {
    let mid = if before.due() {
        before@.collected()
    } else {
        before@
    };
    &&& r@ is Heap
    &&& r == Value::pack(r@)
    &&& !mid.objects.contains_key(r@->Heap_0)
    &&& after@ == (HeapModel {
        objects: mid.objects.insert(r@->Heap_0, fresh_object(class, payload, len)),
        roots: before@.roots.push(r),
        ..mid
    })
    &&& tallied(before, after, payload, len)
}

/// What a heap kept: every object that was reachable is there as it was.
pub open spec fn persists(m: HeapModel, after: HeapModel) -> bool {
    forall|a: u64| #[trigger]
        m.objects.contains_key(a) && m.reachable(a) ==> after.objects.contains_key(a)
            && after.objects[a] == m.objects[a]
}

/// What an allocation leaves.
pub proof fn lemma_born(
    before: Heap,
    after: Heap,
    class: Option<Value>,
    payload: Payload,
    len: u32,
    r: Value,
)
    requires
        before@.sound(),
        born(before, after, class, payload, len, r),
    ensures
        after@.has_object(r),
        after@.object(r) == fresh_object(class, payload, len),
        after@.roots == before@.roots.push(r),
        after@.classes == before@.classes,
        after@.definitions == before@.definitions,
        after@.regexps == before@.regexps,
        after@.last_match == before@.last_match,
        after@.symbols == before@.symbols,
        persists(before@, after@),
        !(before@.objects.contains_key(r@->Heap_0) && before@.reachable(r@->Heap_0)),
        forall|v: Value| #[trigger]
            before@.is_root(v) && v@ is Heap ==> after@.has_object(v) && after@.object(v)
                == before@.object(v) && v != r,
{
    law_collecting(before@);
    assert forall|v: Value| #[trigger] before@.is_root(v) && v@ is Heap implies after@.has_object(v)
        && after@.object(v) == before@.object(v) && v != r by {
        law_roots_are_reachable(before@, v, v@->Heap_0);
    }
}

/// More roots reach no less.
pub proof fn lemma_more_roots(m: HeapModel, more: HeapModel, a: u64)
    requires
        more.objects == m.objects,
        forall|v: Value| #[trigger] m.is_root(v) ==> more.is_root(v),
        m.reachable(a),
    ensures
        more.reachable(a),
{
    assert forall|s: Set<u64>| #[trigger] more.traces(s) implies s.contains(a) by {
        assert(m.traces(s)) by {
            assert forall|v: Value| #[trigger] m.is_root(v) implies (v@ matches Unpacked::Heap(x)
                ==> s.contains(x)) by {
                assert(more.is_root(v));
            }
            assert forall|x: u64, v: Value|
                s.contains(x) && m.objects.contains_key(x) && #[trigger] m.objects[x].points_to(
                    v,
                ) implies (v@ matches Unpacked::Heap(y) ==> s.contains(y)) by {
                assert(more.objects[x].points_to(v));
            }
        }
    }
}

/// What was reachable still is, where nothing reachable changed and no root
/// was lost.
pub proof fn lemma_still_reachable(m: HeapModel, after: HeapModel)
    requires
        m.sound(),
        persists(m, after),
        forall|v: Value| #[trigger] m.is_root(v) ==> after.is_root(v),
    ensures
        forall|a: u64| #[trigger]
            m.objects.contains_key(a) && m.reachable(a) ==> after.reachable(a),
{
    assert forall|a: u64| #[trigger]
        m.objects.contains_key(a) && m.reachable(a) implies after.reachable(a) by {
        assert forall|s: Set<u64>| #[trigger] after.traces(s) implies s.contains(a) by {
            let narrow = s.intersect(Set::new(|x: u64| m.reachable(x)));
            assert(m.traces(narrow)) by {
                assert forall|v: Value| #[trigger] m.is_root(v) implies (v@ matches Unpacked::Heap(x)
                    ==> narrow.contains(x)) by {
                    assert(after.is_root(v));
                    if let Unpacked::Heap(x) = v@ {
                        law_roots_are_reachable(m, v, x);
                    }
                }
                assert forall|x: u64, v: Value|
                    narrow.contains(x) && m.objects.contains_key(x)
                        && #[trigger] m.objects[x].points_to(v) implies (v@ matches Unpacked::Heap(y)
                    ==> narrow.contains(y)) by {
                    assert(after.objects[x].points_to(v));
                    if let Unpacked::Heap(y) = v@ {
                        law_reaching_goes_on(m, x, v, y);
                    }
                }
            }
        }
    }
}

/// What lasts through two changes lasts through both.
pub proof fn lemma_persists_trans(a: HeapModel, b: HeapModel, c: HeapModel)
    requires
        a.sound(),
        persists(a, b),
        persists(b, c),
        forall|v: Value| #[trigger] a.is_root(v) ==> b.is_root(v),
    ensures
        persists(a, c),
{
    lemma_still_reachable(a, b);
    assert forall|x: u64| #[trigger]
        a.objects.contains_key(x) && a.reachable(x) implies c.objects.contains_key(x)
        && c.objects[x] == a.objects[x] by {
        assert(b.objects.contains_key(x) && b.reachable(x));
    }
}

/// A heap that remembers another match is sound.
proof fn lemma_matched_is_sound(m: HeapModel, value: Value)
    requires
        m.sound(),
        m.live(value),
    ensures
        (HeapModel { last_match: value, ..m }).sound(),
{
    let after = HeapModel { last_match: value, ..m };
    assert forall|v: Value| #[trigger] after.is_root(v) implies after.live(v) by {
        if v != value {
            assert(m.is_root(v));
        }
    }
    assert forall|a: u64, v: Value|
        after.objects.contains_key(a) && #[trigger] after.objects[a].points_to(
            v,
        ) implies after.live(v) by {
        assert(m.objects[a].points_to(v));
    }
}

/// A sound heap stays sound with another table that holds nothing that is
/// gone.
proof fn lemma_other_tables(m: HeapModel)
    requires
        m.sound(),
    ensures
        forall|classes: Classes| #[trigger]
            m.keeps_classes(classes) ==> (HeapModel { classes, ..m }).sound(),
        forall|definitions: Definitions| #[trigger] (HeapModel { definitions, ..m }).sound(),
        forall|symbols: Symbols| #[trigger] (HeapModel { symbols, ..m }).sound(),
        forall|regexps: Regexps| #[trigger]
            m.keeps_regexps(regexps) ==> (HeapModel { regexps, ..m }).sound(),
{
    assert forall|regexps: Regexps| #[trigger] m.keeps_regexps(regexps) implies (HeapModel {
        regexps,
        ..m
    }).sound() by {
        let after = HeapModel { regexps, ..m };
        assert forall|v: Value| #[trigger] after.is_root(v) implies after.live(v) by {
            if !regexps.objects().contains_value(v) {
                assert(m.is_root(v));
            }
        }
        assert forall|a: u64, v: Value|
            after.objects.contains_key(a) && #[trigger] after.objects[a].points_to(
                v,
            ) implies after.live(v) by {
            assert(m.objects[a].points_to(v));
        }
    }
    assert forall|classes: Classes| #[trigger] m.keeps_classes(classes) implies (HeapModel {
        classes,
        ..m
    }).sound() by {
        let after = HeapModel { classes, ..m };
        assert forall|v: Value| #[trigger] after.is_root(v) implies after.live(v) by {
            if !class::is_class_root(classes.table(), v) {
                assert(m.is_root(v));
            }
        }
        assert forall|a: u64, v: Value|
            after.objects.contains_key(a) && #[trigger] after.objects[a].points_to(
                v,
            ) implies after.live(v) by {
            assert(m.objects[a].points_to(v));
        }
    }
    assert forall|definitions: Definitions| #[trigger] (HeapModel { definitions, ..m }).sound() by {
        lemma_same_roots(m, HeapModel { definitions, ..m });
    }
    assert forall|symbols: Symbols| #[trigger] (HeapModel { symbols, ..m }).sound() by {
        lemma_same_roots(m, HeapModel { symbols, ..m });
    }
}

proof fn lemma_same_roots(m: HeapModel, after: HeapModel)
    requires
        m.sound(),
        after.objects == m.objects,
        after.roots == m.roots,
        after.classes == m.classes,
        after.regexps == m.regexps,
        after.last_match == m.last_match,
    ensures
        after.sound(),
{
    assert forall|v: Value| #[trigger] after.is_root(v) implies after.live(v) by {
        assert(m.is_root(v));
    }
    assert forall|a: u64, v: Value|
        after.objects.contains_key(a) && #[trigger] after.objects[a].points_to(
            v,
        ) implies after.live(v) by {
        assert(m.objects[a].points_to(v));
    }
}

proof fn lemma_rooted_is_sound(m: HeapModel, v: Value)
    requires
        m.sound(),
        m.live(v),
    ensures
        m.rooting(v).sound(),
{
    let after = m.rooting(v);
    assert forall|w: Value| #[trigger] after.is_root(w) implies after.live(w) by {
        if after.roots.contains(w) {
            let k = after.roots.index_of(w);
            if k < m.roots.len() {
                assert(m.roots[k] == w);
            }
        }
        assert(w == v || m.is_root(w));
    }
    assert forall|a: u64, w: Value|
        after.objects.contains_key(a) && #[trigger] after.objects[a].points_to(w) implies after.live(
        w,
    ) by {
        assert(m.objects[a].points_to(w));
    }
}

proof fn lemma_fewer_roots_is_sound(m: HeapModel, roots: Seq<Value>)
    requires
        m.sound(),
        roots.is_prefix_of(m.roots),
    ensures
        (HeapModel { roots, ..m }).sound(),
{
    let after = HeapModel { roots, ..m };
    assert forall|w: Value| #[trigger] after.is_root(w) implies after.live(w) by {
        if roots.contains(w) {
            let k = roots.index_of(w);
            assert(m.roots[k] == w);
        }
        assert(m.is_root(w));
    }
    assert forall|a: u64, w: Value|
        after.objects.contains_key(a) && #[trigger] after.objects[a].points_to(w) implies after.live(
        w,
    ) by {
        assert(m.objects[a].points_to(w));
    }
}

proof fn lemma_born_is_sound(
    before: Heap,
    after: Heap,
    class: Option<Value>,
    payload: Payload,
    len: u32,
    r: Value,
)
    requires
        before@.sound(),
        allocated(before, after, class, payload, len, r),
        class matches Some(c) ==> before@.is_root(c),
    ensures
        after@.sound(),
        after@.live(r),
{
    law_collecting(before@);
    let mid = if before.due() {
        before@.collected()
    } else {
        before@
    };
    let m = after@;
    assert(mid.sound());
    assert forall|w: Value| #[trigger] m.is_root(w) implies m.live(w) by {
        assert(mid.is_root(w));
    }
    let address = r@->Heap_0;
    assert forall|a: u64, w: Value|
        m.objects.contains_key(a) && #[trigger] m.objects[a].points_to(w) implies m.live(w) by {
        if a == address {
            let fresh = fresh_object(class, payload, len);
            if fresh.class == Some(w) {
                assert(mid.is_root(w));
            } else {
                let slots = fresh.body->Slots_0;
                let k = slots.index_of(w);
                assert(slots[k] == Value::pack(Unpacked::Nil));
            }
        } else {
            assert(mid.objects[a].points_to(w));
        }
    }
}

proof fn lemma_storing_is_sound(m: HeapModel, at: Value, object: Object)
    requires
        m.sound(),
        m.has_object(at),
        forall|v: Value| #[trigger]
            object.points_to(v) ==> m.live(v) || m.object(at).points_to(v),
        object.len() == m.object(at).len(),
    ensures
        m.storing(at, object).sound(),
{
    let after = m.storing(at, object);
    let address = at@->Heap_0;
    assert forall|w: Value| #[trigger] after.is_root(w) implies after.live(w) by {
        assert(m.is_root(w));
    }
    assert forall|a: u64, w: Value|
        after.objects.contains_key(a) && #[trigger] after.objects[a].points_to(w) implies after.live(
        w,
    ) by {
        if a == address {
            assert(object.points_to(w));
            if m.object(at).points_to(w) {
                assert(m.objects[address].points_to(w));
            }
        } else {
            assert(m.objects[a].points_to(w));
        }
    }
}

/// Whether two scopes differ in the bytes of one cell alone.
spec fn rewritten(before: HandleScope, after: HandleScope, i: int, bytes: Seq<u8>) -> bool {
    &&& after.bases == before.bases
    &&& after.heap == (Heap { cells: after.heap.cells, ..before.heap })
    &&& after.heap.cells@ == before.heap.cells@.update(i, after.heap.cells@[i])
    &&& after.heap.cells@[i] == (Cell { body: after.heap.cells@[i].body, ..before.heap.cells@[i] })
    &&& after.heap.cells@[i].body matches Body::Bytes(held) && held@ == bytes
    &&& bytes.len() == before.heap.cells@[i].model().len()
}

/// What writing other bytes into an object does.
proof fn lemma_rewritten(before: HandleScope, handle: Handle, i: int)
    requires
        before.wf(),
        before.holds_object(handle),
        before.object_at(handle).body is Bytes,
        0 <= i < before.heap.cells@.len(),
        before.heap.cells@[i].live,
        before.heap.cells@[i].model() == before.object_at(handle),
        address_of(i) == before.at(handle)@->Heap_0,
        before@.has_object(before.at(handle)),
    ensures
        forall|after: HandleScope, bytes: Seq<u8>| #[trigger]
            rewritten(before, after, i, bytes) ==> {
                &&& after.wf()
                &&& after@ == before@.storing(
                    before.at(handle),
                    (Object { body: BodyModel::Bytes(bytes), ..before.object_at(handle) }),
                )
                &&& after.room() == before.room()
            },
{
    assert forall|after: HandleScope, bytes: Seq<u8>| #[trigger]
        rewritten(before, after, i, bytes) implies {
        &&& after.wf()
        &&& after@ == before@.storing(
            before.at(handle),
            (Object { body: BodyModel::Bytes(bytes), ..before.object_at(handle) }),
        )
        &&& after.room() == before.room()
    } by {
        let object = Object { body: BodyModel::Bytes(bytes), ..before.object_at(handle) };
        assert(after.heap.cells@[i].model() =~= object);
        lemma_stored(before.heap, after.heap, i, object);
        lemma_storing_is_sound(before@, before.at(handle), object);
    }
}

/// Changing what a cell holds changes that object alone.
proof fn lemma_stored(before: Heap, after: Heap, i: int, object: Object)
    requires
        before.wf(),
        0 <= i < before.cells@.len(),
        before.cells@[i].live,
        after.cells@.len() == before.cells@.len(),
        forall|j: int| 0 <= j < before.cells@.len() && j != i ==> #[trigger] after.cells@[j]
            == before.cells@[j],
        after.cells@[i].live,
        !after.cells@[i].marked,
        after.cells@[i].model() == object,
        after.roots == before.roots,
        after.held == before.held,
        after.free == before.free,
        after.vacant == before.vacant,
        after.classes == before.classes,
        after.definitions == before.definitions,
        after.regexps == before.regexps,
        after.last_match == before.last_match,
        after.symbols == before.symbols,
    ensures
        after.wf(),
        after@ == (HeapModel {
            objects: before@.objects.insert(address_of(i), object),
            ..before@
        }),
{
    let a = address_of(i);
    assert(index_at(a) == i);
    assert(objects_in(after.cells@) =~= objects_in(before.cells@).insert(a, object)) by {
        assert forall|x: u64| #[trigger]
            objects_in(after.cells@).contains_key(x) <==> objects_in(before.cells@).insert(
                a,
                object,
            ).contains_key(x) by {
            if occupied(after.cells@, x) && index_at(x) == i {
                assert(x == a);
            }
        }
    }
    assert(objects_in(after.cells@).dom() =~= objects_in(before.cells@).dom());
    assert forall|c: int| 0 <= c < 5 implies free_list_ok(
        after.cells@,
        (#[trigger] after.free@[c])@,
        cell_bytes(c),
    ) by {
        let list = before.free@[c]@;
        assert(free_list_ok(before.cells@, list, cell_bytes(c)));
        lemma_unlisted(before.cells@, after.cells@, list, cell_bytes(c), i);
    }
    lemma_unlisted(before.cells@, after.cells@, before.vacant@, 0, i);
    assert forall|j: int| 0 <= j < after.cells@.len() implies !(#[trigger] after.cells@[j]).marked by {
        if j != i {
            assert(after.cells@[j] == before.cells@[j]);
        }
    }
}

impl Heap {
    /// Open a scope on the heap.
    pub fn scope(self) -> (r: HandleScope)
        requires
            self.wf(),
            self@.sound(),
        ensures
            r.wf(),
            r@ == self@,
            r.inner() == self,
            r.scopes() == seq![self@.roots.len() as usize],
            self@.roots.len() <= usize::MAX,
    {
        let base: usize = self.roots.len();
        let mut bases: Vec<usize> = Vec::new();
        bases.push(base);
        let scope = HandleScope { heap: self, bases };
        assert(scope.bases@ =~= seq![base]);
        scope
    }
}

} // verus!
