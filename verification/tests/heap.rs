//! The heap: allocation, scopes, tracing and sweeping.

use spinel_vm::heap::{cell_size, size_class, MIN_GC_BYTES};
use spinel_vm::{Handle, HandleScope, Heap, Payload, Value};


const MAX_CELL: u64 = 512;

fn number(n: i64) -> Value {
    Value::fixnum(n).unwrap()
}

/// A head and `links` objects behind it, each in the slot of the one before.
/// The second handle ends on the last.
fn chain(scope: &mut HandleScope, links: usize) -> (Handle, Handle) {
    let head = scope.allocate(None, Payload::Slots, 1);
    let cursor = scope.allocate(None, Payload::Slots, 1);
    let start = scope.get(head);
    scope.set(cursor, start);
    for _ in 0..links {
        scope.nested();
        let next = scope.allocate(None, Payload::Slots, 1);
        let next_value = scope.get(next);
        scope.set_slot(cursor, 0, next_value);
        scope.set(cursor, next_value);
        scope.leave();
    }
    (head, cursor)
}

/// Walk from `head`, counting the objects still readable.
fn chain_len(scope: &mut HandleScope, head: Handle, cursor: Handle) -> usize {
    let start = scope.get(head);
    scope.set(cursor, start);
    let mut count = 1;
    loop {
        let next = scope.slot(cursor, 0);
        if next.is_nil() {
            return count;
        }
        scope.set(cursor, next);
        count += 1;
    }
}

#[test]
fn size_classes_cover_their_range_exactly() {
    for bytes in 1..=MAX_CELL {
        let index = size_class(bytes).expect("under the cap");
        let cell = cell_size(index);
        assert!(cell >= bytes, "{bytes} does not fit in {cell}");
        if index > 0 {
            assert!(
                cell_size(index - 1) < bytes,
                "{bytes} should have fitted in {}",
                cell_size(index - 1)
            );
        }
    }
    assert_eq!(size_class(MAX_CELL + 1), None);
    assert_eq!(size_class(u64::MAX), None);

    assert_eq!(
        [0, 1, 2, 3, 4].map(|index| (cell_size(index) - 16) / 8),
        [2, 6, 14, 30, 62]
    );
    assert_eq!(size_class(Heap::object_size(Payload::Slots, 2)), Some(0));
    assert_eq!(size_class(Heap::object_size(Payload::Slots, 3)), Some(1));
    assert_eq!(size_class(Heap::object_size(Payload::Slots, 62)), Some(4));
    assert_eq!(size_class(Heap::object_size(Payload::Slots, 63)), None);

    // Bytes round up to a whole word so the next cell stays aligned.
    assert_eq!(Heap::object_size(Payload::Bytes, 1), 24);
    assert_eq!(Heap::object_size(Payload::Bytes, 8), 24);
    assert_eq!(Heap::object_size(Payload::Bytes, 9), 32);
}

#[test]
fn a_fresh_object_reads_as_nil_slots_or_zero_bytes() {
    let mut scope = Heap::new().scope();

    let slots = scope.allocate(None, Payload::Slots, 5);
    assert_eq!(scope.len(slots), 5);
    assert_eq!(scope.payload(slots), Payload::Slots);
    assert_eq!(scope.class(slots), None);
    for i in 0..5 {
        assert_eq!(scope.slot(slots, i), Value::nil(), "slot {i}");
    }

    let bytes = scope.allocate(None, Payload::Bytes, 5);
    assert_eq!(scope.payload(bytes), Payload::Bytes);
    assert_eq!(scope.bytes(bytes), &[0; 5]);
    scope.bytes_mut(bytes).copy_from_slice(b"hello");
    assert_eq!(scope.bytes(bytes), b"hello");
    scope.set_bytes(bytes, b"howdy".to_vec());
    assert_eq!(scope.bytes(bytes), b"howdy");
}

#[test]
fn a_reused_cell_does_not_leak_the_dead_object_it_held() {
    let mut scope = Heap::new().scope();
    scope.nested();
    let bytes = scope.allocate(None, Payload::Bytes, 8);
    scope.bytes_mut(bytes).copy_from_slice(b"secrets!");
    scope.leave();
    scope.collect();
    let reused = scope.allocate(None, Payload::Bytes, 8);
    assert_eq!(scope.bytes(reused), &[0; 8]);
}

#[test]
fn large_objects_allocate_and_are_reclaimed() {
    const LARGE_SLOTS: u32 = 10_000;

    let mut scope = Heap::new().scope();
    let big = scope.allocate(None, Payload::Slots, LARGE_SLOTS);
    assert_eq!(scope.stats().large_objects, 1);
    assert_eq!(scope.stats().blocks, 0, "a large object needs no block");

    let marker = number(7);
    scope.set_slot(big, LARGE_SLOTS as usize - 1, marker);
    scope.collect();
    assert_eq!(
        scope.slot(big, LARGE_SLOTS as usize - 1),
        marker,
        "a live large object survives"
    );
    assert_eq!(scope.stats().large_objects, 1);

    scope.nested();
    scope.allocate(None, Payload::Bytes, 10 * MAX_CELL as u32);
    assert_eq!(scope.stats().large_objects, 2);
    scope.leave();
    scope.collect();
    assert_eq!(scope.stats().large_objects, 1, "the unrooted one was freed");
}

#[test]
fn a_nested_scope_pops_its_own_handles_only() {
    let mut scope = Heap::new().scope();
    let kept = scope.allocate(None, Payload::Slots, 1);
    assert_eq!(scope.rooted(), 1);
    scope.nested();
    scope.allocate(None, Payload::Slots, 1);
    scope.allocate(None, Payload::Slots, 1);
    assert_eq!(scope.rooted(), 3);
    scope.nested();
    scope.allocate(None, Payload::Slots, 1);
    assert_eq!(scope.rooted(), 4);
    scope.leave();
    assert_eq!(scope.rooted(), 3);
    scope.leave();
    assert_eq!(scope.rooted(), 1);

    scope.collect();
    assert_eq!(scope.stats().live_objects, 1, "only the outer handle rooted one");
    assert_eq!(scope.slot(kept, 0), Value::nil(), "and it is still readable");
}

#[test]
fn unreachable_objects_go_and_reachable_ones_stay() {
    let mut scope = Heap::new().scope();
    let root = scope.allocate(None, Payload::Slots, 2);
    scope.nested();
    // One is linked from the rooted object, the other is only in this scope.
    let reachable = scope.allocate(None, Payload::Slots, 1);
    let value = scope.get(reachable);
    scope.set_slot(root, 0, value);
    scope.allocate(None, Payload::Slots, 1);
    scope.collect();
    assert_eq!(scope.stats().live_objects, 3, "nothing dropped yet");
    scope.leave();
    scope.collect();
    assert_eq!(scope.stats().live_objects, 2, "the unlinked one went");

    // Dropping the link collects the second one too.
    scope.set_slot(root, 0, Value::nil());
    scope.collect();
    assert_eq!(scope.stats().live_objects, 1);
}

#[test]
fn a_class_pointer_keeps_its_class_alive() {
    let mut scope = Heap::new().scope();
    let holder = scope.allocate(None, Payload::Slots, 1);
    // After this scope the class is reachable only through the header of its
    // instance.
    scope.nested();
    let class = scope.allocate(None, Payload::Slots, 1);
    scope.set_slot(class, 0, number(99));
    let instance = scope.allocate(Some(class), Payload::Slots, 1);
    let instance_value = scope.get(instance);
    scope.set_slot(holder, 0, instance_value);
    scope.leave();
    scope.collect();
    assert_eq!(scope.stats().live_objects, 3, "holder, instance, and its class");

    let instance_value = scope.slot(holder, 0);
    let instance = scope.root(instance_value);
    let class_value = scope.class(instance).expect("the class pointer survived");
    let class = scope.root(class_value);
    assert_eq!(scope.slot(class, 0), number(99));
}

#[test]
fn a_deep_chain_does_not_overflow_the_mark_stack() {
    const LINKS: usize = 1_000_000;
    let mut scope = Heap::new().scope();
    let (head, cursor) = chain(&mut scope, LINKS);
    scope.collect();
    assert_eq!(chain_len(&mut scope, head, cursor), LINKS + 1);
    assert_eq!(scope.stats().live_objects, LINKS + 1, "the whole chain survived");
}

#[test]
fn a_cycle_is_traced_once_and_collected_together() {
    let mut scope = Heap::new().scope();
    scope.nested();
    let a = scope.allocate(None, Payload::Slots, 1);
    let b = scope.allocate(None, Payload::Slots, 1);
    let (a_value, b_value) = (scope.get(a), scope.get(b));
    scope.set_slot(a, 0, b_value);
    scope.set_slot(b, 0, a_value);
    scope.collect();
    assert_eq!(scope.stats().live_objects, 2);
    scope.leave();
    // Unreachable, but pointing at each other.
    scope.collect();
    assert_eq!(scope.stats().live_objects, 0);
}

#[test]
fn swept_cells_are_reused() {
    let mut scope = Heap::new().scope();
    scope.nested();
    let dead = scope.allocate(None, Payload::Slots, 1);
    let first = scope.get(dead).as_heap();
    scope.leave();
    scope.collect();
    let fresh = scope.allocate(None, Payload::Slots, 1);
    assert_eq!(scope.get(fresh).as_heap(), first, "the swept cell came back");
    assert_eq!(scope.stats().blocks, 1, "and no second block was taken");
}

#[test]
fn allocation_alone_triggers_collection() {
    let mut scope = Heap::new().scope();
    assert_eq!(scope.stats().collections, 0);

    // Twice the initial threshold of garbage, with no `collect` call anywhere.
    let objects = 2 * MIN_GC_BYTES / cell_size(0);
    for _ in 0..objects {
        scope.nested();
        scope.allocate(None, Payload::Slots, 2);
        scope.leave();
    }
    let stats = scope.stats();
    assert!(stats.collections > 0, "{stats:?}");
    assert!(stats.live_bytes < MIN_GC_BYTES, "garbage was reclaimed: {stats:?}");
}

#[test]
fn the_threshold_grows_with_the_live_set_rather_than_thrashing() {
    let mut scope = Heap::new().scope();
    // A live set well past the floor: every object stays rooted.
    let objects = 4 * MIN_GC_BYTES / cell_size(0);
    for _ in 0..objects {
        scope.allocate(None, Payload::Slots, 2);
    }
    let stats = scope.stats();
    assert!(
        stats.collections < 8,
        "{} collections for {objects} live objects: {stats:?}",
        stats.collections
    );
}

#[test]
fn ten_million_objects_with_a_forced_gc_every_thousand() {
    const BATCHES: usize = 10_000;
    const PER_BATCH: usize = 1_000;

    let mut scope = Heap::new().scope();

    // A small tree that must be intact at the end: four children reachable
    // only through the keeper's slots.
    let keeper = scope.allocate(None, Payload::Slots, 4);
    for i in 0..4 {
        scope.nested();
        let child = scope.allocate(None, Payload::Slots, 1);
        scope.set_slot(child, 0, number(i as i64));
        let child_value = scope.get(child);
        scope.set_slot(keeper, i, child_value);
        scope.leave();
    }

    for _ in 0..BATCHES {
        scope.nested();
        for _ in 0..PER_BATCH {
            scope.allocate(None, Payload::Slots, 2);
        }
        scope.leave();
        scope.collect();
    }

    let stats = scope.stats();
    assert_eq!(stats.collections, BATCHES as u64);
    assert_eq!(
        stats.total_allocated,
        (BATCHES * PER_BATCH + 5) as u64,
        "the batches, the keeper, and its four children"
    );
    assert_eq!(
        stats.live_objects, 5,
        "the keeper and its four children: {stats:?}"
    );
    assert!(stats.blocks <= 2, "{stats:?}");

    for i in 0..4 {
        let child = scope.slot(keeper, i);
        let handle = scope.root(child);
        assert_eq!(scope.slot(handle, 0), number(i as i64));
    }
}

#[test]
fn a_frozen_object_says_so() {
    let mut scope = Heap::new().scope();
    let object = scope.allocate(None, Payload::Slots, 1);
    assert!(!scope.is_frozen(object));
    scope.freeze(object);
    assert!(scope.is_frozen(object));
    assert_eq!(scope.address(object), scope.get(object).as_heap().unwrap());
}

#[test]
fn a_class_can_be_given_to_an_object() {
    let mut scope = Heap::new().scope();
    let class = scope.allocate(None, Payload::Slots, 1);
    let object = scope.allocate(None, Payload::Slots, 1);
    let value = scope.get(class);
    scope.set_class(object, value);
    assert_eq!(scope.class(object), Some(value));
}

#[test]
fn the_last_match_is_a_root() {
    let mut scope = Heap::new().scope();
    assert_eq!(scope.last_match(), Value::nil());
    scope.nested();
    let object = scope.allocate(None, Payload::Slots, 1);
    scope.set_slot(object, 0, number(3));
    let value = scope.get(object);
    scope.set_last_match(value);
    scope.leave();
    scope.collect();
    assert_eq!(scope.stats().live_objects, 1);
    let mut heap = scope.close();
    assert_eq!(heap.last_match(), value);
    heap.set_last_match(Value::nil());
    heap.collect();
    assert_eq!(heap.stats().live_objects, 0);
}

#[test]
fn a_cached_pattern_is_a_root() {
    let mut scope = Heap::new().scope();
    scope.nested();
    let object = scope.allocate(None, Payload::Slots, 3);
    let value = scope.get(object);
    scope.regexps_mut().cache("a+", 1, value);
    scope.leave();
    scope.collect();
    assert_eq!(scope.stats().live_objects, 1);
    assert_eq!(scope.regexps().cached("a+", 1), Some(value));
    assert_eq!(scope.regexps().cached("a+", 0), None);
    assert_eq!(scope.regexps().each_root(), [value]);
    let heap = scope.close();
    assert_eq!(heap.regexps().cached("a+", 1), Some(value));
}

#[test]
fn closing_a_scope_lets_its_objects_go() {
    let mut scope = Heap::default().scope();
    assert!(scope.has_room() && scope.has_room_for(10));
    scope.allocate(None, Payload::Slots, 1);
    let mut heap = scope.close();
    assert!(heap.has_room());
    heap.collect();
    assert_eq!(heap.stats().live_objects, 0);
    assert_eq!(heap.stats().total_allocated, 1);
}

#[test]
fn counting_goes_on_through_writes_and_scopes() {
    let mut scope = Heap::new().scope();
    scope.nested();
    let a = scope.allocate(None, Payload::Slots, 2);
    let b = scope.allocate(Some(a), Payload::Slots, 1);
    let held = scope.get(b);
    scope.set_slot(a, 0, held);
    scope.set_slot(a, 1, number(7));
    scope.freeze(b);
    scope.collect();
    assert_eq!((scope.stats().live_objects, scope.object_count()), (2, 2));
    scope.leave();
    scope.collect();
    let stats = scope.stats();
    assert_eq!((stats.collections, stats.total_allocated), (2, 2));
    assert_eq!((stats.live_objects, scope.object_count()), (0, 0));
}

#[test]
fn a_default_heap_is_a_new_one() {
    let heap = Heap::default();
    assert_eq!(heap.stats(), Heap::new().stats());
    assert!(heap.has_room() && heap.classes().is_empty() && heap.definitions().is_empty());
}
