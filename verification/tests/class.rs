//! The class table: ancestry, singletons, lookup and the method cache.

use spinel_vm::class::CrefId;
use spinel_vm::{Builtin, ClassId, Classes, Heap, Mixin, MixinError, Payload, SymbolId, Value};

fn ancestors(classes: &Classes, id: ClassId) -> Vec<String> {
    classes
        .ancestors(id)
        .into_iter()
        .map(|a| classes.name(a).unwrap_or("?").to_string())
        .collect()
}

fn booted() -> Heap {
    let mut scope = Heap::new().scope();
    scope.bootstrap();
    scope.close()
}

fn number(n: i64) -> Value {
    Value::fixnum(n).unwrap()
}

#[test]
fn the_bootstrap_hierarchy_is_rubys() {
    let heap = booted();
    let classes = heap.classes();

    for builtin in Builtin::all() {
        assert_eq!(classes.name(builtin.id()), Some(builtin.name()));
        assert_eq!(classes.kind(builtin.id()), builtin.kind());
    }

    assert_eq!(classes.superclass(Builtin::BasicObject.id()), None);
    assert_eq!(ancestors(classes, Builtin::BasicObject.id()), ["BasicObject"]);
    assert_eq!(
        ancestors(classes, Builtin::Object.id()),
        ["Object", "Kernel", "BasicObject"]
    );
    assert_eq!(
        ancestors(classes, Builtin::Class.id()),
        ["Class", "Module", "Object", "Kernel", "BasicObject"]
    );
    assert_eq!(
        ancestors(classes, Builtin::Integer.id()),
        ["Integer", "Numeric", "Comparable", "Object", "Kernel", "BasicObject"]
    );
    assert_eq!(
        ancestors(classes, Builtin::Array.id()),
        ["Array", "Enumerable", "Object", "Kernel", "BasicObject"]
    );
    // A module's chain is its own run: no superclass, and no `Object`.
    assert_eq!(ancestors(classes, Builtin::Kernel.id()), ["Kernel"]);
}

#[test]
fn a_new_heap_holds_its_class_objects_and_no_more() {
    let heap = booted();
    let stats = heap.stats();
    assert_eq!(stats.total_allocated, 50);
    assert_eq!(stats.collections, 0);
    assert_eq!(stats.large_objects, 0);
    let scope = heap.scope();
    assert_eq!(scope.object_count(), 50);
    let classes = scope.classes();
    assert_eq!(classes.len(), 50);
    assert_eq!(classes.serial(), 81);
    assert_eq!(classes.cached_lookups(), 0);
    assert_eq!(classes.class_serial(Builtin::Comparable.id()), 21);
    let name = |at: u32| scope.symbols().name(SymbolId(at)).unwrap();
    assert_eq!([name(0), name(14)], ["BasicObject", "Exception"]);
    assert_eq!([name(15), name(50)], ["NoMemoryError", "call"]);
}

#[test]
fn what_is_prepended_stands_first_with_all_it_brings() {
    let mut scope = booted().scope();
    let target = scope.define_class(Some("Target"), Some(Builtin::Object.id()));
    let brought = scope.define_module(Some("Brought"));
    let module = scope.define_module(Some("First"));
    let later = scope.define_module(Some("Later"));
    let classes = scope.classes_mut();
    classes.include_module(module, brought).unwrap();
    classes.prepend(target, module).unwrap();
    assert_eq!(
        ancestors(classes, target),
        ["First", "Brought", "Target", "Object", "Kernel", "BasicObject"]
    );
    classes.prepend(target, later).unwrap();
    assert_eq!(
        ancestors(classes, target),
        ["Later", "First", "Brought", "Target", "Object", "Kernel", "BasicObject"]
    );
}

#[test]
fn a_builtin_is_found_by_its_name() {
    for builtin in Builtin::all() {
        assert_eq!(Builtin::from_name(builtin.name()), Some(builtin));
    }
    assert_eq!(Builtin::from_name("Nothing"), None);
    assert_eq!(Builtin::Integer.id().index(), 10);
    assert_eq!(CrefId::from_index(7).index(), 7);
}

#[test]
fn an_instance_resolves_back_to_its_class() {
    let mut scope = booted().scope();
    let point = scope.define_class(Some("Point"), Some(Builtin::Object.id()));

    let class_object = scope.classes().object(point);
    let class_handle = scope.root(class_object);
    let instance = scope.allocate(Some(class_handle), Payload::Slots, 2);

    assert_eq!(scope.class_of(instance), Some(point));
    assert_eq!(scope.class_of(class_handle), Some(Builtin::Class.id()));

    // And a module object is an instance of `Module`, not of `Class`.
    let unit = scope.define_module(Some("Unit"));
    let unit_object = scope.classes().object(unit);
    let unit_handle = scope.root(unit_object);
    assert_eq!(scope.class_of(unit_handle), Some(Builtin::Module.id()));
    assert_eq!(scope.class_id_of(unit_handle), Some(unit));
    assert_eq!(scope.class_id_of(instance), None);
}

#[test]
fn singleton_classes_are_allocated_on_the_first_ask() {
    let mut scope = booted().scope();
    let a = scope.define_class(Some("A"), Some(Builtin::Object.id()));
    let b = scope.define_class(Some("B"), Some(a));

    let before = scope.classes().len();
    assert_eq!(scope.classes().singleton(b), None, "nothing yet");
    assert_eq!(scope.classes().len(), before, "asking did not allocate one");

    let singleton = scope.singleton_class(b);
    assert_eq!(scope.classes().singleton(b), Some(singleton));
    assert!(scope.classes().is_singleton(singleton));
    // `B`'s, `A`'s, `Object`'s, and `BasicObject`'s.
    assert_eq!(scope.classes().len(), before + 4);

    let again = scope.singleton_class(b);
    assert_eq!(again, singleton, "and the second ask allocates nothing");
    assert_eq!(scope.classes().len(), before + 4);
}

#[test]
fn an_objects_singleton_replaces_the_class_in_its_header() {
    let mut scope = booted().scope();
    let point = scope.define_class(Some("Point"), Some(Builtin::Object.id()));
    let class_object = scope.classes().object(point);
    let class_handle = scope.root(class_object);

    let one = scope.allocate(Some(class_handle), Payload::Slots, 1);
    let two = scope.allocate(Some(class_handle), Payload::Slots, 1);

    let singleton = scope.singleton_class_of(one);
    assert_eq!(scope.class_of(one), Some(singleton));
    assert_eq!(scope.classes().superclass(singleton), Some(point));
    assert_eq!(
        ancestors(scope.classes(), singleton),
        ["?", "Point", "Object", "Kernel", "BasicObject"],
        "the singleton is anonymous, and inherits everything Point has"
    );
    assert_eq!(scope.singleton_class_of(one), singleton, "asked twice");
    // The sibling is untouched: a singleton is one object's, not the class's.
    assert_eq!(scope.class_of(two), Some(point));
}

#[test]
fn lookup_walks_the_chain_and_a_prepended_module_wins() {
    let mut scope = booted().scope();
    let name = scope.symbols_mut().intern("chain_test_name");
    let base = scope.define_class(Some("Base"), Some(Builtin::Object.id()));
    let sub = scope.define_class(Some("Sub"), Some(base));
    let included = scope.define_module(Some("Included"));
    let prepended = scope.define_module(Some("Prepended"));

    let classes = scope.classes_mut();
    classes.include_module(sub, included).unwrap();
    assert_eq!(classes.lookup(sub, name), None, "nothing defines it yet");

    // Furthest first, so each definition has to win over the one before it.
    for (owner, body) in [(base, 1), (included, 2), (sub, 3), (prepended, 4)] {
        classes.define_method(owner, name, number(body));
        if owner == prepended {
            classes.prepend(sub, prepended).unwrap();
        }
        let found = classes.lookup(sub, name).expect("defined");
        assert_eq!(found.owner, owner, "{:?}", ancestors(classes, sub));
        assert_eq!(found.body, number(body));
        assert_eq!(classes.lookup_uncached(sub, name), Some(found));
    }

    // Removing the winner falls back through the chain, one step at a time.
    for (removed, next) in [(prepended, sub), (sub, included), (included, base)] {
        assert!(classes.remove_method(removed, name));
        assert_eq!(classes.lookup(sub, name).expect("still defined").owner, next);
    }
    assert!(classes.remove_method(base, name));
    assert_eq!(classes.lookup(sub, name), None);
    assert!(!classes.remove_method(base, name), "nothing left to remove");
}

#[test]
fn the_method_cache_is_emptied_by_anything_that_can_move_a_method() {
    let mut scope = booted().scope();
    let name = scope.symbols_mut().intern("cache_test_defined");
    let missing = scope.symbols_mut().intern("cache_test_missing");
    let c = scope.define_class(Some("C"), Some(Builtin::Object.id()));
    let m1 = scope.define_module(Some("M1"));
    let m2 = scope.define_module(Some("M2"));
    let classes = scope.classes_mut();
    classes.define_method(m1, name, number(1));
    classes.define_method(m2, name, number(2));
    classes.include_module(c, m1).unwrap();

    assert_eq!(classes.cached_lookups(), 0);
    assert_eq!(classes.lookup(c, name).unwrap().owner, m1);
    assert_eq!(classes.cached_lookups(), 1, "the answer was kept");
    assert_eq!(classes.lookup(c, name).unwrap().owner, m1, "and reused");

    // A module included after the call has to be seen by the next one.
    let serial = classes.serial();
    classes.include_module(c, m2).unwrap();
    assert!(classes.serial() > serial);
    assert_eq!(classes.cached_lookups(), 0, "the cache went with it");
    assert_eq!(classes.lookup(c, name).unwrap().owner, m2);

    // Misses are cached too, and invalidated the same way.
    assert_eq!(classes.lookup(c, missing), None);
    assert_eq!(classes.cached_lookups(), 2);
    classes.define_method(m2, missing, number(3));
    assert_eq!(classes.lookup(c, missing).unwrap().owner, m2);
}

#[test]
fn a_class_argument_and_a_cycle_are_both_refused() {
    let mut scope = booted().scope();
    let c = scope.define_class(Some("C"), Some(Builtin::Object.id()));
    let a = scope.define_module(Some("A"));
    let b = scope.define_module(Some("B"));
    let classes = scope.classes_mut();

    assert_eq!(classes.include_module(a, c), Err(MixinError::NotAModule));
    assert_eq!(classes.prepend(a, c), Err(MixinError::NotAModule));
    assert_eq!(
        classes.include_module(a, a),
        Err(MixinError::Cyclic(Mixin::Include))
    );
    assert_eq!(classes.prepend(a, a), Err(MixinError::Cyclic(Mixin::Prepend)));

    assert_eq!(
        MixinError::Cyclic(Mixin::Include).message(),
        "cyclic include detected"
    );
    assert_eq!(
        MixinError::Cyclic(Mixin::Prepend).message(),
        "cyclic prepend detected"
    );
    assert_eq!(
        MixinError::NotAModule.message(),
        "wrong argument type Class (expected Module)"
    );

    // Mutual inclusion two modules apart.
    classes.include_module(b, a).unwrap();
    assert_eq!(
        classes.include_module(a, b),
        Err(MixinError::Cyclic(Mixin::Include))
    );
    assert_eq!(classes.prepend(a, b), Err(MixinError::Cyclic(Mixin::Prepend)));

    // A refusal changes nothing.
    assert_eq!(ancestors(classes, a), ["A"]);
    assert_eq!(ancestors(classes, b), ["B", "A"]);

    // Three apart, where the cycle exists only because the middle module's
    // later inclusion reached the first.
    let d = scope.define_module(Some("D"));
    let e = scope.define_module(Some("E"));
    let f = scope.define_module(Some("F"));
    let classes = scope.classes_mut();
    classes.include_module(d, e).unwrap();
    classes.include_module(e, f).unwrap();
    assert_eq!(ancestors(classes, d), ["D", "E", "F"]);
    assert_eq!(
        classes.include_module(f, d),
        Err(MixinError::Cyclic(Mixin::Include))
    );
}

#[test]
fn the_collector_traces_class_objects_and_method_bodies() {
    let mut scope = booted().scope();
    let name = SymbolId(3);
    let c = scope.define_class(Some("C"), Some(Builtin::Object.id()));

    // The body is rooted by nothing but the method table once this scope ends.
    scope.nested();
    let body = scope.allocate(None, Payload::Slots, 1);
    scope.set_slot(body, 0, number(42));
    let body = scope.get(body);
    scope.classes_mut().define_method(c, name, body);
    scope.leave();
    scope.collect();

    // Every class object survived, with no handle rooting any of them.
    assert!(scope.stats().live_objects > Builtin::all().len());
    let class_object = scope.classes().object(c);
    let class_handle = scope.root(class_object);
    assert_eq!(scope.class_of(class_handle), Some(Builtin::Class.id()));

    // And so did the body, which is only reachable through the method table.
    let body = scope.classes_mut().lookup(c, name).expect("survived").body;
    let body = scope.root(body);
    assert_eq!(scope.slot(body, 0), number(42));
}

#[test]
fn the_collector_traces_constants() {
    let mut scope = booted().scope();
    let name = SymbolId(4);
    let c = scope.define_class(Some("C"), Some(Builtin::Object.id()));

    scope.nested();
    let value = scope.allocate(None, Payload::Slots, 1);
    scope.set_slot(value, 0, number(7));
    let value = scope.get(value);
    scope.classes_mut().const_set(c, name, value);
    scope.leave();
    scope.collect();

    let found = scope
        .classes()
        .const_get_here(c, name)
        .expect("the constant survived");
    let handle = scope.root(found);
    assert_eq!(scope.slot(handle, 0), number(7));
}

#[test]
fn a_scope_chain_reads_outward_and_object_is_its_end() {
    let mut scope = booted().scope();
    let outer = scope.define_module(Some("Outer"));
    let inner = scope.define_class(Some("Inner"), Some(Builtin::Object.id()));

    let outer_scope = scope.classes_mut().push_cref(CrefId::root(), outer);
    let inner_scope = scope.classes_mut().push_cref(outer_scope, inner);
    assert_eq!(scope.classes().cref_class(inner_scope), inner);
    assert_eq!(scope.classes().cref_parent(inner_scope), Some(outer_scope));

    let name = SymbolId(5);
    scope.classes_mut().const_set(outer, name, number(1));
    assert_eq!(
        scope.classes().const_get(inner_scope, name),
        Some(number(1)),
        "a lexically enclosing module is reached though `Inner`'s ancestors never touch it"
    );

    // The innermost scope's own table wins over the enclosing one.
    scope.classes_mut().const_set(inner, name, number(2));
    assert_eq!(scope.classes().const_get(inner_scope, name), Some(number(2)));

    // `Object` is the end of every chain, and is reached from a module body
    // even though a module's ancestors do not include it.
    let top = SymbolId(6);
    scope
        .classes_mut()
        .const_set(Builtin::Object.id(), top, number(3));
    assert_eq!(scope.classes().const_get(outer_scope, top), Some(number(3)));
    // A qualified lookup gets no such fallback.
    assert_eq!(scope.classes().const_get_qualified(outer, top), None);
}

#[test]
fn the_serial_moves_for_every_change_that_can_move_a_method() {
    let mut scope = booted().scope();
    let c = scope.define_class(Some("C"), Some(Builtin::Object.id()));
    let m = scope.define_module(Some("M"));
    let name = SymbolId(4);
    let classes = scope.classes_mut();

    let mut serial = classes.serial();
    let mut moved = |classes: &Classes, what: &str| {
        assert!(classes.serial() > serial, "{what} left the serial alone");
        serial = classes.serial();
    };
    classes.define_method(m, name, number(1));
    moved(classes, "define_method");
    classes.include_module(c, m).unwrap();
    moved(classes, "include");
    classes.prepend(c, m).unwrap();
    moved(classes, "prepend");
    classes.remove_method(m, name);
    moved(classes, "remove_method");

    // And not for a removal that removed nothing.
    let before = classes.serial();
    assert!(!classes.remove_method(m, name));
    assert_eq!(classes.serial(), before);
}

#[test]
fn include_reports_what_the_chain_reaches() {
    let mut scope = booted().scope();
    let c = scope.define_class(Some("C"), Some(Builtin::Object.id()));
    let m = scope.define_module(Some("M"));
    let classes = scope.classes_mut();
    classes.include_module(c, m).unwrap();

    assert!(classes.includes(c, m));
    assert!(classes.includes(c, Builtin::Kernel.id()), "through Object");
    assert!(!classes.includes(c, c), "a class does not include itself");
    assert!(!classes.includes(m, c));

    let name = SymbolId(1);
    classes.define_method(m, name, number(1));
    assert!(classes.method_defined_here(m, name));
    assert!(!classes.method_defined_here(c, name), "C inherits it");
    assert!(classes.lookup(c, name).is_some(), "but still finds it");
}

#[test]
fn a_method_remembers_the_scope_it_was_written_in() {
    let mut scope = booted().scope();
    let c = scope.define_class(None, Some(Builtin::Object.id()));
    let cref = scope.classes_mut().push_cref(CrefId::root(), c);
    let classes = scope.classes_mut();
    classes.define_method_in(c, SymbolId(9), number(5), cref);
    let found = classes.lookup(c, SymbolId(9)).unwrap();
    assert_eq!((found.owner, found.cref, found.body), (c, cref, number(5)));
    assert_eq!(classes.name(c), None);
}

#[test]
fn a_constant_reads_back_and_moves_no_method() {
    let mut scope = booted().scope();
    let method = scope.symbols_mut().intern("constant_test_method");
    let name = scope.symbols_mut().intern("CONSTANT_TEST");
    let other = scope.symbols_mut().intern("CONSTANT_TEST_OTHER");
    let c = scope.define_class(Some("C"), Some(Builtin::Object.id()));
    let d = scope.define_class(Some("D"), Some(Builtin::Object.id()));
    let classes = scope.classes_mut();
    classes.define_method(c, method, number(1));
    let serial = classes.serial();
    let found = classes.lookup(c, method);

    classes.const_set(c, name, number(7));
    assert_eq!(classes.const_get_here(c, name), Some(number(7)));
    assert_eq!(classes.const_get_here(c, other), None);
    assert_eq!(classes.const_get_here(d, name), None);
    assert_eq!(classes.serial(), serial);
    assert_eq!(classes.lookup_uncached(c, method), found);
}

#[test]
fn a_definition_is_seen_where_its_owner_is_an_ancestor() {
    let mut scope = booted().scope();
    let name = scope.symbols_mut().intern("definition_test");
    let other = scope.symbols_mut().intern("definition_test_other");
    let base = scope.define_class(Some("Base"), Some(Builtin::Object.id()));
    let sub = scope.define_class(Some("Sub"), Some(base));
    let apart = scope.define_class(Some("Apart"), Some(Builtin::Object.id()));
    let classes = scope.classes_mut();

    classes.define_method(base, name, number(1));
    let found = classes.lookup(sub, name).expect("inherited");
    assert_eq!((found.owner, found.body), (base, number(1)));
    assert_eq!(classes.lookup(apart, name), None);
    assert_eq!(classes.lookup(sub, other), None);

    assert!(classes.remove_method(base, name));
    assert_eq!(classes.lookup(sub, name), None);
}

#[test]
fn singleton_classes_mirror_the_classes() {
    let mut scope = booted().scope();
    let a = scope.define_class(Some("A"), Some(Builtin::Object.id()));
    let b = scope.define_class(Some("B"), Some(a));
    let before = scope.classes().len();
    let of_b = scope.singleton_class(b);
    assert_eq!(scope.classes().len(), before + 4, "one for each class up to the top");
    let line = [b, a, Builtin::Object.id(), Builtin::BasicObject.id()];
    for (i, id) in line.iter().enumerate() {
        let single = scope.singleton_class(*id);
        let parent = match line.get(i + 1) {
            Some(above) => scope.singleton_class(*above),
            None => Builtin::Class.id(),
        };
        assert_eq!(scope.classes().superclass(single), Some(parent));
        let object = scope.classes().object(*id);
        let handle = scope.root(object);
        assert_eq!(scope.class_of(handle), Some(single), "a class is an instance of its own");
    }
    assert_eq!(scope.singleton_class(b), of_b);
    assert_eq!(scope.classes().len(), before + 4);
    let of_kernel = scope.singleton_class(Builtin::Kernel.id());
    assert_eq!(scope.classes().superclass(of_kernel), Some(Builtin::Module.id()));
}

#[test]
fn an_immediate_has_no_class_object() {
    let mut scope = booted().scope();
    for value in [Value::nil(), number(3)] {
        let handle = scope.root(value);
        assert_eq!(scope.class_of(handle), None);
    }
    let bare = scope.allocate(None, Payload::Slots, 1);
    assert_eq!(scope.class_of(bare), None);
}

#[test]
fn only_object_has_constants_after_boot() {
    let mut scope = booted().scope();
    let top = scope.symbols_mut().intern("TOP");
    let kc = scope.symbols_mut().intern("KC");
    let s = scope.define_class(Some("S"), Some(Builtin::Object.id()));
    scope.classes_mut().const_set(Builtin::Object.id(), top, number(1));
    scope.classes_mut().const_set(Builtin::Kernel.id(), kc, number(2));
    assert_eq!(scope.classes().const_get_qualified(s, top), None);
    assert_eq!(scope.classes().const_get_qualified(s, kc), Some(number(2)));
    assert_eq!(scope.classes().const_get_qualified(Builtin::Object.id(), top), Some(number(1)));
    let string = scope.symbols_mut().intern("String");
    let mut holders = 0;
    for builtin in Builtin::all() {
        if scope.classes().const_get_here(builtin.id(), string).is_some() {
            holders += 1;
        }
    }
    assert_eq!(holders, 1);
}

#[test]
fn a_later_include_reaches_subclasses_and_earlier_includers() {
    let mut scope = booted().scope();
    let m = scope.define_module(Some("M"));
    let n = scope.define_module(Some("N"));
    let a = scope.define_class(Some("A"), Some(Builtin::Object.id()));
    let b = scope.define_class(Some("B"), Some(a));
    scope.classes_mut().include_module(a, m).unwrap();
    let old = ancestors(scope.classes(), b);
    scope.classes_mut().include_module(m, n).unwrap();
    let new = ancestors(scope.classes(), b);
    assert_eq!(new, ["B", "A", "M", "N", "Object", "Kernel", "BasicObject"]);
    let kept: Vec<String> = new.into_iter().filter(|name| old.contains(name)).collect();
    assert_eq!(kept, old, "what was there stays in order");
}
