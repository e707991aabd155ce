//! The smaller tables: symbols, shapes, bodies, patterns, call caches and the
//! compiled core library.

use std::sync::Arc;

use spinel_vm::bytecode::{BlockRef, CallSite};
use spinel_vm::callcache::CallCaches;
use spinel_vm::regexp::{match_shape, regexp_shape, Pattern, Regexps};
use spinel_vm::shape::{ShapeId, Shapes};
use spinel_vm::shared::core_image::CoreImage;
use spinel_vm::shared::symbols::Symbols;
use spinel_vm::{
    BinOp, Builtin, Definition, Definitions, Heap, Insn, Iseq, Native, Payload, SymbolId, Value,
};

fn sym(n: u32) -> SymbolId {
    SymbolId(n)
}

fn number(n: i64) -> Value {
    Value::fixnum(n).unwrap()
}

fn booted() -> Heap {
    let mut scope = Heap::new().scope();
    scope.bootstrap();
    scope.close()
}

#[test]
fn interning_is_idempotent() {
    let mut table = Symbols::new();
    let first = table.intern("compile_me");
    let again = table.intern("compile_me");
    assert_eq!(first, again);
    assert_eq!(table.name(first).as_deref(), Some("compile_me"));
    assert_eq!(table.find("compile_me"), Some(first));
}

#[test]
fn distinct_names_get_distinct_ids() {
    let mut table = Symbols::new();
    assert_ne!(table.intern("alpha_sym"), table.intern("beta_sym"));
}

#[test]
fn an_id_that_was_never_interned_has_no_name() {
    let table = Symbols::new();
    assert_eq!(table.name(SymbolId(u32::MAX)), None);
    assert_eq!(table.find("never"), None);
    assert!(table.is_empty());
}

#[test]
fn a_symbol_survives_a_round_trip_through_a_value() {
    let mut table = Symbols::new();
    let id = table.intern("round_trip");
    let value = Value::symbol(id);
    assert_eq!(value.as_symbol(), Some(id));
    assert_eq!(
        table.name(value.as_symbol().unwrap()).as_deref(),
        Some("round_trip")
    );
}

#[test]
fn the_table_only_grows() {
    let mut table = Symbols::new();
    let before = table.len();
    let _ = table.intern("grow_one");
    let _ = table.intern("grow_one");
    let _ = table.intern("grow_two");
    assert_eq!(table.len(), before + 2);
}

#[test]
fn the_root_holds_nothing_and_knows_nothing() {
    let shapes = Shapes::new();
    assert_eq!(shapes.count(ShapeId::root()), 0);
    assert_eq!(shapes.index_of(ShapeId::root(), sym(1)), None);
    assert!(shapes.names(ShapeId::root()).is_empty());
}

#[test]
fn the_same_names_in_the_same_order_reach_the_same_shape() {
    let mut shapes = Shapes::new();
    let (a1, i1) = shapes.transition(ShapeId::root(), sym(1)).unwrap();
    let (b1, j1) = shapes.transition(a1, sym(2)).unwrap();
    let (a2, i2) = shapes.transition(ShapeId::root(), sym(1)).unwrap();
    let (b2, j2) = shapes.transition(a2, sym(2)).unwrap();
    assert_eq!((a1, b1), (a2, b2));
    assert_eq!((i1, j1), (i2, j2));
    assert_eq!((i1, j1), (0, 1));
}

#[test]
fn the_same_names_in_a_different_order_do_not() {
    let mut shapes = Shapes::new();
    let (a, _) = shapes.transition(ShapeId::root(), sym(1)).unwrap();
    let (ab, _) = shapes.transition(a, sym(2)).unwrap();
    let (b, _) = shapes.transition(ShapeId::root(), sym(2)).unwrap();
    let (ba, _) = shapes.transition(b, sym(1)).unwrap();
    assert_ne!(ab, ba);
    // Both hold both names, at opposite indices.
    assert_eq!(shapes.index_of(ab, sym(1)), Some(0));
    assert_eq!(shapes.index_of(ab, sym(2)), Some(1));
    assert_eq!(shapes.index_of(ba, sym(2)), Some(0));
    assert_eq!(shapes.index_of(ba, sym(1)), Some(1));
}

#[test]
fn a_name_set_twice_does_not_grow_the_object() {
    let mut shapes = Shapes::new();
    let (a, index) = shapes.transition(ShapeId::root(), sym(1)).unwrap();
    assert_eq!(shapes.count(a), 1);
    assert_eq!(shapes.index_of(a, sym(1)), Some(index));
}

#[test]
fn names_come_back_in_the_order_they_were_added() {
    let mut shapes = Shapes::new();
    let (a, _) = shapes.transition(ShapeId::root(), sym(7)).unwrap();
    let (b, _) = shapes.transition(a, sym(3)).unwrap();
    let (c, _) = shapes.transition(b, sym(5)).unwrap();
    assert_eq!(shapes.names(c), vec![sym(7), sym(3), sym(5)]);
}

#[test]
fn a_branch_shares_its_prefix() {
    let mut shapes = Shapes::new();
    let (a, _) = shapes.transition(ShapeId::root(), sym(1)).unwrap();
    let (ab, _) = shapes.transition(a, sym(2)).unwrap();
    let (ac, _) = shapes.transition(a, sym(3)).unwrap();
    assert_ne!(ab, ac);
    assert_eq!(shapes.index_of(ab, sym(1)), shapes.index_of(ac, sym(1)));
    assert_eq!(shapes.count(ab), shapes.count(ac));
    assert!(!shapes.is_empty());
    assert_eq!(ab.index() + 1, ac.index());
}

#[test]
fn a_definition_id_round_trips_and_is_not_a_heap_value() {
    let mut defs = Definitions::new();
    let body = defs.add(Definition::Native(Native::Arity));
    assert!(body.is_immediate());
    assert!(matches!(
        defs.get(body),
        Some(Definition::Native(Native::Arity))
    ));
}

#[test]
fn redefining_leaves_the_old_body_reachable() {
    let mut defs = Definitions::new();
    let old = defs.add(Definition::Native(Native::Arity));
    let new = defs.add(Definition::Native(Native::IsLambda));
    assert_ne!(old, new);
    assert!(matches!(
        defs.get(old),
        Some(Definition::Native(Native::Arity))
    ));
}

#[test]
fn a_unit_is_defined_once_for_its_key() {
    let mut defs = Definitions::new();
    let unit = Arc::new(Iseq::default());
    let first = defs.intern_iseq(&unit, 8);
    let again = defs.intern_iseq(&unit, 8);
    let other = defs.intern_iseq(&unit, 16);
    assert_eq!(first, again);
    assert_ne!(first, other);
    assert_eq!(defs.len(), 2);
    assert!(defs.get(Value::nil()).is_none());
    assert!(defs.get(number(2)).is_none());
}

#[test]
fn patterns_are_kept_by_place_and_literals_by_source() {
    let mut table = Regexps::new();
    let at = table.add(Pattern { source: "a+".to_string(), options: 1 });
    assert_eq!(table.get(at).unwrap().source, "a+");
    assert!(table.get(at + 1).is_none());
    table.cache("a+", 1, number(1));
    table.cache("a+", 1, number(2));
    table.cache("a+", 4, number(3));
    assert_eq!(table.cached("a+", 1), Some(number(2)));
    assert_eq!(table.each_root(), [number(2), number(3)]);
    assert!(Regexps::default().each_root().is_empty());
    assert!(Regexps::default().get(0).is_none());
    assert_eq!(regexp_shape(), (Payload::Slots, 3));
    assert_eq!(match_shape(), (Payload::Slots, 3));
}

#[test]
fn linking_maps_the_pool_by_name_not_by_position() {
    let first = Iseq {
        name: "a".to_string(),
        insns: vec![Insn::PushSym(0), Insn::Leave],
        symbols: vec!["shared_name".to_string(), "other_name".to_string()],
        max_stack: 1,
        ..Iseq::default()
    };
    let second = Iseq {
        symbols: vec!["other_name".to_string(), "shared_name".to_string()],
        ..Iseq::default()
    };
    let mut table = Symbols::new();
    let one = first.link(&mut table);
    let two = second.link(&mut table);
    assert_eq!(one[0], two[1]);
    assert_eq!(one[1], two[0]);
    assert_eq!(first.len(), 2);
    assert!(second.is_empty());
}

#[test]
fn operator_names_round_trip() {
    for op in [
        BinOp::Add,
        BinOp::Sub,
        BinOp::Mul,
        BinOp::Div,
        BinOp::Mod,
        BinOp::Eq,
        BinOp::Neq,
        BinOp::Lt,
        BinOp::Le,
        BinOp::Gt,
        BinOp::Ge,
    ] {
        assert_eq!(BinOp::from_name(op.name()), Some(op));
    }
}

#[test]
fn a_name_that_is_not_specialised_is_not_an_operator() {
    assert_eq!(BinOp::from_name("<<"), None);
    assert_eq!(BinOp::from_name("each"), None);
}

/// A unit with `sites` call sites and nothing else.
fn iseq_with(sites: usize) -> Arc<Iseq> {
    let mut call_sites = Vec::new();
    for _ in 0..sites {
        call_sites.push(CallSite {
            name: 0,
            argc: 0,
            splats: Vec::new(),
            keywords: Vec::new(),
            block: BlockRef::Absent,
            implicit_self: false,
        });
    }
    Arc::new(Iseq { call_sites, ..Iseq::default() })
}

#[test]
fn each_iseq_gets_its_own_run_once() {
    let mut caches = CallCaches::new();
    let first = iseq_with(3);
    let second = iseq_with(2);

    assert_eq!(caches.base(&first, 1), 0);
    assert_eq!(caches.base(&second, 2), 3);
    assert_eq!(caches.base(&first, 1), 0, "the same unit keeps its run");
    assert_eq!(caches.len(), 5);
}

#[test]
fn the_table_keeps_the_iseq_its_key_points_at_alive() {
    let mut caches = CallCaches::default();
    assert!(caches.is_empty());
    let iseq = iseq_with(2);
    let base = caches.base(&iseq, 1);
    assert_eq!(Arc::strong_count(&iseq), 2, "the table took a clone");

    drop(iseq);
    assert_eq!(caches.len(), 2);
    assert_eq!(base, 0);
}

#[test]
fn a_filled_site_answers_the_class_it_was_filled_for() {
    let mut scope = booted().scope();
    let name = scope.symbols_mut().intern("inline_cache_hit");
    let c = scope.define_class(Some("C"), Some(Builtin::Object.id()));
    scope.classes_mut().define_method(c, name, number(1));
    let method = scope.classes_mut().lookup(c, name).unwrap();
    let serial = scope.classes().serial();

    let mut caches = CallCaches::new();
    let base = caches.base(&iseq_with(1), 1);
    assert_eq!(caches.filled(), 0);
    assert_eq!(caches.get(base, c, serial), None, "empty before it is filled");

    caches.fill(base, c, serial, method);
    assert_eq!(caches.filled(), 1);
    assert_eq!(caches.get(base, c, serial).unwrap().owner, method.owner);
}

#[test]
fn a_different_receiver_class_misses() {
    let mut scope = booted().scope();
    let name = scope.symbols_mut().intern("inline_cache_class_change");
    let c = scope.define_class(Some("C"), Some(Builtin::Object.id()));
    let d = scope.define_class(Some("D"), Some(Builtin::Object.id()));
    scope.classes_mut().define_method(c, name, number(1));
    scope.classes_mut().define_method(d, name, number(2));
    let from_c = scope.classes_mut().lookup(c, name).unwrap();
    let serial = scope.classes().serial();

    let mut caches = CallCaches::new();
    let base = caches.base(&iseq_with(1), 1);
    caches.fill(base, c, serial, from_c);

    assert!(caches.get(base, d, serial).is_none(), "`C`'s answer is not `D`'s");
    // And re-filling for `D` replaces rather than extends.
    let from_d = scope.classes_mut().lookup(d, name).unwrap();
    caches.fill(base, d, serial, from_d);
    assert_eq!(caches.filled(), 1);
    assert_eq!(caches.get(base, d, serial).unwrap().owner, d);
    assert!(caches.get(base, c, serial).is_none());
}

#[test]
fn a_bumped_serial_misses() {
    let mut scope = booted().scope();
    let name = scope.symbols_mut().intern("inline_cache_serial_change");
    let c = scope.define_class(Some("C"), Some(Builtin::Object.id()));
    scope
        .classes_mut()
        .define_method(Builtin::Object.id(), name, number(1));
    let inherited = scope.classes_mut().lookup(c, name).unwrap();
    assert_eq!(inherited.owner, Builtin::Object.id());

    let mut caches = CallCaches::new();
    let base = caches.base(&iseq_with(1), 1);
    let serial = scope.classes().serial();
    caches.fill(base, c, serial, inherited);
    assert!(caches.get(base, c, serial).is_some());

    // An override on `C` itself: same receiver class, different answer.
    scope.classes_mut().define_method(c, name, number(2));
    let bumped = scope.classes().serial();
    assert!(bumped > serial, "defining on `C` bumps the serial");
    assert!(
        caches.get(base, c, bumped).is_none(),
        "the stale entry still names `Object`'s method"
    );

    let now = scope.classes_mut().lookup(c, name).unwrap();
    assert_eq!(now.owner, c, "and the full lookup that re-fills is right");
}

#[test]
fn the_core_library_is_compiled_once() {
    let mut image = CoreImage::new();
    assert!(!image.is_compiled());
    let first = image.get_or_compile(|| vec![iseq_with(1), iseq_with(2)]);
    assert!(image.is_compiled());
    let again = image.get_or_compile(|| vec![iseq_with(9)]);
    assert_eq!(first.len(), 2);
    assert!(Arc::ptr_eq(&first[1], &again[1]));
}

#[test]
fn an_insn_stays_small_enough_to_be_dense() {
    let size = std::mem::size_of::<Insn>();
    assert!(size <= 16, "{size}");
}

#[test]
fn an_unrelated_definition_leaves_the_entry_alone() {
    let mut scope = booted().scope();
    let name = scope.symbols_mut().intern("inline_cache_unrelated");
    let c = scope.define_class(Some("C"), Some(Builtin::Object.id()));
    let elsewhere = scope.define_class(Some("Elsewhere"), Some(Builtin::Object.id()));
    scope.classes_mut().define_method(c, name, number(1));
    let method = scope.classes_mut().lookup(c, name).unwrap();

    let mut caches = CallCaches::new();
    let base = caches.base(&iseq_with(1), 1);
    let serial = scope.classes().class_serial(c);
    caches.fill(base, c, serial, method);

    let noise = scope.symbols_mut().intern("inline_cache_noise");
    scope.classes_mut().define_method(elsewhere, noise, number(9));
    assert_eq!(scope.classes().class_serial(c), serial, "`C` did not move");
    assert!(
        caches.get(base, c, scope.classes().class_serial(c)).is_some(),
        "so its entry is still good"
    );
}

#[test]
fn a_class_serial_moves_with_what_the_class_inherits() {
    let mut scope = booted().scope();
    let name = scope.symbols_mut().intern("m");
    let a = scope.define_class(Some("A"), Some(Builtin::Object.id()));
    let b = scope.define_class(Some("B"), Some(a));
    let m = scope.define_module(Some("M"));
    let (in_a, in_b) = (scope.classes().class_serial(a), scope.classes().class_serial(b));

    scope.classes_mut().define_method(b, name, number(1));
    assert_eq!(scope.classes().class_serial(a), in_a, "a subclass is not an ancestor");
    assert!(scope.classes().class_serial(b) > in_b);
    let in_b = scope.classes().class_serial(b);

    scope.classes_mut().define_method(a, name, number(2));
    assert!(scope.classes().class_serial(a) > in_a);
    assert!(scope.classes().class_serial(b) > in_b);
    let in_b = scope.classes().class_serial(b);

    assert!(!scope.classes_mut().remove_method(m, name));
    assert_eq!(scope.classes().class_serial(b), in_b);
    assert!(scope.classes_mut().remove_method(a, name));
    assert!(scope.classes().class_serial(b) > in_b);
    let in_b = scope.classes().class_serial(b);
    scope.classes_mut().include_module(a, m).unwrap();
    assert!(scope.classes().class_serial(b) > in_b);
    assert_eq!(scope.classes().class_serial(b), scope.classes().serial());
}

#[test]
fn a_unit_is_held_once_and_a_copy_of_it_is_another() {
    let mut defs = Definitions::new();
    let (one, copy) = (iseq_with(1), iseq_with(1));
    assert_eq!(one, copy);
    assert_eq!(defs.hold(&one), 0);
    assert_eq!(defs.hold(&copy), 1);
    assert_eq!(defs.hold(&one), 0);
    assert_eq!(defs.hold_at(&one, Some(0)), 0);
    assert_eq!(defs.len(), 2);
    assert_eq!(defs.hold_at(&one, None), 2);
    assert_eq!(defs.len(), 3);
}
