//! The interpreter, on units built by hand.

use std::sync::Arc;

use spinel_vm::bytecode::{
    BlockRef, CallSite, CatchEntry, CatchKind, ConstScope, DefKind, Insn, Iseq, Keyword, Literal,
    Optional, ParamSpec,
};
use spinel_vm::double::Floats;
use spinel_vm::interp::bind::{check_arity, spreads};
use spinel_vm::interp::equal::{binop, case_eq};
use spinel_vm::interp::make::{new_array, new_string, string_new};
use spinel_vm::interp::number::{floor_div, floor_mod, integer_op, negate};
use spinel_vm::interp::{eval, eval_in, inspect, ruby_eq};
use spinel_vm::{BinOp, Builtin, Definition, Error, Frame, HandleScope, Heap, Native, Value};

struct Machine;

impl Floats for Machine {
    fn plus(&self, a: u64, b: u64) -> u64 {
        (f64::from_bits(a) + f64::from_bits(b)).to_bits()
    }
    fn minus(&self, a: u64, b: u64) -> u64 {
        (f64::from_bits(a) - f64::from_bits(b)).to_bits()
    }
    fn times(&self, a: u64, b: u64) -> u64 {
        (f64::from_bits(a) * f64::from_bits(b)).to_bits()
    }
    fn over(&self, a: u64, b: u64) -> u64 {
        (f64::from_bits(a) / f64::from_bits(b)).to_bits()
    }
    fn modulo(&self, a: u64, b: u64) -> u64 {
        let (a, b) = (f64::from_bits(a), f64::from_bits(b));
        (a - b * (a / b).floor()).to_bits()
    }
    fn text(&self, a: u64) -> String {
        let double = f64::from_bits(a);
        if double.is_finite() && double.fract() == 0.0 {
            format!("{double:.1}")
        } else {
            double.to_string()
        }
    }
}

fn booted() -> Heap {
    let mut scope = Heap::new().scope();
    scope.bootstrap();
    scope.close()
}

fn number(n: i64) -> Value {
    Value::fixnum(n).unwrap()
}

fn double(d: f64) -> Value {
    Value::flonum(d.to_bits()).unwrap()
}

fn unit(insns: Vec<Insn>, literals: Vec<Literal>, max_stack: usize) -> Arc<Iseq> {
    Arc::new(Iseq {
        name: "<test>".to_string(),
        insns,
        literals,
        symbols: vec!["a_symbol".to_string()],
        locals: vec!["slot".to_string()],
        max_stack,
        ..Iseq::default()
    })
}

fn site(name: u32, argc: u16, block: BlockRef) -> CallSite {
    CallSite {
        name,
        argc,
        splats: Vec::new(),
        keywords: Vec::new(),
        block,
        implicit_self: true,
    }
}

/// Run a unit in a fresh heap, and render what came of it.
fn run(iseq: Iseq) -> Result<String, Error> {
    let mut scope = booted().scope();
    let mut frame = Frame::new(iseq.locals.len());
    let value = eval_in(&mut scope, &mut frame, &Arc::new(iseq), &Machine)?;
    Ok(inspect(&scope, value, &Machine))
}

#[test]
fn the_interpreter_allocates_and_reads_under_miri() {
    let iseq = unit(
        vec![
            // ["hi", :a_symbol] stored in a local, then read back.
            Insn::PushLit(0),
            Insn::PushSym(0),
            Insn::NewArray(2),
            Insn::SetLocal(0, 0),
            Insn::GetLocal(0, 0),
            Insn::Leave,
        ],
        vec![Literal::Str(b"hi".to_vec())],
        3,
    );

    let mut scope = booted().scope();
    let mut frame = Frame::new(1);
    let value = eval_in(&mut scope, &mut frame, &iseq, &Machine).expect("should run");
    assert_eq!(inspect(&scope, value, &Machine), "[\"hi\", :a_symbol]");
    assert_eq!(frame.local(&scope, 0), Some(value));
}

#[test]
fn a_collection_mid_run_does_not_lose_the_stack() {
    let iseq = unit(
        vec![
            Insn::PushLit(0),
            Insn::PushLit(0),
            Insn::NewArray(2),
            Insn::Leave,
        ],
        vec![Literal::Str(b"survivor".to_vec())],
        3,
    );

    let mut scope = booted().scope();
    let mut frame = Frame::new(1);
    scope.collect();
    let value = eval_in(&mut scope, &mut frame, &iseq, &Machine).expect("should run");
    scope.collect();
    assert_eq!(
        inspect(&scope, value, &Machine),
        "[\"survivor\", \"survivor\"]"
    );
}

/// The text `check_arity` puts in the raise.
fn message(spec: &ParamSpec, given: usize) -> String {
    match check_arity(spec, given) {
        Err(Error::Raise { message, .. }) => message,
        other => panic!("expected an ArgumentError, got {other:?}"),
    }
}

#[test]
fn an_arity_error_carries_rubys_own_message() {
    let fixed = ParamSpec {
        required: 1,
        ..ParamSpec::default()
    };
    assert_eq!(
        message(&fixed, 2),
        "wrong number of arguments (given 2, expected 1)"
    );

    let splat = ParamSpec {
        required: 2,
        rest: Some(2),
        ..ParamSpec::default()
    };
    assert_eq!(
        message(&splat, 1),
        "wrong number of arguments (given 1, expected 2+)"
    );

    let optional = ParamSpec {
        required: 1,
        optional: vec![Optional { slot: 1 }],
        ..ParamSpec::default()
    };
    assert_eq!(
        message(&optional, 3),
        "wrong number of arguments (given 3, expected 1..2)"
    );

    // A count inside the range is not an error at all.
    assert!(check_arity(&optional, 2).is_ok());
    assert!(check_arity(&splat, 9).is_ok());
}

#[test]
fn a_block_spreads_a_lone_array_only_when_it_has_room() {
    let one = ParamSpec {
        required: 1,
        ..ParamSpec::default()
    };
    let two = ParamSpec {
        required: 2,
        ..ParamSpec::default()
    };
    let splat = ParamSpec {
        rest: Some(0),
        ..ParamSpec::default()
    };
    let trailing_comma = ParamSpec {
        required: 1,
        rest: Some(1),
        ..ParamSpec::default()
    };
    let one_optional = ParamSpec {
        optional: vec![Optional { slot: 0 }],
        ..ParamSpec::default()
    };
    assert!(!spreads(&one));
    assert!(spreads(&two));
    assert!(!spreads(&splat));
    assert!(spreads(&trailing_comma));
    assert!(!spreads(&one_optional));
}

#[test]
fn a_parameter_list_counts_its_slots_and_its_arity() {
    let spec = ParamSpec {
        required: 2,
        optional: vec![Optional { slot: 2 }],
        rest: Some(3),
        post: 1,
        keywords: vec![Keyword { name: 0, slot: 5, required: true }],
        kwrest: Some(6),
        no_keywords: false,
        block: Some(7),
    };
    assert_eq!(spec.slots(), 8);
    assert_eq!(spec.min_positional(), 3);
    assert_eq!(spec.max_positional(), None);
    assert!(!spec.is_simple());
    assert_eq!(spec.arity(), -4);
    let plain = ParamSpec {
        required: 2,
        ..ParamSpec::default()
    };
    assert!(plain.is_simple());
    assert_eq!((plain.arity(), plain.max_positional()), (2, Some(2)));
}

#[test]
fn a_call_pushes_a_frame_under_miri() {
    let callee = Arc::new(Iseq {
        name: "callee".to_string(),
        insns: vec![Insn::GetLocal(0, 0), Insn::Leave],
        locals: vec!["a".to_string()],
        max_stack: 1,
        params: ParamSpec {
            required: 1,
            ..ParamSpec::default()
        },
        scope_barrier: true,
        ..Iseq::default()
    });
    let caller = Arc::new(Iseq {
        name: "<test>".to_string(),
        insns: vec![Insn::PushSelf, Insn::PushInt(7), Insn::Send(0), Insn::Leave],
        symbols: vec!["callee".to_string()],
        call_sites: vec![site(0, 1, BlockRef::Absent)],
        max_stack: 3,
        ..Iseq::default()
    });

    let mut scope = booted().scope();
    let mut frame = Frame::new(0);
    let name = scope.symbols_mut().intern("callee");
    let body = scope.definitions_mut().intern_iseq(&callee, 1);
    scope
        .classes_mut()
        .define_method(Builtin::Object.id(), name, body);

    let value = eval_in(&mut scope, &mut frame, &caller, &Machine).expect("should run");
    assert_eq!(inspect(&scope, value, &Machine), "7");
}

#[test]
fn arithmetic_that_leaves_the_fast_path_refuses() {
    for (op, left, right) in [
        (BinOp::Add, Value::true_(), number(1)),
        (BinOp::Lt, Value::nil(), Value::nil()),
    ] {
        let mut scope = booted().scope();
        assert!(
            matches!(
                binop(&mut scope, op, left, right, &Machine),
                Err(Error::NoDispatch { .. })
            ),
            "{op:?} should refuse rather than guess"
        );
    }
}

#[test]
fn division_rounds_down_and_takes_the_divisors_sign() {
    assert_eq!(floor_div(-7, 2), Some(-4));
    assert_eq!(floor_div(7, -2), Some(-4));
    assert_eq!(floor_div(i64::MIN, -1), None);
    assert_eq!(floor_mod(-7, 2), Some(1));
    assert_eq!(floor_mod(7, -2), Some(-1));
    assert_eq!(floor_div(6, 3), Some(2));
}

#[test]
fn integers_leave_the_fixnum_range_loudly() {
    assert_eq!(integer_op(BinOp::Mul, 6, 7).unwrap(), number(42));
    assert_eq!(integer_op(BinOp::Lt, 6, 7).unwrap(), Value::true_());
    assert!(matches!(
        integer_op(BinOp::Add, Value::FIXNUM_MAX, 1),
        Err(Error::NoDispatch { .. })
    ));
    match integer_op(BinOp::Div, 1, 0) {
        Err(e) => assert!(e.message().contains("ZeroDivisionError")),
        Ok(_) => panic!("dividing by zero has no value"),
    }
    assert_eq!(negate(number(3)).unwrap(), number(-3));
}

#[test]
fn doubles_add_and_compare() {
    let mut scope = booted().scope();
    let sum = binop(&mut scope, BinOp::Add, double(1.5), number(2), &Machine).unwrap();
    assert_eq!(sum, double(3.5));
    let less = binop(&mut scope, BinOp::Lt, double(1.5), number(2), &Machine).unwrap();
    assert_eq!(less, Value::true_());
    let rest = binop(&mut scope, BinOp::Mod, double(-7.5), number(2), &Machine).unwrap();
    assert_eq!(rest, double(0.5));
    assert!(ruby_eq(&scope, number(1), double(1.0)).unwrap());
}

fn array(scope: &mut HandleScope, elements: Vec<Value>) -> Value {
    new_array(scope, elements).unwrap()
}

#[test]
fn equality_is_by_contents() {
    let mut scope = booted().scope();
    let a = string_new(&mut scope, "text").unwrap();
    let b = string_new(&mut scope, "text").unwrap();
    let c = string_new(&mut scope, "other").unwrap();
    assert!(ruby_eq(&scope, a, b).unwrap());
    assert!(!ruby_eq(&scope, a, c).unwrap());
    let x = array(&mut scope, vec![number(1), a]);
    let y = array(&mut scope, vec![number(1), b]);
    let z = array(&mut scope, vec![number(1), c]);
    assert!(ruby_eq(&scope, x, y).unwrap());
    assert!(!ruby_eq(&scope, x, z).unwrap());
    assert!(!ruby_eq(&scope, x, a).unwrap());
}

#[test]
fn a_when_condition_matches_by_value_and_a_class_needs_a_send() {
    let mut scope = booted().scope();
    let text = string_new(&mut scope, "text").unwrap();
    let same = string_new(&mut scope, "text").unwrap();
    let class = scope.classes().object(Builtin::String.id());
    assert!(case_eq(&scope, text, same).unwrap());
    assert!(!case_eq(&scope, number(1), number(2)).unwrap());
    assert!(matches!(
        case_eq(&scope, class, text),
        Err(Error::NoDispatch { .. })
    ));
}

#[test]
fn values_read_the_way_ruby_writes_them() {
    let mut scope = booted().scope();
    let id = scope.symbols_mut().intern("sym");
    let text = string_new(&mut scope, "a \"b\"\n").unwrap();
    let odd = new_string(&mut scope, vec![b'a', 0xff]).unwrap();
    let list = array(
        &mut scope,
        vec![
            Value::nil(),
            Value::true_(),
            Value::false_(),
            number(-3),
            double(1.5),
            Value::symbol(id),
            text,
        ],
    );
    assert_eq!(
        inspect(&scope, list, &Machine),
        "[nil, true, false, -3, 1.5, :sym, \"a \\\"b\\\"\\n\"]"
    );
    assert_eq!(inspect(&scope, odd, &Machine), "\"a\u{fffd}\"");
    let class = scope.classes().object(Builtin::Array.id());
    assert_eq!(inspect(&scope, class, &Machine), "Array");
}

#[test]
fn a_name_that_is_no_constant_says_so() {
    let error = run(Iseq {
        insns: vec![Insn::GetConst(0, ConstScope::Lexical), Insn::Leave],
        symbols: vec!["Nope".to_string()],
        max_stack: 1,
        ..Iseq::default()
    })
    .unwrap_err();
    assert!(
        error.message().contains("uninitialized constant Nope"),
        "{}",
        error.message()
    );
}

#[test]
fn a_missing_method_is_named_with_its_class() {
    let error = run(Iseq {
        insns: vec![Insn::PushInt(1), Insn::Send(0), Insn::Leave],
        symbols: vec!["frobnicate".to_string()],
        call_sites: vec![site(0, 0, BlockRef::Absent)],
        max_stack: 2,
        ..Iseq::default()
    })
    .unwrap_err();
    assert_eq!(
        error.message(),
        "would raise NoMethodError: undefined method 'frobnicate' for an instance of Integer"
    );
}

#[test]
fn an_ensure_range_runs_when_a_raise_passes_it() {
    // begin; 1 / 0; ensure; slot = 9; end, with the raise going on outward.
    let mut scope = booted().scope();
    let mut frame = Frame::new(1);
    let iseq = Arc::new(Iseq {
        insns: vec![
            Insn::PushInt(1),
            Insn::PushInt(0),
            Insn::BinOp(BinOp::Div),
            Insn::Leave,
            Insn::PushInt(9),
            Insn::SetLocal(0, 0),
            Insn::LeaveEnsure,
            Insn::PushNil,
            Insn::Leave,
        ],
        locals: vec!["slot".to_string()],
        max_stack: 3,
        catch_table: vec![CatchEntry {
            kind: CatchKind::Ensure,
            start: 0,
            end: 3,
            target: 4,
            stack_depth: 0,
        }],
        ..Iseq::default()
    });
    let error = eval_in(&mut scope, &mut frame, &iseq, &Machine).unwrap_err();
    assert!(error.message().contains("ZeroDivisionError"));
    assert_eq!(frame.local(&scope, 0), Some(number(9)));
}

#[test]
fn a_unit_that_names_what_it_does_not_have_is_malformed() {
    let error = run(Iseq {
        insns: vec![Insn::PushLit(4), Insn::Leave],
        max_stack: 1,
        ..Iseq::default()
    })
    .unwrap_err();
    assert!(matches!(error, Error::Malformed { .. }), "{error:?}");
}

#[test]
fn a_heap_is_handed_back_with_the_answer() {
    let iseq = Arc::new(Iseq {
        insns: vec![Insn::PushInt(5), Insn::Leave],
        max_stack: 1,
        ..Iseq::default()
    });
    let (heap, result) = eval(booted(), &iseq, &Machine);
    assert_eq!(result.unwrap(), number(5));
    assert!(heap.classes().len() >= Builtin::all().len());
}

#[test]
fn a_def_makes_a_method_that_a_call_finds() {
    let method = Arc::new(Iseq {
        name: "twice".to_string(),
        insns: vec![
            Insn::GetLocal(0, 0),
            Insn::GetLocal(0, 0),
            Insn::BinOp(BinOp::Add),
            Insn::Leave,
        ],
        locals: vec!["n".to_string()],
        max_stack: 2,
        params: ParamSpec {
            required: 1,
            ..ParamSpec::default()
        },
        scope_barrier: true,
        ..Iseq::default()
    });
    let got = run(Iseq {
        insns: vec![
            Insn::DefineMethod(0),
            Insn::Pop,
            Insn::PushSelf,
            Insn::PushInt(21),
            Insn::Send(0),
            Insn::Leave,
        ],
        symbols: vec!["twice".to_string()],
        definitions: vec![(0, 0)],
        children: vec![method],
        call_sites: vec![site(0, 1, BlockRef::Absent)],
        max_stack: 3,
        ..Iseq::default()
    });
    assert_eq!(got.unwrap(), "42");
    assert_ne!(DefKind::Class, DefKind::Module);
}

#[test]
fn a_native_method_is_found_after_boot() {
    let mut scope = booted().scope();
    let name = scope.symbols_mut().intern("class");
    let found = scope
        .classes_mut()
        .lookup(Builtin::Object.id(), name)
        .expect("a primitive");
    assert!(matches!(
        scope.definitions().get(found.body),
        Some(Definition::Native(Native::ClassOf))
    ));
}

#[test]
fn integers_compare_exactly() {
    let scope = booted().scope();
    let (a, b) = (number(9_007_199_254_740_992), number(9_007_199_254_740_993));
    assert_eq!(ruby_eq(&scope, a, b), Ok(false));
    assert_eq!(ruby_eq(&scope, b, b), Ok(true));
    assert_eq!(ruby_eq(&scope, number(3), double(3.0)), Ok(true));
    assert_eq!(ruby_eq(&scope, double(3.0), number(3)), Ok(true));
    assert_eq!(ruby_eq(&scope, double(3.5), number(3)), Ok(false));
}

/// An array around an array, so many times.
fn nested(scope: &mut HandleScope, depth: usize) -> Value {
    let mut value = array(scope, vec![]);
    for _ in 0..depth {
        value = array(scope, vec![value]);
    }
    value
}

#[test]
fn arrays_nest_as_deep_as_they_are_built() {
    let mut scope = booted().scope();
    let (left, right) = (nested(&mut scope, 20_000), nested(&mut scope, 20_000));
    assert_eq!(ruby_eq(&scope, left, right), Ok(true));
    let deeper = array(&mut scope, vec![right]);
    assert_eq!(ruby_eq(&scope, left, deeper), Ok(false));
    let text = inspect(&scope, left, &Machine);
    assert_eq!(text, "[".repeat(20_001) + &"]".repeat(20_001));
}

#[test]
fn an_array_inside_itself_is_followed_no_further_than_there_are_objects() {
    let mut scope = booted().scope();
    let one = array(&mut scope, vec![Value::nil()]);
    let other = array(&mut scope, vec![Value::nil()]);
    let (a, b) = (scope.root(one), scope.root(other));
    scope.set_slot(a, 0, one);
    scope.set_slot(b, 0, other);
    assert!(matches!(ruby_eq(&scope, one, other), Err(Error::Exhausted { .. })));
    assert_eq!(ruby_eq(&scope, one, one), Ok(true));
    assert!(inspect(&scope, one, &Machine).contains("[[...]]"));
}
