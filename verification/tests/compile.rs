//! From the syntax tree to code, and what the code answers.

use std::sync::Arc;

use spinel_vm::ast::{
    Alias, Assign, AssignOp, Begin, Block, BlockArg, Call, CallTarget, Case, CaseBranches, Class, ConstPath,
    Def, Expr, ExprKind, HashEntry, HashEntryKind, HashLit, If, IndexTarget, IntValue, KeywordRest,
    Logical,
    LogicalOp, Module, MultiTarget, OptionalParam, ParamList, Params, Program, RangeLit,
    RequiredParam, Rescue, RescueMod, RestParam, SingletonClass, Span, StrPart, Super, Target,
    TargetKind, VarRef, WhenClause, While,
};
use spinel_vm::bytecode::{CatchKind, Insn, Iseq};
use spinel_vm::compile::{self, declared_locals};
use spinel_vm::double::Floats;
use spinel_vm::interp::{eval_in, inspect};
use spinel_vm::{Error, Frame, Heap};

struct Machine;

impl Floats for Machine {
    fn plus(&self, a: u64, b: u64) -> u64 {
        (f64::from_bits(a) + f64::from_bits(b)).to_bits()
    }
    fn minus(&self, a: u64, b: u64) -> u64 {
        (f64::from_bits(a) - f64::from_bits(b)).to_bits()
    }
    fn times(&self, a: u64, b: u64) -> u64 {
        (f64::from_bits(a) * f64::from_bits(b)).to_bits()
    }
    fn over(&self, a: u64, b: u64) -> u64 {
        (f64::from_bits(a) / f64::from_bits(b)).to_bits()
    }
    fn modulo(&self, a: u64, b: u64) -> u64 {
        let (a, b) = (f64::from_bits(a), f64::from_bits(b));
        (a - b * (a / b).floor()).to_bits()
    }
    fn text(&self, a: u64) -> String {
        let double = f64::from_bits(a);
        if double.is_finite() && double.fract() == 0.0 {
            format!("{double:.1}")
        } else {
            double.to_string()
        }
    }
}

const HERE: Span = Span { start: 3, end: 7 };

fn e(kind: ExprKind) -> Expr {
    Expr { span: HERE, kind }
}

fn num(n: i64) -> Expr {
    e(ExprKind::Int(IntValue::Small(n)))
}

fn yes() -> Expr {
    e(ExprKind::True)
}

fn nothing() -> Expr {
    e(ExprKind::Nil)
}

fn sym(name: &str) -> Expr {
    e(ExprKind::Sym(vec![StrPart::Bytes(name.as_bytes().to_vec())]))
}

fn text(bytes: &str) -> Expr {
    e(ExprKind::Str(vec![StrPart::Bytes(bytes.as_bytes().to_vec())]))
}

fn local(name: &str) -> Expr {
    e(ExprKind::Var(VarRef::Local { name: name.to_string(), depth: 0 }))
}

fn constant(name: &str) -> Expr {
    e(ExprKind::Var(VarRef::Const(name.to_string())))
}

fn path(parent: Option<Expr>, name: &str) -> Expr {
    e(ExprKind::ConstPath(Box::new(ConstPath {
        parent,
        name: Some(name.to_string()),
    })))
}

fn to(kind: TargetKind) -> Target {
    Target { span: HERE, kind }
}

fn to_local(name: &str) -> Target {
    to(TargetKind::Var(VarRef::Local { name: name.to_string(), depth: 0 }))
}

fn to_const(name: &str) -> Target {
    to(TargetKind::Var(VarRef::Const(name.to_string())))
}

fn assign(target: Target, op: AssignOp, value: Expr) -> Expr {
    e(ExprKind::Assign(Box::new(Assign { target, op, value })))
}

fn set(name: &str, value: Expr) -> Expr {
    assign(to_local(name), AssignOp::Assign, value)
}

fn call(receiver: Option<Expr>, name: &str, args: Vec<Expr>) -> Expr {
    e(ExprKind::Call(Box::new(Call {
        receiver,
        name: name.to_string(),
        args,
        block: None,
        safe_nav: false,
        attribute_write: false,
    })))
}

fn op(left: Expr, name: &str, right: Expr) -> Expr {
    call(Some(left), name, vec![right])
}

fn branch(predicate: Expr, yes: Vec<Expr>, no: Option<Vec<Expr>>) -> Expr {
    e(ExprKind::If(Box::new(If {
        predicate,
        then_body: yes,
        else_body: no,
        unless: false,
    })))
}

fn repeat(predicate: Expr, body: Vec<Expr>) -> Expr {
    e(ExprKind::While(Box::new(While {
        predicate,
        body,
        until: false,
        post: false,
    })))
}

fn array(elements: Vec<Expr>) -> Expr {
    e(ExprKind::Array(elements))
}

fn class(path: Target, superclass: Option<Expr>, body: Vec<Expr>) -> Expr {
    e(ExprKind::Class(Box::new(Class { path, superclass, locals: Vec::new(), body })))
}

fn module(name: &str) -> Expr {
    e(ExprKind::Module(Box::new(Module {
        path: to_const(name),
        locals: Vec::new(),
        body: Vec::new(),
    })))
}

fn no_params() -> ParamList {
    ParamList {
        required: Vec::new(),
        optional: Vec::new(),
        rest: None,
        posts: Vec::new(),
        keywords: Vec::new(),
        keyword_rest: None,
        block: None,
        locals: Vec::new(),
    }
}

fn named(names: &[&str]) -> Vec<RequiredParam> {
    names
        .iter()
        .map(|name| RequiredParam::Named(name.to_string()))
        .collect()
}

fn def(receiver: Option<Expr>, name: &str, params: ParamList, body: Vec<Expr>) -> Expr {
    let mut locals = Vec::new();
    for param in &params.required {
        if let RequiredParam::Named(name) = param {
            locals.push(name.clone());
        }
    }
    for param in &params.optional {
        locals.push(param.name.clone());
    }
    if let Some(rest) = &params.rest {
        locals.extend(rest.name.clone());
    }
    e(ExprKind::Def(Box::new(Def {
        receiver,
        name: name.to_string(),
        params: Params::Explicit(params),
        locals,
        body,
    })))
}

fn protect(body: Vec<Expr>, rescues: Vec<Rescue>, ensure: Option<Vec<Expr>>) -> Expr {
    e(ExprKind::Begin(Box::new(Begin {
        body,
        rescues,
        else_body: None,
        ensure_body: ensure,
    })))
}

fn program(body: Vec<Expr>) -> Program {
    Program { locals: declared_locals(&body), body }
}

fn unit(body: Vec<Expr>) -> Iseq {
    compile::program(&program(body)).expect("should compile")
}

/// Compile and run, and render the result the way a report would.
fn eval(body: Vec<Expr>) -> Result<String, String> {
    let iseq = compile::program(&program(body))
        .map_err(|e| format!("unsupported: {}", e.message()))?;
    let mut scope = Heap::new().scope();
    scope.bootstrap();
    let mut frame = Frame::new(iseq.locals.len());
    let value = eval_in(&mut scope, &mut frame, &Arc::new(iseq), &Machine)
        .map_err(|e| format!("error: {}", e.message()))?;
    Ok(inspect(&scope, value, &Machine))
}

/// The jumps of a unit, in order, as displacements.
fn jumps(iseq: &Iseq) -> Vec<i32> {
    iseq.insns
        .iter()
        .filter_map(|insn| match *insn {
            Insn::Jump(d)
            | Insn::JumpIf(d)
            | Insn::JumpUnless(d)
            | Insn::JumpIfKeep(d)
            | Insn::JumpUnlessKeep(d) => Some(d),
            _ => None,
        })
        .collect()
}

#[test]
fn the_same_code_compiles_to_the_same_jumps_wherever_it_sits() {
    let choice = || branch(yes(), vec![num(1)], Some(vec![num(2)]));
    let alone = unit(vec![choice()]);
    let preceded = unit(vec![
        set("x", num(1)),
        set("y", num(2)),
        set("z", num(3)),
        choice(),
    ]);

    assert!(!jumps(&alone).is_empty(), "an if should emit jumps");
    assert_eq!(jumps(&alone), jumps(&preceded));
}

fn counting() -> Vec<Expr> {
    vec![
        set("i", num(0)),
        repeat(
            op(local("i"), "<", num(3)),
            vec![assign(to_local("i"), AssignOp::Binary("+".to_string()), num(1))],
        ),
    ]
}

#[test]
fn a_loops_back_edge_is_negative_and_its_exit_is_positive() {
    let jumps = jumps(&unit(counting()));
    assert!(
        jumps.iter().any(|&d| d < 0),
        "a while must jump backwards: {jumps:?}"
    );
    assert!(
        jumps.iter().any(|&d| d > 0),
        "a while must jump past its body: {jumps:?}"
    );
}

#[test]
fn symbols_are_stored_by_name_and_deduplicated() {
    let iseq = unit(vec![sym("a"), sym("b"), sym("a")]);
    assert_eq!(iseq.symbols, vec!["a", "b"], "the pool holds names, once each");
    let pushes: Vec<u32> = iseq
        .insns
        .iter()
        .filter_map(|insn| match *insn {
            Insn::PushSym(index) => Some(index),
            _ => None,
        })
        .collect();
    assert_eq!(pushes, vec![0, 1, 0]);
}

#[test]
fn an_iseq_relinks_against_a_symbol_table_it_has_never_seen() {
    let iseq = Arc::new(unit(vec![array(vec![sym("relink_alpha"), sym("relink_beta")])]));
    let mut scope = Heap::new().scope();
    scope.bootstrap();
    let mut frame = Frame::new(0);
    let value = eval_in(&mut scope, &mut frame, &iseq, &Machine).unwrap();
    let before = inspect(&scope, value, &Machine);

    let first = iseq.link(scope.symbols_mut());
    // Move the table on underneath it.
    for extra in 0..64 {
        scope.symbols_mut().intern(&format!("unrelated_{extra}"));
    }
    let after = iseq.link(scope.symbols_mut());

    assert_eq!(first, after, "the same names must relink to the same ids");
    let mut frame = Frame::new(0);
    let value = eval_in(&mut scope, &mut frame, &iseq, &Machine).unwrap();
    assert_eq!(before, inspect(&scope, value, &Machine));
    assert_eq!(before, "[:relink_alpha, :relink_beta]");
}

#[test]
fn max_stack_is_what_the_program_actually_needs() {
    for (body, expected) in [
        (vec![num(1)], 1),
        (vec![array(vec![num(1), num(2), num(3)])], 3),
        (vec![op(num(1), "+", num(2))], 2),
        (vec![set("a", num(1))], 2),
        (vec![branch(yes(), vec![num(1)], Some(vec![num(2)]))], 1),
    ] {
        let shown = format!("{body:?}");
        assert_eq!(unit(body).max_stack, expected, "for {shown}");
    }
}

#[test]
fn every_iseq_ends_by_leaving() {
    for body in [
        vec![],
        vec![num(1)],
        vec![branch(yes(), vec![num(1)], None)],
        vec![repeat(e(ExprKind::False), vec![])],
        vec![set("a", num(1))],
    ] {
        let shown = format!("{body:?}");
        assert_eq!(unit(body).insns.last(), Some(&Insn::Leave), "for {shown}");
    }
}

#[test]
fn a_local_keeps_its_slot_across_separately_compiled_expressions() {
    let mut locals: Vec<String> = Vec::new();
    let mut scope = Heap::new().scope();
    scope.bootstrap();
    let mut frame = Frame::new(0);

    let mut last = String::new();
    for statement in [set("a", num(1)), set("b", num(2)), local("a")] {
        let iseq = compile::expression("<test>", &locals, &statement).expect("should compile");
        locals.clone_from(&iseq.locals);
        frame.reserve(iseq.locals.len());
        let value = eval_in(&mut scope, &mut frame, &Arc::new(iseq), &Machine).expect("should run");
        last = inspect(&scope, value, &Machine);
    }
    assert_eq!(last, "1", "`a` should still hold 1 in the third statement");
}

/// `[1, 2].each { |i| if i == 1 then begin; next; ensure; nil; end else i end }`
fn next_through_ensure() -> Expr {
    let body = branch(
        op(local("i"), "==", num(1)),
        vec![protect(
            vec![e(ExprKind::Next(None))],
            vec![],
            Some(vec![nothing()]),
        )],
        Some(vec![local("i")]),
    );
    e(ExprKind::Call(Box::new(Call {
        receiver: Some(array(vec![num(1), num(2)])),
        name: "each".to_string(),
        args: vec![],
        block: Some(BlockArg::Block(Block {
            params: Params::Explicit(ParamList {
                required: named(&["i"]),
                ..no_params()
            }),
            locals: vec!["i".to_string()],
            body: vec![body],
        })),
        safe_nav: false,
        attribute_write: false,
    })))
}

#[test]
fn next_through_an_ensure_keeps_both_if_arms_at_one_depth() {
    let iseq = unit(vec![next_through_ensure()]);
    let block = &iseq.children[0];
    assert!(block.insns.contains(&Insn::LeaveThroughEnsure));
    assert_eq!(block.insns.last(), Some(&Insn::Leave));
}

fn with_block(receiver: Option<Expr>, name: &str, args: Vec<Expr>, block: Block) -> Expr {
    e(ExprKind::Call(Box::new(Call {
        receiver,
        name: name.to_string(),
        args,
        block: Some(BlockArg::Block(block)),
        safe_nav: false,
        attribute_write: false,
    })))
}

/// `def each; yield 1; end; log = []`, then a block on it that adds `:begin`,
/// leaves by `next` and adds `:ensure`, then `log`.
#[test]
fn next_runs_the_ensure_it_leaves() {
    let outer = || VarRef::Local { name: "log".to_string(), depth: 1 };
    let note = |what: &str| {
        assign(
            to(TargetKind::Var(outer())),
            AssignOp::Assign,
            op(e(ExprKind::Var(outer())), "+", array(vec![sym(what)])),
        )
    };
    let each = def(None, "each", no_params(), vec![e(ExprKind::Yield(vec![num(1)]))]);
    let block = Block {
        params: Params::Explicit(ParamList { required: named(&["i"]), ..no_params() }),
        locals: vec!["i".to_string()],
        body: vec![protect(
            vec![note("begin"), e(ExprKind::Next(None))],
            vec![],
            Some(vec![note("ensure")]),
        )],
    };
    let answer = eval(vec![
        each,
        set("log", array(vec![])),
        with_block(None, "each", vec![], block),
        local("log"),
    ]);
    assert_eq!(answer.as_deref(), Ok("[:begin, :ensure]"));
}

/// `def self.inherited(sub); end`
fn hook() -> Expr {
    def(
        Some(e(ExprKind::SelfExpr)),
        "inherited",
        ParamList { required: named(&["sub"]), ..no_params() },
        vec![],
    )
}

#[test]
fn refusals_are_refusals() {
    for (body, why) in [
        (
            vec![
                set(
                    "p1",
                    with_block(
                        Some(constant("Class")),
                        "new",
                        vec![],
                        Block { params: Params::Absent, locals: vec![], body: vec![hook()] },
                    ),
                ),
                call(Some(constant("Class")), "new", vec![local("p1")]),
            ],
            "`Class.new` with a hook on the superclass",
        ),
        (
            vec![
                class(to_const("P"), None, vec![hook()]),
                class(to_const("C"), Some(constant("P")), vec![]),
            ],
            "the `class` keyword with a hook on the superclass",
        ),
        (
            vec![
                class(to_const("P"), None, vec![hook()]),
                class(to_const("C"), None, vec![]),
                e(ExprKind::SingletonClass(Box::new(SingletonClass {
                    expression: constant("Object"),
                    locals: vec![],
                    body: vec![def(None, "inherited", no_params(), vec![])],
                }))),
                class(to_const("D"), Some(constant("C")), vec![]),
            ],
            "the `class` keyword with a hook further up",
        ),
        (
            vec![call(Some(constant("Class")), "allocate", vec![])],
            "an uninitialised class",
        ),
        (
            vec![call(Some(constant("Module")), "allocate", vec![])],
            "an uninitialised module",
        ),
    ] {
        let iseq = Arc::new(unit(body));
        let mut scope = Heap::new().scope();
        scope.bootstrap();
        let mut frame = Frame::new(iseq.locals.len());
        let answer = eval_in(&mut scope, &mut frame, &iseq, &Machine);
        assert!(
            matches!(answer, Err(Error::Unknowable { .. })),
            "{why} should refuse, but answered {answer:?}"
        );
    }
}

#[test]
fn reopening_does_not_refuse() {
    let answer = eval(vec![
        class(to_const("P"), None, vec![hook()]),
        class(to_const("P"), None, vec![def(None, "m", no_params(), vec![num(1)])]),
        call(Some(call(Some(constant("P")), "new", vec![])), "m", vec![]),
    ]);
    assert_eq!(answer.as_deref(), Ok("1"));
}

/// A block whose parameters end in one that is taken apart.
fn taking_apart(params: ParamList, locals: &[&str]) -> Expr {
    with_block(
        None,
        "proc",
        vec![],
        Block {
            params: Params::Explicit(params),
            locals: locals.iter().map(|name| name.to_string()).collect(),
            body: vec![local("b")],
        },
    )
}

#[test]
fn a_parameter_is_taken_apart_where_it_is_the_last() {
    let pair = || {
        RequiredParam::Destructure(Box::new(MultiTarget {
            lefts: vec![to_local("a"), to_local("b")],
            rest: None,
            rights: vec![],
        }))
    };
    let iseq = unit(vec![taking_apart(
        ParamList { required: vec![RequiredParam::Named("x".to_string()), pair()], ..no_params() },
        &["x", "a", "b"],
    )]);
    let block = &iseq.children[0];
    assert_eq!(block.params.required, 2);
    assert_eq!(block.locals, ["x", "a", "b"]);
    assert!(block.insns.contains(&Insn::GetLocal(1, 0)), "the slot it was bound to");
    assert!(block.insns.contains(&Insn::SetLocal(2, 0)));

    let after_a_rest = unit(vec![taking_apart(
        ParamList {
            rest: Some(RestParam { name: Some("r".to_string()), implicit: false }),
            posts: vec![pair()],
            ..no_params()
        },
        &["r", "a", "b"],
    )]);
    assert_eq!(after_a_rest.children[0].params.post, 1);

    for behind in [
        ParamList {
            required: vec![pair()],
            optional: vec![OptionalParam { name: "o".to_string(), default: num(1) }],
            ..no_params()
        },
        ParamList { required: vec![pair()], posts: named(&["p"]), ..no_params() },
        ParamList { required: vec![pair(), pair()], ..no_params() },
    ] {
        let refused = compile::program(&program(vec![taking_apart(behind, &["a", "b"])]));
        assert!(refused.unwrap_err().message().contains("a destructuring parameter"));
    }
    let nothing_bound = ParamList {
        required: vec![RequiredParam::Destructure(Box::new(MultiTarget {
            lefts: vec![],
            rest: None,
            rights: vec![],
        }))],
        ..no_params()
    };
    assert!(compile::program(&program(vec![taking_apart(nothing_bound, &[])])).is_err());
}

#[test]
fn a_unit_run_again_keeps_its_place_among_the_bodies() {
    let iseq = Arc::new(unit(vec![def(None, "m", no_params(), vec![num(1)])]));
    let mut scope = Heap::new().scope();
    scope.bootstrap();
    let start = scope.definitions().len();
    let mut frame = Frame::new(iseq.locals.len());
    for _ in 0..3 {
        eval_in(&mut scope, &mut frame, &iseq, &Machine).unwrap();
        assert_eq!(scope.definitions().len(), start + 1, "the method, and not the unit");
    }
    let other = Arc::new(unit(vec![num(2)]));
    eval_in(&mut scope, &mut frame, &other, &Machine).unwrap();
    assert_eq!(scope.definitions().len(), start + 1);
}

#[test]
fn a_method_may_collect_its_keywords() {
    for (name, slot_name) in [(Some("kw".to_string()), "kw"), (None, "**")] {
        let iseq = unit(vec![def(
            None,
            "m",
            ParamList {
                required: named(&["a"]),
                keyword_rest: Some(KeywordRest::Named(name)),
                ..no_params()
            },
            vec![num(1)],
        )]);
        let body = &iseq.children[0];
        assert_eq!(body.params.required, 1);
        assert_eq!(body.params.kwrest, Some(1));
        assert!(!body.params.no_keywords);
        assert_eq!(body.locals, ["a", slot_name]);
        assert_eq!(body.symbols, ["Hash", "__from_pairs__"]);
        assert_eq!(body.call_sites.len(), 1);
        assert_eq!(body.call_sites[0].argc, 1);
        assert_eq!(
            body.insns[1..4],
            [Insn::GetLocal(1, 0), Insn::Send(0), Insn::SetLocal(1, 0)],
            "what was collected becomes a hash before the body runs"
        );
        assert_eq!(body.insns.last(), Some(&Insn::Leave));
    }
}

#[test]
fn a_method_may_refuse_keywords() {
    let iseq = unit(vec![def(
        None,
        "m",
        ParamList { keyword_rest: Some(KeywordRest::Forbidden), ..no_params() },
        vec![num(1)],
    )]);
    let body = &iseq.children[0];
    assert!(body.params.no_keywords);
    assert_eq!(body.params.kwrest, None);
    assert_eq!(body.insns, [Insn::PushInt(1), Insn::Leave]);

    let refused = compile::program(&program(vec![def(
        None,
        "m",
        ParamList { keyword_rest: Some(KeywordRest::Forwarding), ..no_params() },
        vec![],
    )]));
    assert!(refused.unwrap_err().message().contains("argument forwarding"));
}

#[test]
fn collecting_keywords_waits_for_a_hash() {
    let answer = eval(vec![
        def(
            None,
            "m",
            ParamList { keyword_rest: Some(KeywordRest::Named(None)), ..no_params() },
            vec![num(1)],
        ),
        call(None, "m", vec![]),
    ]);
    let refused = answer.unwrap_err();
    assert!(refused.contains("a method that collects keywords"), "{refused}");

    let answer = eval(vec![
        def(
            None,
            "m",
            ParamList { keyword_rest: Some(KeywordRest::Forbidden), ..no_params() },
            vec![num(1)],
        ),
        call(None, "m", vec![]),
    ]);
    assert_eq!(answer.as_deref(), Ok("1"));
}

#[test]
fn a_construct_this_slice_does_not_compile_is_an_error_never_a_guess() {
    let class_var = || VarRef::Class("@@a".to_string());
    let back_ref = VarRef::BackRef("$&".to_string());
    for (source, body) in [
        (
            "@@a = 1",
            assign(to(TargetKind::Var(class_var())), AssignOp::Assign, num(1)),
        ),
        (
            "defined?(@@a)",
            e(ExprKind::Defined(Box::new(e(ExprKind::Var(class_var()))))),
        ),
        (
            "defined?($&)",
            e(ExprKind::Defined(Box::new(e(ExprKind::Var(back_ref))))),
        ),
        (
            "$~ = nil",
            assign(
                to(TargetKind::Var(VarRef::Global("$~".to_string()))),
                AssignOp::Assign,
                nothing(),
            ),
        ),
        ("A ||= 1", assign(to_const("A"), AssignOp::Or, num(1))),
        (
            "proc { |(a, b), c| }",
            e(ExprKind::Call(Box::new(Call {
                receiver: None,
                name: "proc".to_string(),
                args: vec![],
                block: Some(BlockArg::Block(Block {
                    params: Params::Explicit(ParamList {
                        required: vec![
                            RequiredParam::Destructure(Box::new(MultiTarget {
                                lefts: vec![to_local("a"), to_local("b")],
                                rest: None,
                                rights: vec![],
                            })),
                            RequiredParam::Named("c".to_string()),
                        ],
                        ..no_params()
                    }),
                    locals: vec!["a".to_string(), "b".to_string(), "c".to_string()],
                    body: vec![],
                })),
                safe_nav: false,
                attribute_write: false,
            }))),
        ),
    ] {
        match compile::program(&program(vec![body])) {
            Ok(_) => panic!("{source:?} compiled, but this slice cannot mean it"),
            Err(e) => {
                assert_eq!(e.span, HERE, "{source}");
                assert!(!e.message().is_empty());
            }
        }
    }
}

#[test]
fn naming_errors_carry_rubys_own_message() {
    for (body, want) in [
        (vec![constant("Nope")], "uninitialized constant Nope"),
        (vec![path(None, "Nope")], "uninitialized constant Nope"),
        (
            vec![module("M"), path(Some(constant("M")), "Nope")],
            "uninitialized constant M::Nope",
        ),
        (
            vec![
                class(to_const("C"), None, vec![]),
                path(Some(constant("C")), "Nope"),
            ],
            "uninitialized constant C::Nope",
        ),
        (
            vec![
                assign(to_const("TOP"), AssignOp::Assign, num(1)),
                class(to_const("B"), None, vec![]),
                class(to_const("S"), Some(constant("B")), vec![]),
                path(Some(constant("S")), "TOP"),
            ],
            "uninitialized constant S::TOP",
        ),
        (vec![path(Some(num(1)), "Nope")], "1 is not a class/module"),
        (
            vec![
                class(to_const("B"), None, vec![]),
                class(to_const("S"), Some(constant("B")), vec![]),
                class(to_const("S"), Some(constant("String")), vec![]),
            ],
            "superclass mismatch for class S",
        ),
        (
            vec![class(to_const("S"), Some(num(1)), vec![])],
            "superclass must be an instance of Class (given an instance of Integer)",
        ),
        (
            vec![module("M"), class(to_const("M"), None, vec![])],
            "M is not a class",
        ),
        (
            vec![class(to_const("C"), None, vec![]), module("C")],
            "C is not a module",
        ),
        (
            vec![e(ExprKind::SingletonClass(Box::new(SingletonClass {
                expression: num(1),
                locals: vec![],
                body: vec![],
            })))],
            "can't define singleton",
        ),
    ] {
        let shown = format!("{body:?}");
        let err = eval(body).unwrap_err();
        assert!(err.contains(want), "{shown}\n  want: {want}\n  got:  {err}");
    }
}

#[test]
fn defined_does_not_evaluate_what_it_reports_on() {
    let asked = |expr| e(ExprKind::Defined(Box::new(expr)));
    // The assignment does not happen.
    assert_eq!(
        eval(vec![set("a", num(1)), asked(set("a", num(2))), local("a")]).unwrap(),
        "1"
    );
    // The method is not called, though naming it is enough to answer.
    let boom = def(
        Some(e(ExprKind::SelfExpr)),
        "boom",
        no_params(),
        vec![call(None, "raise", vec![text("never")])],
    );
    assert_eq!(
        eval(vec![
            class(to_const("C"), None, vec![boom]),
            asked(call(Some(constant("C")), "boom", vec![])),
        ])
        .unwrap(),
        "\"method\""
    );
}

#[test]
fn dividing_by_zero_says_what_ruby_would_raise() {
    let err = eval(vec![op(num(1), "/", num(0))]).unwrap_err();
    assert!(err.contains("ZeroDivisionError"), "{err}");
}

#[test]
fn a_loop_that_does_not_end_is_stopped_rather_than_hanging() {
    let err = eval(vec![repeat(yes(), vec![])]).unwrap_err();
    assert!(err.contains("budget"), "{err}");
}

#[test]
fn source_position_keywords_answer_the_file_and_the_line() {
    let file = |path: &str| vec![e(ExprKind::SourceFile(path.as_bytes().to_vec()))];
    let line = |n| e(ExprKind::SourceLine(n));
    assert_eq!(eval(file("lt.rb")), Ok("\"lt.rb\"".to_owned()));
    assert_eq!(eval(file("a/b.rb")), Ok("\"a/b.rb\"".to_owned()));
    assert_eq!(eval(file("(eval)")), Ok("\"(eval)\"".to_owned()));

    assert_eq!(eval(vec![line(1)]), Ok("1".to_owned()));
    assert_eq!(eval(vec![line(2)]), Ok("2".to_owned()));
    assert_eq!(eval(vec![nothing(), nothing(), line(3)]), Ok("3".to_owned()));
    assert_eq!(
        eval(vec![array(vec![line(1), line(2)])]),
        Ok("[1, 2]".to_owned())
    );
    assert_eq!(eval(vec![nothing(), line(2)]), Ok("2".to_owned()));
}

#[test]
fn the_encoding_keyword_is_refused_under_its_own_reason() {
    let error = eval(vec![e(ExprKind::SourceEncoding)]).expect_err("it has no object yet");
    assert!(error.contains("Encoding"), "{error}");
}

#[test]
fn super_outside_a_method_is_refused_by_name() {
    let error = eval(vec![e(ExprKind::Super(Box::new(Super { args: None, block: None })))])
        .expect_err("`super` at the top level is not a call");
    assert!(error.contains("super"), "{error}");
}

#[test]
fn answers_are_rubys() {
    let and = |op, left, right| {
        e(ExprKind::Logical(Box::new(Logical { op, left, right })))
    };
    for (body, want) in [
        (vec![op(num(-7), "/", num(2))], "-4"),
        (vec![op(num(-7), "%", num(2))], "1"),
        (vec![call(Some(num(0)), "!", vec![])], "false"),
        (vec![and(LogicalOp::And, num(1), num(2))], "2"),
        (vec![and(LogicalOp::Or, nothing(), num(2))], "2"),
        (vec![branch(nothing(), vec![num(1)], None)], "nil"),
        (vec![op(num(2), "*", e(ExprKind::Float(1.5f64.to_bits())))], "3.0"),
        (vec![op(text("a"), "==", text("a"))], "true"),
        (vec![sym("a"), text("last")], "\"last\""),
        (vec![e(ExprKind::SelfExpr)], "#<object>"),
        (vec![constant("String")], "String"),
    ] {
        let shown = format!("{body:?}");
        assert_eq!(eval(body).as_deref(), Ok(want), "{shown}");
    }
    let mut count = counting();
    count.push(local("i"));
    assert_eq!(eval(count).unwrap(), "3");
}

#[test]
fn a_case_takes_the_first_branch_that_matches() {
    let case = |subject: Expr| {
        e(ExprKind::Case(Box::new(Case {
            predicate: Some(subject),
            branches: CaseBranches::When(vec![
                WhenClause { conditions: vec![text("x"), num(3)], body: vec![sym("a")] },
                WhenClause { conditions: vec![num(4)], body: vec![sym("b")] },
            ]),
            else_body: Some(vec![sym("c")]),
        })))
    };
    assert_eq!(eval(vec![case(text("x"))]).unwrap(), ":a");
    assert_eq!(eval(vec![case(num(3))]).unwrap(), ":a");
    assert_eq!(eval(vec![case(num(4))]).unwrap(), ":b");
    assert_eq!(eval(vec![case(nothing())]).unwrap(), ":c");
}

#[test]
fn a_method_takes_its_arguments_by_shape() {
    // def m(a, b = 7, *rest); [a, b, rest]; end
    let method = || {
        def(
            None,
            "m",
            ParamList {
                required: named(&["a"]),
                optional: vec![OptionalParam { name: "b".to_string(), default: num(7) }],
                rest: Some(RestParam { name: Some("rest".to_string()), implicit: false }),
                ..no_params()
            },
            vec![array(vec![local("a"), local("b"), local("rest")])],
        )
    };
    let with = |args: Vec<Expr>| eval(vec![method(), call(None, "m", args)]);
    assert_eq!(with(vec![num(1)]).unwrap(), "[1, 7, []]");
    assert_eq!(with(vec![num(1), num(2)]).unwrap(), "[1, 2, []]");
    assert_eq!(
        with(vec![num(1), num(2), num(3), num(4)]).unwrap(),
        "[1, 2, [3, 4]]"
    );
    let spread = e(ExprKind::Splat(Some(Box::new(array(vec![num(5), num(6)])))));
    assert_eq!(with(vec![num(1), spread]).unwrap(), "[1, 5, [6]]");
    assert!(with(vec![]).unwrap_err().contains("(given 0, expected 1+)"));
}

#[test]
fn a_bodys_room_is_what_its_parameters_and_statements_need() {
    // def m(a, b = [1, 2, 3]); a; end
    let iseq = unit(vec![def(
        None,
        "m",
        ParamList {
            required: named(&["a"]),
            optional: vec![OptionalParam {
                name: "b".to_string(),
                default: array(vec![num(1), num(2), num(3)]),
            }],
            ..no_params()
        },
        vec![local("a")],
    )]);
    assert_eq!(iseq.children[0].max_stack, 3);
    assert_eq!(iseq.children[0].insns.last(), Some(&Insn::Leave));
}

#[test]
fn a_rescue_and_an_ensure_each_protect_their_range() {
    let divide = || op(num(1), "/", num(0));
    let rescued = unit(vec![protect(
        vec![divide()],
        vec![Rescue {
            span: HERE,
            exceptions: vec![constant("ZeroDivisionError")],
            reference: None,
            body: vec![sym("yes")],
        }],
        None,
    )]);
    assert_eq!(rescued.catch_table.len(), 1);
    let entry = rescued.catch_table[0];
    assert_eq!(entry.kind, CatchKind::Rescue);
    assert!(entry.covers(entry.start) && !entry.covers(entry.end));
    assert!(entry.end <= entry.target);
    assert!(rescued.insns.contains(&Insn::CheckMatch));
    assert!(rescued.insns.contains(&Insn::Raise), "what no clause takes goes on");

    let modified = unit(vec![e(ExprKind::RescueMod(Box::new(RescueMod {
        value: divide(),
        rescue_value: sym("saved"),
    })))]);
    assert_eq!(modified.catch_table.len(), 1);
}

#[test]
fn an_ensure_runs_whether_its_body_ends_or_raises() {
    for (body, raises) in [
        (op(num(1), "/", num(0)), true),
        (op(num(1), "+", num(0)), false),
    ] {
        let iseq = Arc::new(unit(vec![
            set("a", num(1)),
            protect(vec![body], vec![], Some(vec![set("a", num(2))])),
        ]));
        let mut scope = Heap::new().scope();
        scope.bootstrap();
        let mut frame = Frame::new(iseq.locals.len());
        let result = eval_in(&mut scope, &mut frame, &iseq, &Machine);
        assert_eq!(result.is_err(), raises);
        let value = frame.local(&scope, 0).unwrap();
        assert_eq!(inspect(&scope, value, &Machine), "2");
    }
}

#[test]
fn a_raise_that_nothing_rescues_leaves_with_its_class_and_message() {
    let escaped = eval(vec![call(None, "raise", vec![constant("TypeError"), text("bad")])]);
    assert_eq!(escaped.unwrap_err(), "error: TypeError: bad");
}

#[test]
fn a_lambda_returns_from_itself_and_a_block_from_its_method() {
    let lambda = e(ExprKind::Lambda(Box::new(Block {
        params: Params::Explicit(ParamList { required: named(&["x"]), ..no_params() }),
        locals: vec!["x".to_string()],
        body: vec![
            e(ExprKind::Return(Some(Box::new(op(local("x"), "+", num(1)))))),
            sym("unreached"),
        ],
    })));
    assert_eq!(
        eval(vec![call(Some(lambda), "call", vec![num(4)])]).unwrap(),
        "5"
    );
    // def m; yield 1; :after; end; def n; m { return :early }; :late; end
    let m = def(
        None,
        "m",
        no_params(),
        vec![e(ExprKind::Yield(vec![num(1)])), sym("after")],
    );
    let leave = e(ExprKind::Call(Box::new(Call {
        receiver: None,
        name: "m".to_string(),
        args: vec![],
        block: Some(BlockArg::Block(Block {
            params: Params::Absent,
            locals: vec![],
            body: vec![e(ExprKind::Return(Some(Box::new(sym("early")))))],
        })),
        safe_nav: false,
        attribute_write: false,
    })));
    let n = def(None, "n", no_params(), vec![leave, sym("late")]);
    assert_eq!(eval(vec![m, n, call(None, "n", vec![])]).unwrap(), ":early");
}

#[test]
fn an_attribute_and_an_index_are_assigned_by_a_call() {
    let attribute = unit(vec![assign(
        to(TargetKind::Call(Box::new(CallTarget {
            receiver: e(ExprKind::SelfExpr),
            name: "size".to_string(),
            safe_nav: false,
        }))),
        AssignOp::Assign,
        num(1),
    )]);
    assert!(attribute.symbols.contains(&"size=".to_string()), "{:?}", attribute.symbols);
    let index = unit(vec![assign(
        to(TargetKind::Index(Box::new(IndexTarget {
            receiver: array(vec![]),
            args: vec![num(0)],
            block: false,
        }))),
        AssignOp::Assign,
        num(1),
    )]);
    assert!(index.symbols.contains(&"[]=".to_string()), "{:?}", index.symbols);
}

#[test]
fn an_alias_and_a_range_compile() {
    let alias = unit(vec![e(ExprKind::Alias(Box::new(Alias {
        global: false,
        new_name: sym("b"),
        old_name: sym("a"),
    })))]);
    assert!(alias.insns.iter().any(|insn| matches!(insn, Insn::Alias(_, _))));
    let range = unit(vec![e(ExprKind::Range(Box::new(RangeLit {
        left: Some(num(1)),
        right: Some(num(2)),
        exclude_end: true,
    })))]);
    assert_eq!(range.insns.last(), Some(&Insn::Leave));
    let hash = unit(vec![e(ExprKind::Hash(HashLit {
        braces: true,
        entries: vec![HashEntry {
            span: HERE,
            kind: HashEntryKind::Pair { key: sym("a"), value: num(1) },
        }],
    }))]);
    assert_eq!(hash.insns.last(), Some(&Insn::Leave));
}

#[test]
fn declared_locals_are_listed_once_in_order() {
    assert_eq!(
        declared_locals(&vec![set("b", num(1)), set("a", num(2)), set("b", num(3))]),
        ["b", "a"]
    );
}

#[test]
fn a_class_variable_is_read_by_name() {
    let read = e(ExprKind::Var(VarRef::Class("@@a".to_string())));
    let iseq = unit(vec![read]);
    assert_eq!(iseq.symbols, ["@@a"]);
    assert_eq!(iseq.insns, [Insn::GetCvar(0), Insn::Leave]);
}
