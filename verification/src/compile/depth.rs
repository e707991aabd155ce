//! How many operands code leaves.
//!
//! The compiler counts operands as it emits, and where two branches meet it
//! takes the count of one of them. That is sound because a construct leaves
//! what its kind says, whichever way control went through it: an expression
//! leaves one operand more than there were.

use vstd::prelude::*;

use crate::ast::{
    Alias, ArrayPattern, Assign, AssignOp, Begin, BlockArg, Call, CapturePattern, Case,
    CaseBranches, Class, ConstPath, Def, Expr, ExprKind, FindPattern, For, Guard, HashEntry,
    HashEntryKind, HashLit, HashPattern, If, InClause, IntValue, KeywordParam, KeywordRest, Logical,
    LogicalOp, MatchPattern, Module, MultiTarget, OptionalParam, ParamList, Params, PatternRest,
    RangeLit, RegexpLit, RequiredParam, Rescue, RescueMod, SingletonClass, Span, StrPart, Super,
    Target, TargetKind, VarRef, WhenClause, While,
};
use crate::bytecode;
use crate::bytecode::{
    BinOp, BlockRef, CatchKind, ConstScope, DefKind, Insn, Keyword, MatchRef, Optional,
};
use crate::compile::code;
use crate::compile::code::{Code, Jump, LiteralModel, ParamModel, SiteModel, ZsuperModel};
use crate::compile::counts;
use crate::compile::lower;
use crate::compile::lower::{Place, ERRINFO, FOR_ELEMENT, WIDEST};
use crate::compile::names;

verus! {

/// What [`lower::push_word`] leaves.
proof fn lemma_push_word(c: Code, word: &'static str)
    ensures
        ({
            let after = lower::push_word(c, word);
            &&& counts::leaves(c, after, 1, 0)
            &&& c.insns.len() < after.insns.len()
        }),
{
    broadcast use {counts::group_counts, counts::group_effects};
}

/// What [`lower::local_slot`] leaves.
proof fn lemma_local_slot(c: Code, name: Seq<char>, depth: u32, span: Span)
    ensures
        lower::local_slot(c, name, depth, span) matches Ok((after, _, _)) ==> {
            &&& counts::leaves(c, after, 0, 0)
        },
{
    broadcast use {counts::group_counts, counts::group_effects};
}

/// What [`lower::read_local`] leaves.
proof fn lemma_read_local(c: Code, name: Seq<char>, depth: u32, span: Span)
    ensures
        lower::read_local(c, name, depth, span) matches Ok(after) ==> {
            &&& counts::leaves(c, after, 1, 0)
            &&& c.insns.len() < after.insns.len()
        },
{
    broadcast use {counts::group_counts, counts::group_effects};

    lemma_local_slot(c, name, depth, span);
}

/// What [`lower::write_local`] leaves.
proof fn lemma_write_local(c: Code, name: Seq<char>, depth: u32, span: Span)
    ensures
        lower::write_local(c, name, depth, span) matches Ok(after) ==> counts::leaves(c, after, -1, 1),
{
    broadcast use {counts::group_counts, counts::group_effects};

    lemma_local_slot(c, name, depth, span);
}

/// What [`lower::lower_var`] leaves.
proof fn lemma_var(c: Code, var: VarRef, span: Span)
    ensures
        lower::lower_var(c, var, span) matches Ok(after) ==> {
            &&& counts::leaves(c, after, 1, 0)
            &&& c.insns.len() < after.insns.len()
        },
{
    broadcast use {counts::group_counts, counts::group_effects};

    if let VarRef::Local { name, depth } = var {
        lemma_read_local(c, name@, depth, span);
    }
}

/// What [`lower::push_locals`] leaves.
proof fn lemma_push_locals(c: Code, slots: Seq<u16>, from: nat)
    ensures
        ({
            let after = lower::push_locals(c, slots, from);
            &&& counts::leaves(c, after, counts::rest(slots.len(), from), 0)
        }),
    decreases slots.len() - from,
{
    broadcast use {counts::group_counts, counts::group_effects};

    if from < slots.len() {
        lemma_push_locals(c.emit(Insn::GetLocal(slots[from as int], 0)), slots, from + 1);
    }
}

/// What [`lower::read_place`] leaves.
proof fn lemma_read_place(c: Code, place: Place)
    ensures
        ({
            let after = lower::read_place(c, place);
            &&& counts::narrow(place) ==> counts::leaves(c, after, 1, 0)
            &&& counts::narrow(place) ==> c.insns.len() < after.insns.len()
        }),
{
    broadcast use {counts::group_counts, counts::group_effects};

    if let Place::Send { receiver, args, get } = place {
        lemma_push_locals(c.emit(Insn::GetLocal(receiver, 0)), args, 0);
    }
}

/// What [`lower::write_place`] leaves.
proof fn lemma_write_place(c: Code, place: Place)
    ensures
        ({
            let after = lower::write_place(c, place);
            &&& counts::narrow(place) ==> counts::leaves(c, after, -1, 1)
        }),
{
    broadcast use {counts::group_counts, counts::group_effects};

    if let Place::Send { receiver, args, get } = place {
        let name = code::hidden("%val"@, c.here());
        let parked = c.slot_at(name);
        let c = c.slot(name).emit(Insn::SetLocal(parked, 0)).emit(Insn::GetLocal(receiver, 0));
        lemma_push_locals(c, args, 0);
    }
}

/// What [`lower::lower_parked`] leaves.
proof fn lemma_parked(c: Code, expr: Expr)
    ensures
        lower::lower_parked(c, expr) matches Ok((after, _)) ==> counts::leaves(c, after, 0, 0),
    decreases expr, 1nat,
{
    broadcast use {counts::group_counts, counts::group_effects};

    lemma_expr(c, expr);
}

/// What [`lower::lower_parked_args`] leaves.
proof fn lemma_parked_args(c: Code, args: Seq<Expr>, from: nat, slots: Seq<u16>, span: Span)
    ensures
        lower::lower_parked_args(c, args, from, slots, span) matches Ok((after, made)) ==> {
            &&& counts::leaves(c, after, 0, 0)
            &&& from <= args.len() ==> made.len() == slots.len() + args.len() - from
        },
    decreases args, args.len() - from,
{
    broadcast use {counts::group_counts, counts::group_effects};

    if from < args.len() {
        let arg = args[from as int];
        if !(arg.kind is Splat || arg.kind is Hash) {
            lemma_parked(c, arg);
            if let Ok((c, slot)) = lower::lower_parked(c, arg) {
                lemma_parked_args(c, args, from + 1, slots.push(slot), span);
            }
        }
    }
}

/// What [`lower::lower_place`] leaves.
proof fn lemma_place(c: Code, target: Target)
    ensures
        lower::lower_place(c, target) matches Ok((after, made)) ==> {
            &&& counts::leaves(c, after, 0, 0)
            &&& counts::narrow(made)
        },
    decreases target, 1nat,
{
    broadcast use {counts::group_counts, counts::group_effects};

    match target.kind {
        TargetKind::Var(var) => {
            if let VarRef::Local { name, depth } = var {
                lemma_local_slot(c, name@, depth, target.span);
            }
        },
        TargetKind::Call(call) => {
            if !call.safe_nav {
                lemma_parked(c, call.receiver);
            }
        },
        TargetKind::Index(index) => {
            if !index.block {
                if !(index.args@.len() >= u16::MAX) {
                    lemma_parked(c, index.receiver);
                    if let Ok((c, receiver)) = lower::lower_parked(c, index.receiver) {
                        lemma_parked_args(c, index.args@, 0, Seq::empty(), target.span);
                    }
                }
            }
        },
        _ => {},
    }
}

/// What [`lower::lower_const_path`] leaves.
proof fn lemma_const_path(c: Code, path: ConstPath, span: Span)
    ensures
        lower::lower_const_path(c, path, span) matches Ok((after, _, how)) ==> {
            &&& counts::leaves(c, after, counts::one_if(how is Qualified), 0)
        },
    decreases path, 0nat,
{
    broadcast use {counts::group_counts, counts::group_effects};

    if let Some(name) = path.name {
        if let Some(parent) = path.parent {
            lemma_expr(c, parent);
        }
    }
}

/// What [`lower::lower_const_target`] leaves.
proof fn lemma_const_target(c: Code, target: Target)
    ensures
        lower::lower_const_target(c, target) matches Ok((after, _, how)) ==> {
            &&& counts::leaves(c, after, counts::one_if(how is Qualified), 0)
        },
    decreases target, 1nat,
{
    broadcast use {counts::group_counts, counts::group_effects};

    if let TargetKind::ConstPath(path) = target.kind {
        lemma_const_path(c, *path, target.span);
    }
}

/// What [`lower::lower_assign`] leaves.
proof fn lemma_assign(c: Code, assign: Assign, span: Span)
    ensures
        lower::lower_assign(c, assign, span) matches Ok(after) ==> {
            &&& counts::leaves(c, after, 1, 0)
            &&& c.insns.len() < after.insns.len()
        },
    decreases assign, 1nat,
{
    broadcast use {counts::group_counts, counts::group_effects};

    reveal(Code::effect);
    if lower::names_constant(assign.target) {
        lemma_const_target(c, assign.target);
        if let Ok((c, name, how)) = lower::lower_const_target(c, assign.target) {
            if assign.op is Assign {
                lemma_expr(c, assign.value);
            }
        }
    } else {
        if assign.target.kind is Multi {
            if assign.op is Assign {
                lemma_multi_assign(c, assign, span);
            }
        } else {
            lemma_place(c, assign.target);
            if let Ok((c, place)) = lower::lower_place(c, assign.target) {
                match assign.op {
                    AssignOp::Assign => {
                        lemma_expr(c, assign.value);
                        if let Ok(c) = lower::lower_expr(c, assign.value) {
                            lemma_write_place(c.emit(Insn::Dup), place);
                        }
                    },
                    AssignOp::Binary(op) => {
                        if let Some(op) = lower::operator(op@) {
                            lemma_read_place(c, place);
                            lemma_expr(lower::read_place(c, place), assign.value);
                            if let Ok(c) = lower::lower_expr(lower::read_place(c, place), assign.value) {
                                lemma_write_place(c.emit(Insn::BinOp(op)).emit(Insn::Dup), place);
                            }
                        }
                    },
                    AssignOp::Or | AssignOp::And => {
                        let keep = if assign.op is Or {
                            Jump::IfKeep
                        } else {
                            Jump::UnlessKeep
                        };
                        lemma_read_place(c, place);
                        let c = lower::read_place(c, place);
                        let skip = c.here();
                        lemma_expr(c.emit(keep.over(0)).emit(Insn::Pop), assign.value);
                        if let Ok(c) = lower::lower_expr(c.emit(keep.over(0)).emit(Insn::Pop), assign.value) {
                            lemma_write_place(c.emit(Insn::Dup), place);
                        }
                    },
                }
            }
        }
    }
}

/// What [`lower::masgn_array`] leaves.
proof fn lemma_masgn_array(c: Code)
    ensures
        ({
            let after = lower::masgn_array(c);
            &&& counts::leaves(c, after, 0, 1)
        }),
{
    broadcast use {counts::group_counts, counts::group_effects};
}

/// What [`lower::lower_multi_assign`] leaves.
proof fn lemma_multi_assign(c: Code, assign: Assign, span: Span)
    ensures
        lower::lower_multi_assign(c, assign, span) matches Ok(after) ==> {
            &&& assign.target.kind is Multi ==> counts::leaves(c, after, 1, 0)
            &&& assign.target.kind is Multi ==> c.insns.len() < after.insns.len()
        },
    decreases assign, 0nat,
{
    broadcast use {counts::group_counts, counts::group_effects};

    if let TargetKind::Multi(multi) = assign.target.kind {
        lemma_prepared(c, *multi, Seq::empty());
        if let Ok((c, places)) = lower::lower_prepared(c, *multi, Seq::empty()) {
            lemma_expr(c, assign.value);
            if let Ok(c) = lower::lower_expr(c, assign.value) {
                let c = c.emit(Insn::Dup);
                if !(assign.value.kind is Array) {
                    lemma_masgn_array(c);
                }
                let c = if assign.value.kind is Array {
                    c
                } else {
                    lower::masgn_array(c)
                };
                lemma_spread(c, *multi, places, 0, span);
            }
        }
    }
}

/// What [`lower::lower_prepared`] leaves.
proof fn lemma_prepared(c: Code, multi: MultiTarget, places: Seq<Option<Place>>)
    ensures
        lower::lower_prepared(c, multi, places) matches Ok((after, made)) ==> {
            &&& counts::leaves(c, after, 0, 0)
            &&& counts::all_narrow(places) ==> counts::all_narrow(made)
        },
    decreases multi, 1nat,
{
    broadcast use {counts::group_counts, counts::group_effects};

    lemma_prepared_all(c, multi.lefts@, 0, places);
    if let Ok((c, places)) = lower::lower_prepared_all(c, multi.lefts@, 0, places) {
        if let Some(rest) = multi.rest {
            match rest.kind {
                TargetKind::Splat(Some(inner)) => {
                    lemma_prepared_one(c, *inner, places);
                },
                TargetKind::Splat(None) => {},
                _ => {
                    lemma_prepared_one(c, rest, places);
                },
            }
        }
        let middle = match multi.rest {
            Some(rest) => match rest.kind {
                TargetKind::Splat(Some(inner)) => lower::lower_prepared_one(c, *inner, places),
                TargetKind::Splat(None) => Ok((c, places)),
                _ => lower::lower_prepared_one(c, rest, places),
            },
            None => Ok((c, places)),
        };
        if let Ok((c, places)) = middle {
            lemma_prepared_all(c, multi.rights@, 0, places);
        }
    }
}

/// What [`lower::lower_prepared_all`] leaves.
proof fn lemma_prepared_all(c: Code, targets: Seq<Target>, from: nat, places: Seq<Option<Place>>)
    ensures
        lower::lower_prepared_all(c, targets, from, places) matches Ok((after, made)) ==> {
            &&& counts::leaves(c, after, 0, 0)
            &&& counts::all_narrow(places) ==> counts::all_narrow(made)
        },
    decreases targets, targets.len() - from,
{
    broadcast use {counts::group_counts, counts::group_effects};

    if from < targets.len() {
        lemma_prepared_one(c, targets[from as int], places);
        if let Ok((c, places)) = lower::lower_prepared_one(c, targets[from as int], places) {
            lemma_prepared_all(c, targets, from + 1, places);
        }
    }
}

/// What [`lower::lower_prepared_one`] leaves.
proof fn lemma_prepared_one(c: Code, target: Target, places: Seq<Option<Place>>)
    ensures
        lower::lower_prepared_one(c, target, places) matches Ok((after, made)) ==> {
            &&& counts::leaves(c, after, 0, 0)
            &&& counts::all_narrow(places) ==> counts::all_narrow(made)
        },
    decreases target, 2nat,
{
    broadcast use {counts::group_counts, counts::group_effects};

    if !(lower::names_constant(target)) {
        match target.kind {
            TargetKind::Multi(inner) => {
                lemma_prepared(c, *inner, places.push(None));
            },
            _ => {
                lemma_place(c, target);
            },
        }
    }
}

/// What [`lower::lower_spread`] leaves.
proof fn lemma_spread(
    c: Code,
    multi: MultiTarget,
    places: Seq<Option<Place>>,
    used: nat,
    span: Span,
)
    ensures
        lower::lower_spread(c, multi, places, used, span) matches Ok((after, _)) ==> {
            &&& counts::all_narrow(places) ==> counts::leaves(c, after, 0, 1)
        },
    decreases multi, 1nat,
{
    broadcast use {counts::group_counts, counts::group_effects};

    reveal(Code::effect);
    if !(multi.lefts@.len() > WIDEST || multi.rights@.len() > WIDEST) {
        let c = c.emit(Insn::Dup)
            .emit(Insn::PushInt(multi.lefts@.len() as i64))
            .emit(if multi.rest is Some { Insn::PushTrue } else { Insn::PushFalse })
            .emit(Insn::PushInt(multi.rights@.len() as i64))
            .send("__masgn_spread__"@, 3, false);
        lemma_spread_all(c, multi.lefts@, 0, 0, places, used, span);
        if let Ok((c, used)) = lower::lower_spread_all(c, multi.lefts@, 0, 0, places, used, span) {
            let lefts = multi.lefts@.len() as int;
            if let Some(rest) = multi.rest {
                match rest.kind {
                    TargetKind::Splat(Some(inner)) => {
                        lemma_spread_one(c, lefts, *inner, places, used, span);
                    },
                    TargetKind::Splat(None) => {},
                    _ => {
                        lemma_spread_one(c, lefts, rest, places, used, span);
                    },
                }
            }
            let middle = match multi.rest {
                Some(rest) => match rest.kind {
                    TargetKind::Splat(Some(inner)) => lower::lower_spread_one(c, lefts, *inner, places, used, span),
                    TargetKind::Splat(None) => Ok((c, used)),
                    _ => lower::lower_spread_one(c, lefts, rest, places, used, span),
                },
                None => Ok((c, used)),
            };
            if let Ok((c, used)) = middle {
                lemma_spread_all(
                    c,
                    multi.rights@,
                    0,
                    if multi.rest is Some { lefts + 1 } else { lefts },
                    places,
                    used,
                    span,
                );
            }
        }
    }
}

/// What [`lower::lower_spread_all`] leaves.
proof fn lemma_spread_all(
    c: Code,
    targets: Seq<Target>,
    from: nat,
    index: int,
    places: Seq<Option<Place>>,
    used: nat,
    span: Span,
)
    ensures
        lower::lower_spread_all(c, targets, from, index, places, used, span) matches Ok((after, _)) ==> {
            &&& counts::all_narrow(places) ==> counts::leaves(c, after, 0, 1)
        },
    decreases targets, targets.len() - from,
{
    broadcast use {counts::group_counts, counts::group_effects};

    if from < targets.len() {
        lemma_spread_one(c, index, targets[from as int], places, used, span);
        if let Ok((c, used)) = lower::lower_spread_one(c, index, targets[from as int], places, used, span) {
            lemma_spread_all(c, targets, from + 1, index + 1, places, used, span);
        }
    }
}

/// What [`lower::lower_spread_one`] leaves.
proof fn lemma_spread_one(
    c: Code,
    index: int,
    target: Target,
    places: Seq<Option<Place>>,
    used: nat,
    span: Span,
)
    ensures
        lower::lower_spread_one(c, index, target, places, used, span) matches Ok((after, _)) ==> {
            &&& counts::all_narrow(places) ==> counts::leaves(c, after, 0, 1)
        },
    decreases target, 2nat,
{
    broadcast use {counts::group_counts, counts::group_effects};

    let c = c.emit(Insn::Dup).emit(Insn::PushInt(index as i64)).send("[]"@, 1, false);
    if used < places.len() {
        if lower::names_constant(target) {
            lemma_const_target(c, target);
        } else {
            match target.kind {
                TargetKind::Multi(inner) => {
                    lemma_masgn_array(c);
                    lemma_spread(lower::masgn_array(c), *inner, places, used + 1, span);
                },
                _ => {
                    if let Some(place) = places[used as int] {
                        lemma_write_place(c, place);
                    }
                },
            }
        }
    }
}

/// What [`lower::lower_body`] leaves.
proof fn lemma_body(c: Code, body: Seq<Expr>, from: nat, keep: bool)
    ensures
        lower::lower_body(c, body, from, keep) matches Ok(after) ==> {
            &&& from < body.len() || body.len() == 0 ==> counts::leaves(c, after, counts::one_if(keep), 0)
            &&& keep && (from < body.len() || body.len() == 0) ==> c.insns.len() < after.insns.len()
        },
    decreases body, body.len() - from,
{
    broadcast use {counts::group_counts, counts::group_effects};

    if !(body.len() == 0) {
        if from < body.len() {
            lemma_expr(c, body[from as int]);
            if let Ok(c) = lower::lower_expr(c, body[from as int]) {
                if !(from + 1 == body.len()) {
                    lemma_body(c.emit(Insn::Pop), body, from + 1, keep);
                }
            }
        }
    }
}

/// What [`lower::lower_body_or_nil`] leaves.
proof fn lemma_body_or_nil(c: Code, body: Option<Vec<Expr>>)
    ensures
        lower::lower_body_or_nil(c, body) matches Ok(after) ==> {
            &&& counts::leaves(c, after, 1, 0)
            &&& c.insns.len() < after.insns.len()
        },
    decreases body, 0nat,
{
    broadcast use {counts::group_counts, counts::group_effects};

    if let Some(body) = body {
        lemma_body(c, body@, 0, true);
    }
}

/// What [`lower::lower_or_nil`] leaves.
proof fn lemma_or_nil(c: Code, expr: Option<Expr>)
    ensures
        lower::lower_or_nil(c, expr) matches Ok(after) ==> {
            &&& counts::leaves(c, after, 1, 0)
            &&& c.insns.len() < after.insns.len()
        },
    decreases expr, 0nat,
{
    broadcast use {counts::group_counts, counts::group_effects};

    if let Some(expr) = expr {
        lemma_expr(c, expr);
    }
}

/// What [`lower::lower_value`] leaves.
proof fn lemma_value(c: Code, value: Option<Box<Expr>>)
    ensures
        lower::lower_value(c, value) matches Ok(after) ==> {
            &&& counts::leaves(c, after, 1, 0)
            &&& c.insns.len() < after.insns.len()
        },
    decreases value, 0nat,
{
    broadcast use {counts::group_counts, counts::group_effects};

    if let Some(value) = value {
        lemma_expr(c, *value);
    }
}

/// What [`lower::lower_each`] leaves.
proof fn lemma_each(c: Code, exprs: Seq<Expr>, from: nat)
    ensures
        lower::lower_each(c, exprs, from) matches Ok(after) ==> {
            &&& counts::leaves(c, after, counts::rest(exprs.len(), from), 0)
        },
    decreases exprs, exprs.len() - from,
{
    broadcast use {counts::group_counts, counts::group_effects};

    if from < exprs.len() {
        lemma_expr(c, exprs[from as int]);
        if let Ok(c) = lower::lower_expr(c, exprs[from as int]) {
            lemma_each(c, exprs, from + 1);
        }
    }
}

/// What [`lower::lower_int`] leaves.
proof fn lemma_int(c: Code, number: IntValue, span: Span)
    ensures
        lower::lower_int(c, number, span) matches Ok(after) ==> {
            &&& counts::leaves(c, after, 1, 0)
            &&& c.insns.len() < after.insns.len()
        },
{
    broadcast use {counts::group_counts, counts::group_effects};
}

/// What [`lower::lower_expr`] leaves.
#[verifier::rlimit(50)]
#[verifier::spinoff_prover]
proof fn lemma_expr(c: Code, expr: Expr)
    ensures
        lower::lower_expr(c, expr) matches Ok(after) ==> {
            &&& counts::leaves(c, after, 1, 0)
            &&& c.insns.len() < after.insns.len()
        },
    decreases expr, 0nat,
{
    broadcast use {counts::group_counts, counts::group_effects};

    let span = expr.span;
    match expr.kind {
        ExprKind::Int(number) => {
            lemma_int(c, number, span);
        },
        ExprKind::Str(parts) => {
            if !(names::all_bytes(parts@)) {
                lemma_interpolated(c, parts@);
            }
        },
        ExprKind::Regexp(regexp) => {
            lemma_regexp(c, regexp, span);
        },
        ExprKind::Sym(parts) => {
            if !(names::all_bytes(parts@)) {
                lemma_interpolated(c, parts@);
            }
        },
        ExprKind::Array(elements) => {
            lemma_array(c, elements@, span);
        },
        ExprKind::Hash(hash) => {
            lemma_hash(c, hash);
        },
        ExprKind::Range(range) => {
            lemma_range(c, *range);
        },
        ExprKind::Var(var) => {
            lemma_var(c, var, span);
        },
        ExprKind::Alias(alias) => {
            lemma_alias(c, *alias, span);
        },
        ExprKind::Undef(names) => {
            lemma_undef(c, names@, 0, span);
        },
        ExprKind::Assign(assign) => {
            lemma_assign(c, *assign, span);
        },
        ExprKind::If(node) => {
            lemma_if(c, *node);
        },
        ExprKind::While(node) => {
            lemma_while(c, *node);
        },
        ExprKind::For(node) => {
            lemma_for(c, *node, span);
        },
        ExprKind::Case(node) => {
            lemma_case(c, *node, span);
        },
        ExprKind::MatchPattern(node) => {
            lemma_match(c, *node);
        },
        ExprKind::Logical(node) => {
            lemma_logical(c, *node);
        },
        ExprKind::Parens(body) => {
            lemma_body(c, body@, 0, true);
        },
        ExprKind::Call(call) => {
            lemma_call(c, *call, span);
        },
        ExprKind::Begin(node) => {
            if node.rescues@.len() == 0 && node.else_body is None && node.ensure_body is None {
                lemma_body(c, node.body@, 0, true);
            } else {
                lemma_begin(c, *node);
            }
        },
        ExprKind::RescueMod(node) => {
            lemma_rescue_mod(c, *node);
        },
        ExprKind::Retry => {
            lemma_retry(c, span);
        },
        ExprKind::Redo => {
            lemma_redo(c, span);
        },
        ExprKind::Break(value) => {
            lemma_jump_out(c, value, true, span);
        },
        ExprKind::Next(value) => {
            lemma_jump_out(c, value, false, span);
        },
        ExprKind::ConstPath(path) => {
            lemma_const_path(c, *path, span);
        },
        ExprKind::Class(class) => {
            lemma_class(c, *class);
        },
        ExprKind::Module(module) => {
            lemma_module(c, *module);
        },
        ExprKind::SingletonClass(node) => {
            lemma_singleton(c, *node);
        },
        ExprKind::Defined(inner) => {
            lemma_swallowing(c, *inner, span);
        },
        ExprKind::Def(def) => {
            lemma_def(c, *def, span);
        },
        ExprKind::Yield(args) => {
            lemma_arguments(c, "yield"@, args@, false);
        },
        ExprKind::Super(node) => {
            lemma_super(c, *node, span);
        },
        ExprKind::Lambda(block) => {
            if let Ok(head) = lower::child_head(
                c,
                "lambda in <compiled>"@,
                block.params,
                bytecode::pool(block.locals@),
                false,
                span,
            ) {
                lemma_body(head, block.body@, 0, true);
            }
        },
        ExprKind::Return(value) => {
            lemma_value(c, value);
        },
        _ => {},
    }
}

/// What [`lower::lower_interpolated`] leaves.
proof fn lemma_interpolated(c: Code, parts: Seq<StrPart>)
    ensures
        lower::lower_interpolated(c, parts) matches Ok(after) ==> {
            &&& counts::leaves(c, after, 1, 0)
            &&& c.insns.len() < after.insns.len()
        },
    decreases parts, parts.len() + 1,
{
    broadcast use {counts::group_counts, counts::group_effects};

    lemma_parts(c.push_literal(LiteralModel::Str(Seq::empty())), parts, 0);
}

/// What [`lower::lower_parts`] leaves.
proof fn lemma_parts(c: Code, parts: Seq<StrPart>, from: nat)
    ensures
        lower::lower_parts(c, parts, from) matches Ok(after) ==> counts::leaves(c, after, 0, 1),
    decreases parts, parts.len() - from,
{
    broadcast use {counts::group_counts, counts::group_effects};

    if from < parts.len() {
        match parts[from as int] {
            StrPart::Bytes(bytes) => {
                lemma_parts(
                    c.push_literal(LiteralModel::Str(bytes@)).send("+"@, 1, false),
                    parts,
                    from + 1,
                );
            },
            StrPart::Interp(body) => {
                lemma_body(c, body@, 0, true);
                if let Ok(c) = lower::lower_body(c, body@, 0, true) {
                    lemma_parts(c.send("to_s"@, 0, false).send("+"@, 1, false), parts, from + 1);
                }
            },
        }
    }
}

/// What [`lower::lower_regexp`] leaves.
proof fn lemma_regexp(c: Code, regexp: RegexpLit, span: Span)
    ensures
        lower::lower_regexp(c, regexp, span) matches Ok(after) ==> {
            &&& counts::leaves(c, after, 1, 0)
            &&& c.insns.len() < after.insns.len()
        },
    decreases regexp, 0nat,
{
    broadcast use {counts::group_counts, counts::group_effects};

    let options = names::options_of(regexp.flags) as i64;
    if !regexp.flags.encoding {
        if !(names::all_bytes(regexp.parts@)) {
            lemma_interpolated(c, regexp.parts@);
        }
    }
}

/// What [`lower::lower_array`] leaves.
proof fn lemma_array(c: Code, elements: Seq<Expr>, span: Span)
    ensures
        lower::lower_array(c, elements, span) matches Ok(after) ==> {
            &&& counts::leaves(c, after, 1, 0)
            &&& c.insns.len() < after.insns.len()
        },
    decreases elements, elements.len() + 1,
{
    broadcast use {counts::group_counts, counts::group_effects};

    if lower::has_splat(elements) {
        lemma_splatted(c, elements, 0, false, 0);
    } else {
        lemma_each(c, elements, 0);
    }
}

/// What [`lower::close_run`] leaves.
proof fn lemma_close_run(c: Code, open: bool, run: u32)
    ensures
        ({
            let after = lower::close_run(c, open, run);
            &&& counts::leaves(c, after, 1 - run - counts::one_if(open), run + counts::one_if(open))
            &&& c.insns.len() < after.insns.len() || (open && run == 0)
        }),
{
    broadcast use {counts::group_counts, counts::group_effects};
}

/// What [`lower::lower_splatted`] leaves.
proof fn lemma_splatted(c: Code, elements: Seq<Expr>, from: nat, open: bool, run: u32)
    ensures
        lower::lower_splatted(c, elements, from, open, run) matches Ok(after) ==> {
            &&& counts::leaves(c, after, 1 - run - counts::one_if(open), run + counts::one_if(open))
            &&& c.insns.len() < after.insns.len() || (open && run == 0 && from >= elements.len())
        },
    decreases elements, elements.len() - from,
{
    broadcast use {counts::group_counts, counts::group_effects};

    if from >= elements.len() {
        lemma_close_run(c, open, run);
    } else {
        let element = elements[from as int];
        match element.kind {
            ExprKind::Splat(inner) => {
                if let Some(inner) = inner {
                    lemma_close_run(c, open, run);
                    lemma_expr(lower::close_run(c, open, run), *inner);
                    if let Ok(c) = lower::lower_expr(lower::close_run(c, open, run), *inner) {
                        lemma_splatted(
                            c.send("__concat_splat__"@, 1, false),
                            elements,
                            from + 1,
                            true,
                            0,
                        );
                    }
                }
            },
            _ => {
                lemma_expr(c, element);
                if let Ok(c) = lower::lower_expr(c, element) {
                    lemma_splatted(c, elements, from + 1, open, (run + 1) as u32);
                }
            },
        }
    }
}

/// What [`lower::lower_hash`] leaves.
proof fn lemma_hash(c: Code, hash: HashLit)
    ensures
        lower::lower_hash(c, hash) matches Ok(after) ==> {
            &&& counts::leaves(c, after, 1, 0)
            &&& c.insns.len() < after.insns.len()
        },
    decreases hash, 0nat,
{
    broadcast use {counts::group_counts, counts::group_effects};

    lemma_entries(c.push_const("Hash"@).send("__literal__"@, 0, false), hash.entries@, 0);
}

/// What [`lower::lower_entries`] leaves.
proof fn lemma_entries(c: Code, entries: Seq<HashEntry>, from: nat)
    ensures
        lower::lower_entries(c, entries, from) matches Ok(after) ==> counts::leaves(c, after, 0, 1),
    decreases entries, entries.len() - from,
{
    broadcast use {counts::group_counts, counts::group_effects};

    if from < entries.len() {
        match entries[from as int].kind {
            HashEntryKind::Pair { key, value } => {
                lemma_expr(c.emit(Insn::Dup), key);
                if let Ok(c) = lower::lower_expr(c.emit(Insn::Dup), key) {
                    lemma_expr(c, value);
                    if let Ok(c) = lower::lower_expr(c, value) {
                        lemma_entries(c.send("[]="@, 2, false).emit(Insn::Pop), entries, from + 1);
                    }
                }
            },
            HashEntryKind::Splat(Some(inner)) => {
                lemma_expr(c.emit(Insn::Dup), inner);
                if let Ok(c) = lower::lower_expr(c.emit(Insn::Dup), inner) {
                    lemma_entries(
                        c.send("__merge_literal__"@, 1, false).emit(Insn::Pop),
                        entries,
                        from + 1,
                    );
                }
            },
            HashEntryKind::Splat(None) => {
                lemma_entries(c, entries, from + 1);
            },
        }
    }
}

/// What [`lower::lower_range`] leaves.
proof fn lemma_range(c: Code, range: RangeLit)
    ensures
        lower::lower_range(c, range) matches Ok(after) ==> {
            &&& counts::leaves(c, after, 1, 0)
            &&& c.insns.len() < after.insns.len()
        },
    decreases range, 0nat,
{
    broadcast use {counts::group_counts, counts::group_effects};

    reveal(Code::effect);
    lemma_or_nil(c.push_const("Range"@), range.left);
    if let Ok(c) = lower::lower_or_nil(c.push_const("Range"@), range.left) {
        lemma_or_nil(c, range.right);
    }
}

/// What [`lower::lower_alias`] leaves.
proof fn lemma_alias(c: Code, alias: Alias, span: Span)
    ensures
        lower::lower_alias(c, alias, span) matches Ok(after) ==> {
            &&& counts::leaves(c, after, 1, 0)
            &&& c.insns.len() < after.insns.len()
        },
{
    broadcast use {counts::group_counts, counts::group_effects};
}

/// What [`lower::lower_undef`] leaves.
proof fn lemma_undef(c: Code, names: Seq<Expr>, from: nat, span: Span)
    ensures
        lower::lower_undef(c, names, from, span) matches Ok(after) ==> {
            &&& counts::leaves(c, after, 1, 0)
            &&& c.insns.len() < after.insns.len()
        },
    decreases names, names.len() - from,
{
    broadcast use {counts::group_counts, counts::group_effects};

    if from < names.len() {
        if let Ok(name) = lower::method_name(names[from as int], span) {
            lemma_undef(c.symbol(name).emit(Insn::Undef(c.symbol_at(name))), names, from + 1, span);
        }
    }
}

/// What [`lower::lower_if`] leaves.
proof fn lemma_if(c: Code, node: If)
    ensures
        lower::lower_if(c, node) matches Ok(after) ==> {
            &&& counts::leaves(c, after, 1, 0)
            &&& c.insns.len() < after.insns.len()
        },
    decreases node, 0nat,
{
    broadcast use {counts::group_counts, counts::group_effects};

    lemma_expr(c, node.predicate);
    if let Ok(c) = lower::lower_expr(c, node.predicate) {
        let to_else = c.here();
        let c = c.emit(Insn::JumpUnless(0));
        let before = c.depth;
        if node.unless {
            if let Some(body) = node.else_body {
                lemma_body(c, body@, 0, true);
            }
        } else {
            lemma_body(c, node.then_body@, 0, true);
        }
        let first = if node.unless {
            match node.else_body {
                Some(body) => lower::lower_body(c, body@, 0, true),
                None => Ok(c.emit(Insn::PushNil)),
            }
        } else {
            lower::lower_body(c, node.then_body@, 0, true)
        };
        if let Ok(c) = first {
            let to_end = c.here();
            let c = c.emit(Insn::Jump(0)).patch_here(to_else).at_depth(before);
            if node.unless {
                lemma_body(c, node.then_body@, 0, true);
            } else {
                if let Some(body) = node.else_body {
                    lemma_body(c, body@, 0, true);
                }
            }
        }
    }
}

/// What [`lower::lower_logical`] leaves.
proof fn lemma_logical(c: Code, node: Logical)
    ensures
        lower::lower_logical(c, node) matches Ok(after) ==> {
            &&& counts::leaves(c, after, 1, 0)
            &&& c.insns.len() < after.insns.len()
        },
    decreases node, 0nat,
{
    broadcast use {counts::group_counts, counts::group_effects};

    reveal(Code::effect);
    let keep = match node.op {
        LogicalOp::And => Jump::UnlessKeep,
        LogicalOp::Or => Jump::IfKeep,
    };
    lemma_expr(c, node.left);
    if let Ok(c) = lower::lower_expr(c, node.left) {
        let short = c.here();
        lemma_expr(c.emit(keep.over(0)).emit(Insn::Pop), node.right);
    }
}

/// What [`lower::lower_while`] leaves.
proof fn lemma_while(c: Code, node: While)
    ensures
        lower::lower_while(c, node) matches Ok(after) ==> {
            &&& counts::leaves(c, after, 1, 0)
            &&& c.insns.len() < after.insns.len()
        },
    decreases node, 1nat,
{
    broadcast use {counts::group_counts, counts::group_effects};

    let top = c.here();
    lemma_while_body(c.push_loop(), node, top);
}

/// What [`lower::lower_while_body`] leaves.
proof fn lemma_while_body(c: Code, node: While, top: nat)
    ensures
        lower::lower_while_body(c, node, top) matches Ok(after) ==> counts::leaves(c, after, 0, 0),
    decreases node, 0nat,
{
    broadcast use {counts::group_counts, counts::group_effects};

    reveal(Code::effect);
    if node.post {
        let body = c.here();
        lemma_body(c.redo_at(body), node.body@, 0, false);
        if let Ok(c) = lower::lower_body(c.redo_at(body), node.body@, 0, false) {
            lemma_expr(c.next_at(c.here()), node.predicate);
        }
    } else {
        lemma_expr(c, node.predicate);
        if let Ok(c) = lower::lower_expr(c, node.predicate) {
            let out = c.here();
            let c = c.emit(if node.until { Insn::JumpIf(0) } else { Insn::JumpUnless(0) });
            lemma_body(c.redo_at(c.here()), node.body@, 0, false);
        }
    }
}

/// What [`lower::lower_jump_out`] leaves.
proof fn lemma_jump_out(c: Code, value: Option<Box<Expr>>, is_break: bool, span: Span)
    ensures
        lower::lower_jump_out(c, value, is_break, span) matches Ok(after) ==> {
            &&& counts::leaves(c, after, 1, 0)
            &&& c.insns.len() < after.insns.len()
        },
    decreases value, 1nat,
{
    broadcast use {counts::group_counts, counts::group_effects};

    reveal(Code::effect);
    if c.loops.len() == 0 {
        if !c.scope_barrier {
            lemma_value(c, value);
        }
    } else {
        let inner = c.loops.last();
        let entry = c.depth;
        let c = c.pops(lower::excess(entry, inner.base_depth));
        if is_break {
            lemma_value(c, value);
        } else {
            if let Some(value) = value {
                lemma_expr(c, *value);
            }
        }
    }
}

/// What [`lower::back_to`] leaves.
proof fn lemma_back_to(c: Code, target: nat, base: usize)
    ensures
        ({
            let after = lower::back_to(c, target, base);
            &&& counts::leaves(c, after, 1, 0)
            &&& c.insns.len() < after.insns.len()
        }),
{
    broadcast use {counts::group_counts, counts::group_effects};

    reveal(Code::effect);
}

/// What [`lower::lower_redo`] leaves.
proof fn lemma_redo(c: Code, span: Span)
    ensures
        lower::lower_redo(c, span) matches Ok(after) ==> {
            &&& counts::leaves(c, after, 1, 0)
            &&& c.insns.len() < after.insns.len()
        },
{
    broadcast use {counts::group_counts, counts::group_effects};

    if c.loops.len() > 0 {
        lemma_back_to(c, c.loops.last().redo_target as nat, c.loops.last().base_depth);
    } else {
        if !c.scope_barrier {
            lemma_back_to(c, 0, 0);
        }
    }
}

/// What [`lower::lower_retry`] leaves.
proof fn lemma_retry(c: Code, span: Span)
    ensures
        lower::lower_retry(c, span) matches Ok(after) ==> {
            &&& counts::leaves(c, after, 1, 0)
            &&& c.insns.len() < after.insns.len()
        },
{
    broadcast use {counts::group_counts, counts::group_effects};

    if !(c.retries.len() == 0) {
        lemma_back_to(c, c.retries.last().body_start as nat, c.retries.last().base_depth);
    }
}

/// What [`lower::lower_for`] leaves.
proof fn lemma_for(c: Code, node: For, span: Span)
    ensures
        lower::lower_for(c, node, span) matches Ok(after) ==> {
            &&& counts::leaves(c, after, 1, 0)
            &&& c.insns.len() < after.insns.len()
        },
    decreases node, 0nat,
{
    broadcast use {counts::group_counts, counts::group_effects};

    let child = code::nested("block in for"@, Seq::empty(), c, false);
    let child = child.hide_environment()
        .slot(FOR_ELEMENT@)
        .with_params(ParamModel { required: 1, ..code::no_params() });
    if let Ok(child) = lower::lower_element(child, node.index, span) {
        lemma_body(child, node.body@, 0, true);
        if let Ok(child) = lower::lower_body(child, node.body@, 0, true) {
            let block = c.children.len() as u32;
            lemma_expr(c.push_child(child.finish()), node.iterable);
        }
    }
}

/// What [`lower::lower_case`] leaves.
proof fn lemma_case(c: Code, node: Case, span: Span)
    ensures
        lower::lower_case(c, node, span) matches Ok(after) ==> {
            &&& counts::leaves(c, after, 1, 0)
            &&& c.insns.len() < after.insns.len()
        },
    decreases node, 1nat,
{
    broadcast use {counts::group_counts, counts::group_effects};

    match node.branches {
        CaseBranches::When(_) => {
            lemma_case_when(c, node);
        },
        CaseBranches::In(_) => {
            lemma_case_in(c, node, span);
        },
    }
}

/// What [`lower::drop_subject`] leaves.
proof fn lemma_drop_subject(c: Code, subject: bool)
    ensures
        ({
            let after = lower::drop_subject(c, subject);
            &&& counts::leaves(c, after, -counts::one_if(subject), counts::one_if(subject))
        }),
{
    broadcast use {counts::group_counts, counts::group_effects};
}

/// What [`lower::lower_case_when`] leaves.
proof fn lemma_case_when(c: Code, node: Case)
    ensures
        lower::lower_case_when(c, node) matches Ok(after) ==> {
            &&& node.branches is When ==> counts::leaves(c, after, 1, 0)
            &&& node.branches is When ==> c.insns.len() < after.insns.len()
        },
    decreases node, 0nat,
{
    broadcast use {counts::group_counts, counts::group_effects};

    if let CaseBranches::When(clauses) = node.branches {
        let subject = node.predicate is Some;
        if let Some(predicate) = node.predicate {
            lemma_expr(c, predicate);
        }
        let start = match node.predicate {
            Some(predicate) => lower::lower_expr(c, predicate),
            None => Ok(c),
        };
        if let Ok(c) = start {
            let tests = c.depth;
            lemma_tests(c, clauses@, 0, subject, Seq::empty());
            if let Ok((c, entries)) = lower::lower_tests(c, clauses@, 0, subject, Seq::empty()) {
                lemma_drop_subject(c, subject);
                lemma_body_or_nil(lower::drop_subject(c, subject), node.else_body);
                if let Ok(c) = lower::lower_body_or_nil(lower::drop_subject(c, subject), node.else_body) {
                    let end = c.depth;
                    let to_end = seq![c.here() as usize];
                    lemma_whens(
                        c.emit(Insn::Jump(0)),
                        clauses@,
                        0,
                        subject,
                        entries,
                        tests,
                        to_end,
                    );
                }
            }
        }
    }
}

/// What [`lower::lower_tests`] leaves.
proof fn lemma_tests(
    c: Code,
    clauses: Seq<WhenClause>,
    from: nat,
    subject: bool,
    entries: Seq<Seq<usize>>,
)
    ensures
        lower::lower_tests(c, clauses, from, subject, entries) matches Ok((after, _)) ==> {
            &&& counts::leaves(c, after, 0, 0)
        },
    decreases clauses, clauses.len() - from,
{
    broadcast use {counts::group_counts, counts::group_effects};

    if from < clauses.len() {
        lemma_conditions(c, clauses[from as int].conditions@, 0, subject, Seq::empty());
        if let Ok((c, jumps)) = lower::lower_conditions(c, clauses[from as int].conditions@, 0, subject, Seq::empty()) {
            lemma_tests(c, clauses, from + 1, subject, entries.push(jumps));
        }
    }
}

/// What [`lower::lower_conditions`] leaves.
proof fn lemma_conditions(
    c: Code,
    conditions: Seq<Expr>,
    from: nat,
    subject: bool,
    jumps: Seq<usize>,
)
    ensures
        lower::lower_conditions(c, conditions, from, subject, jumps) matches Ok((after, _)) ==> {
            &&& counts::leaves(c, after, 0, 0)
        },
    decreases conditions, conditions.len() - from,
{
    broadcast use {counts::group_counts, counts::group_effects};

    if from < conditions.len() {
        let condition = conditions[from as int];
        if !(condition.kind is Splat) {
            let c = if subject {
                c.emit(Insn::Dup)
            } else {
                c
            };
            lemma_expr(c, condition);
            if let Ok(c) = lower::lower_expr(c, condition) {
                let c = if subject {
                    c.emit(Insn::CaseEq)
                } else {
                    c
                };
                lemma_conditions(
                    c.emit(Insn::JumpIf(0)),
                    conditions,
                    from + 1,
                    subject,
                    jumps.push(c.here() as usize),
                );
            }
        }
    }
}

/// What [`lower::lower_whens`] leaves.
proof fn lemma_whens(
    c: Code,
    clauses: Seq<WhenClause>,
    from: nat,
    subject: bool,
    entries: Seq<Seq<usize>>,
    tests: nat,
    to_end: Seq<usize>,
)
    ensures
        lower::lower_whens(c, clauses, from, subject, entries, tests, to_end) matches Ok((after, _)) ==> {
            &&& counts::grown(c, after)
            &&& counts::level(c) && tests <= c.insns.len() ==> counts::level(after)
        },
    decreases clauses, clauses.len() - from,
{
    broadcast use {counts::group_counts, counts::group_effects};

    if from < clauses.len() {
        lemma_drop_subject(c.patch_all(entries[from as int], c.here()).at_depth(tests), subject);
        let c = lower::drop_subject(c.patch_all(entries[from as int], c.here()).at_depth(tests), subject);
        lemma_body(c, clauses[from as int].body@, 0, true);
        if let Ok(c) = lower::lower_body(c, clauses[from as int].body@, 0, true) {
            lemma_whens(
                c.emit(Insn::Jump(0)),
                clauses,
                from + 1,
                subject,
                entries,
                tests,
                to_end.push(c.here() as usize),
            );
        }
    }
}

/// What [`lower::lower_call`] leaves.
proof fn lemma_call(c: Code, call: Call, span: Span)
    ensures
        lower::lower_call(c, call, span) matches Ok(after) ==> {
            &&& counts::leaves(c, after, 1, 0)
            &&& c.insns.len() < after.insns.len()
        },
    decreases call, 1nat,
{
    broadcast use {counts::group_counts, counts::group_effects};

    if !call.safe_nav {
        if lower::is_operator(call) {
            lemma_operator(c, call);
        } else {
            if let Some(receiver) = call.receiver {
                lemma_expr(c, receiver);
            }
            let start = match call.receiver {
                Some(receiver) => lower::lower_expr(c, receiver),
                None => Ok(c.emit(Insn::PushSelf)),
            };
            if let Ok(c) = start {
                lemma_arguments(c, call.name@, call.args@, names::passes_block(call.block));
                if let Ok((c, site)) = lower::lower_arguments(c, call.name@, call.args@, names::passes_block(call.block)) {
                    lemma_block(c, site, call.block, span);
                }
            }
        }
    }
}

/// What [`lower::lower_operator`] leaves.
proof fn lemma_operator(c: Code, call: Call)
    ensures
        lower::lower_operator(c, call) matches Ok(after) ==> {
            &&& call.receiver is Some ==> counts::leaves(c, after, 1, 0)
            &&& call.receiver is Some ==> c.insns.len() < after.insns.len()
        },
    decreases call, 0nat,
{
    broadcast use {counts::group_counts, counts::group_effects};

    if let Some(receiver) = call.receiver {
        lemma_expr(c, receiver);
        if let Ok(c) = lower::lower_expr(c, receiver) {
            if !(call.args@.len() == 0) {
                lemma_expr(c, call.args@[0]);
            }
        }
    }
}

/// What [`lower::lower_arguments`] leaves.
proof fn lemma_arguments(c: Code, name: Seq<char>, args: Seq<Expr>, passes: bool)
    ensures
        lower::lower_arguments(c, name, args, passes) matches Ok((after, made)) ==> {
            &&& counts::leaves(c, after, made.argc + made.keywords.len(), 0)
            &&& made.block is Absent
        },
    decreases args, args.len() + 1,
{
    broadcast use {counts::group_counts, counts::group_effects};

    lemma_args(
        c.symbol(name),
        args,
        0,
        passes,
        SiteModel {
            name: c.symbol_at(name),
            argc: 0,
            splats: Seq::empty(),
            keywords: Seq::empty(),
            block: BlockRef::Absent,
            implicit_self: false,
        },
    );
}

/// What [`lower::lower_args`] leaves.
proof fn lemma_args(c: Code, args: Seq<Expr>, from: nat, passes: bool, site: SiteModel)
    ensures
        lower::lower_args(c, args, from, passes, site) matches Ok((after, made)) ==> {
            &&& counts::leaves(c, after, made.argc + made.keywords.len() - site.argc - site.keywords.len(), 0)
            &&& made.block == site.block
        },
    decreases args, args.len() - from,
{
    broadcast use {counts::group_counts, counts::group_effects};

    if from < args.len() {
        let arg = args[from as int];
        match arg.kind {
            ExprKind::Splat(Some(inner)) => {
                lemma_expr(c, *inner);
                if let Ok(c) = lower::lower_expr(c, *inner) {
                    if !(site.argc == u16::MAX) {
                        lemma_args(
                            if names::changes_after(args.len(), from as int, passes) {
                                c.emit(Insn::CaptureSplat)
                            } else {
                                c
                            },
                            args,
                            from + 1,
                            passes,
                            SiteModel {
                                splats: site.splats.push(site.argc),
                                argc: lower::more(site.argc),
                                ..site
                            },
                        );
                    }
                }
            },
            ExprKind::Splat(None) | ExprKind::ForwardingArgs => {},
            ExprKind::Hash(hash) => {
                if hash.braces {
                    lemma_expr(c, arg);
                    if let Ok(c) = lower::lower_expr(c, arg) {
                        if !(site.argc == u16::MAX) {
                            lemma_args(
                                c,
                                args,
                                from + 1,
                                passes,
                                SiteModel { argc: lower::more(site.argc), ..site },
                            );
                        }
                    }
                } else {
                    if !(!names::all_keywords(hash)) {
                        lemma_keywords(c, hash.entries@, 0, site);
                        if let Ok((c, site)) = lower::lower_keywords(c, hash.entries@, 0, site) {
                            lemma_args(c, args, from + 1, passes, site);
                        }
                    }
                }
            },
            _ => {
                lemma_expr(c, arg);
                if let Ok(c) = lower::lower_expr(c, arg) {
                    if !(site.argc == u16::MAX) {
                        lemma_args(
                            c,
                            args,
                            from + 1,
                            passes,
                            SiteModel { argc: lower::more(site.argc), ..site },
                        );
                    }
                }
            },
        }
    }
}

/// What [`lower::lower_keywords`] leaves.
proof fn lemma_keywords(c: Code, entries: Seq<HashEntry>, from: nat, site: SiteModel)
    ensures
        lower::lower_keywords(c, entries, from, site) matches Ok((after, made)) ==> {
            &&& counts::leaves(c, after, made.keywords.len() - site.keywords.len(), 0)
            &&& made.block == site.block
            &&& made.argc == site.argc
        },
    decreases entries, entries.len() - from,
{
    broadcast use {counts::group_counts, counts::group_effects};

    if from < entries.len() {
        if let (HashEntryKind::Pair { key: _, value }, Some(name)) = (entries[from as int].kind, names::keyword_of(entries[from as int])) {
            lemma_expr(c.symbol(name), value);
            if let Ok(after) = lower::lower_expr(c.symbol(name), value) {
                lemma_keywords(
                    after,
                    entries,
                    from + 1,
                    SiteModel { keywords: site.keywords.push(c.symbol_at(name)), ..site },
                );
            }
        }
    }
}

/// What [`lower::lower_block`] leaves.
proof fn lemma_block(c: Code, site: SiteModel, block: Option<BlockArg>, span: Span)
    ensures
        lower::lower_block(c, site, block, span) matches Ok((after, made)) ==> {
            &&& site.block is Absent ==> counts::leaves(c, after, counts::one_if(made.block is Pass), 0)
            &&& made.argc == site.argc
            &&& made.keywords == site.keywords
        },
    decreases block, 0nat,
{
    broadcast use {counts::group_counts, counts::group_effects};

    match block {
        Some(BlockArg::Block(block)) => {
            if let Ok(head) = lower::child_head(
                c,
                "block in <compiled>"@,
                block.params,
                bytecode::pool(block.locals@),
                false,
                span,
            ) {
                lemma_body(head, block.body@, 0, true);
            }
        },
        Some(BlockArg::Pass(Some(expr))) => {
            lemma_expr(c, expr);
        },
        _ => {},
    }
}

/// What [`lower::lower_super`] leaves.
proof fn lemma_super(c: Code, node: Super, span: Span)
    ensures
        lower::lower_super(c, node, span) matches Ok(after) ==> {
            &&& counts::leaves(c, after, 1, 0)
            &&& c.insns.len() < after.insns.len()
        },
    decreases node, 0nat,
{
    broadcast use {counts::group_counts, counts::group_effects};

    match node.args {
        Some(args) => {
            lemma_arguments(c, "super"@, args@, names::passes_block(node.block));
        },
        None => {
            lemma_forwarded(c, span);
        },
    }
    let start = match node.args {
        Some(args) => lower::lower_arguments(c, "super"@, args@, names::passes_block(node.block)),
        None => lower::forwarded(c, span),
    };
    if let Ok((c, site)) = start {
        lemma_block(c, site, node.block, span);
    }
}

/// What [`lower::forwarded`] leaves.
proof fn lemma_forwarded(c: Code, span: Span)
    ensures
        lower::forwarded(c, span) matches Ok((after, made)) ==> {
            &&& counts::leaves(c, after, made.argc + made.keywords.len(), 0)
            &&& made.block is Absent
        },
{
    broadcast use {counts::group_counts, counts::group_effects};

    if let Some(z) = c.zsuper {
        if !(z.positional.len() > u16::MAX) {
            let site = SiteModel {
                name: c.symbol_at("super"@),
                argc: 0,
                splats: Seq::empty(),
                keywords: Seq::empty(),
                block: BlockRef::Absent,
                implicit_self: true,
            };
            lemma_forward_positional(c.symbol("super"@), z, 0, site);
            let (c, site) = lower::forward_positional(c.symbol("super"@), z, 0, site);
            lemma_forward_keywords(c, z, 0, site);
        }
    }
}

/// What [`lower::forward_positional`] leaves.
proof fn lemma_forward_positional(c: Code, z: ZsuperModel, from: nat, site: SiteModel)
    ensures
        ({
            let (after, made) = lower::forward_positional(c, z, from, site);
            &&& counts::leaves(c, after, counts::rest(z.positional.len(), from), 0)
            &&& made.block == site.block
            &&& made.keywords == site.keywords
            &&& site.argc + counts::rest(z.positional.len(), from) <= u16::MAX
                ==> made.argc == site.argc + counts::rest(z.positional.len(), from)
        }),
    decreases z.positional.len() - from,
{
    broadcast use {counts::group_counts, counts::group_effects};

    if from < z.positional.len() {
        let (slot, is_rest) = z.positional[from as int];
        lemma_forward_positional(
            c.emit(Insn::GetLocal(slot, z.depth)),
            z,
            from + 1,
            SiteModel {
                splats: if is_rest {
                    site.splats.push(site.argc)
                } else {
                    site.splats
                },
                argc: lower::more(site.argc),
                ..site
            },
        );
    }
}

/// What [`lower::forward_keywords`] leaves.
proof fn lemma_forward_keywords(c: Code, z: ZsuperModel, from: nat, site: SiteModel)
    ensures
        ({
            let (after, made) = lower::forward_keywords(c, z, from, site);
            &&& counts::leaves(c, after, counts::rest(z.keywords.len(), from), 0)
            &&& made.block == site.block
            &&& made.argc == site.argc
            &&& made.keywords.len() == site.keywords.len() + counts::rest(z.keywords.len(), from)
        }),
    decreases z.keywords.len() - from,
{
    broadcast use {counts::group_counts, counts::group_effects};

    if from < z.keywords.len() {
        let (name, slot) = z.keywords[from as int];
        lemma_forward_keywords(
            c.symbol(name).emit(Insn::GetLocal(slot, z.depth)),
            z,
            from + 1,
            SiteModel { keywords: site.keywords.push(c.symbol_at(name)), ..site },
        );
    }
}

/// What [`lower::lower_def`] leaves.
proof fn lemma_def(c: Code, def: Def, span: Span)
    ensures
        lower::lower_def(c, def, span) matches Ok(after) ==> {
            &&& counts::leaves(c, after, 1, 0)
            &&& c.insns.len() < after.insns.len()
        },
    decreases def, 0nat,
{
    broadcast use {counts::group_counts, counts::group_effects};

    if let Ok(head) = lower::child_head(c, def.name@, def.params, bytecode::pool(def.locals@), true, span) {
        lemma_body(head, def.body@, 0, true);
        if let Ok(body) = lower::lower_body(head, def.body@, 0, true) {
            let name = c.symbol_at(def.name@);
            let c = c.symbol(def.name@);
            let child = c.children.len() as u32;
            let c = c.push_child(body.finish());
            let definition = c.definitions.len() as u32;
            let c1 = c.push_definition(name, child);
            if let Some(receiver) = def.receiver {
                lemma_expr(c1, receiver);
            }
        }
    }
}

/// What [`lower::lower_class_path`] leaves.
proof fn lemma_class_path(c: Code, path: Target)
    ensures
        lower::lower_class_path(c, path) matches Ok((after, _, how)) ==> {
            &&& counts::leaves(c, after, counts::one_if(how), 0)
        },
    decreases path, 2nat,
{
    broadcast use {counts::group_counts, counts::group_effects};

    lemma_const_target(c, path);
}

/// What [`lower::opened`] leaves.
proof fn lemma_opened(c: Code, body: Code, name: u32, kind: DefKind, scoped: bool, superclass: bool)
    ensures
        ({
            let after = lower::opened(c, body, name, kind, scoped, superclass);
            &&& counts::leaves(
                c,
                after,
                1 - counts::one_if(scoped) - counts::one_if(superclass) - counts::one_if(kind is Singleton),
                counts::one_if(scoped) + counts::one_if(superclass) + counts::one_if(kind is Singleton),
            )
        }),
{
    broadcast use {counts::group_counts, counts::group_effects};
}

/// What [`lower::lower_class`] leaves.
proof fn lemma_class(c: Code, class: Class)
    ensures
        lower::lower_class(c, class) matches Ok(after) ==> {
            &&& counts::leaves(c, after, 1, 0)
            &&& c.insns.len() < after.insns.len()
        },
    decreases class, 0nat,
{
    broadcast use {counts::group_counts, counts::group_effects};

    lemma_class_path(c, class.path);
    if let Ok((c, name, scoped)) = lower::lower_class_path(c, class.path) {
        if let Some(superclass) = class.superclass {
            lemma_expr(c, superclass);
        }
        let ready = match class.superclass {
            Some(superclass) => lower::lower_expr(c, superclass),
            None => Ok(c),
        };
        if let Ok(c) = ready {
            lemma_body(
                lower::plain_head(
                    lower::body_label(DefKind::Class)@,
                    bytecode::pool(class.locals@),
                ),
                class.body@,
                0,
                true,
            );
            if let Ok(body) = lower::lower_body(
                lower::plain_head(
                    lower::body_label(DefKind::Class)@,
                    bytecode::pool(class.locals@),
                ),
                class.body@,
                0,
                true,
            ) {
                lemma_opened(c, body, name, DefKind::Class, scoped, class.superclass is Some);
            }
        }
    }
}

/// What [`lower::lower_module`] leaves.
proof fn lemma_module(c: Code, module: Module)
    ensures
        lower::lower_module(c, module) matches Ok(after) ==> {
            &&& counts::leaves(c, after, 1, 0)
            &&& c.insns.len() < after.insns.len()
        },
    decreases module, 0nat,
{
    broadcast use {counts::group_counts, counts::group_effects};

    lemma_class_path(c, module.path);
    if let Ok((c, name, scoped)) = lower::lower_class_path(c, module.path) {
        lemma_body(
            lower::plain_head(lower::body_label(DefKind::Module)@, bytecode::pool(module.locals@)),
            module.body@,
            0,
            true,
        );
        if let Ok(body) = lower::lower_body(
            lower::plain_head(lower::body_label(DefKind::Module)@, bytecode::pool(module.locals@)),
            module.body@,
            0,
            true,
        ) {
            lemma_opened(c, body, name, DefKind::Module, scoped, false);
        }
    }
}

/// What [`lower::lower_singleton`] leaves.
proof fn lemma_singleton(c: Code, node: SingletonClass)
    ensures
        lower::lower_singleton(c, node) matches Ok(after) ==> {
            &&& counts::leaves(c, after, 1, 0)
            &&& c.insns.len() < after.insns.len()
        },
    decreases node, 0nat,
{
    broadcast use {counts::group_counts, counts::group_effects};

    lemma_expr(c, node.expression);
    if let Ok(c) = lower::lower_expr(c, node.expression) {
        lemma_body(
            lower::plain_head(lower::body_label(DefKind::Singleton)@, bytecode::pool(node.locals@)),
            node.body@,
            0,
            true,
        );
        if let Ok(body) = lower::lower_body(
            lower::plain_head(lower::body_label(DefKind::Singleton)@, bytecode::pool(node.locals@)),
            node.body@,
            0,
            true,
        ) {
            lemma_opened(c, body, 0, DefKind::Singleton, false, false);
        }
    }
}

/// What [`lower::lower_swallowing`] leaves.
proof fn lemma_swallowing(c: Code, inner: Expr, span: Span)
    ensures
        lower::lower_swallowing(c, inner, span) matches Ok(after) ==> {
            &&& counts::leaves(c, after, 1, 0)
            &&& c.insns.len() < after.insns.len()
        },
    decreases inner, 2nat,
{
    broadcast use {counts::group_counts, counts::group_effects};

    let base = c.depth;
    let start = c.here();
    lemma_defined(c, inner, span);
}

/// What [`lower::lower_defined`] leaves.
proof fn lemma_defined(c: Code, expr: Expr, span: Span)
    ensures
        lower::lower_defined(c, expr, span) matches Ok(after) ==> {
            &&& counts::leaves(c, after, 1, 0)
            &&& c.insns.len() < after.insns.len()
        },
    decreases expr, 1nat,
{
    broadcast use {counts::group_counts, counts::group_effects};

    match expr.kind {
        ExprKind::Nil => {
            lemma_push_word(c, "nil");
        },
        ExprKind::True => {
            lemma_push_word(c, "true");
        },
        ExprKind::False => {
            lemma_push_word(c, "false");
        },
        ExprKind::SelfExpr => {
            lemma_push_word(c, "self");
        },
        ExprKind::Assign(_) => {
            lemma_push_word(c, "assignment");
        },
        ExprKind::Parens(inner) => {
            if inner@.len() == 1 {
                lemma_defined(c, inner@[0], inner@[0].span);
            } else {
                lemma_push_word(c, "expression");
            }
        },
        ExprKind::Var(var) => {
            lemma_defined_var(c, var, span);
        },
        ExprKind::ConstPath(path) => {
            if let Some(name) = path.name {
                let symbol = c.symbol_at(name@);
                let c = c.symbol(name@);
                if let Some(parent) = path.parent {
                    lemma_lower_guard(c, parent, Seq::empty());
                    if let Ok((c, undefined)) = lower::lower_guard(c, parent, Seq::empty()) {
                        lemma_expr(c, parent);
                        if let Ok(c) = lower::lower_expr(c, parent) {
                            lemma_close_guard(
                                c.emit(Insn::DefinedConst(symbol, ConstScope::Qualified)),
                                undefined,
                            );
                        }
                    }
                }
            }
        },
        ExprKind::Yield(_) => {},
        ExprKind::Call(call) => {
            lemma_defined_call(c, *call, span);
        },
        ExprKind::Array(elements) => {
            lemma_guards(c, elements@, 0, Seq::empty());
            if let Ok((c, undefined)) = lower::lower_guards(c, elements@, 0, Seq::empty()) {
                lemma_push_word(c, "expression");
                lemma_close_guard(lower::push_word(c, "expression"), undefined);
            }
        },
        ExprKind::Super(_) => {},
        _ => {
            lemma_push_word(c, "expression");
        },
    }
}

/// What [`lower::lower_defined_var`] leaves.
proof fn lemma_defined_var(c: Code, var: VarRef, span: Span)
    ensures
        lower::lower_defined_var(c, var, span) matches Ok(after) ==> {
            &&& counts::leaves(c, after, 1, 0)
            &&& c.insns.len() < after.insns.len()
        },
{
    broadcast use {counts::group_counts, counts::group_effects};

    match var {
        VarRef::Local { name: _, depth: _ } | VarRef::It => {
            lemma_push_word(c, "local-variable");
        },
        VarRef::Global(name) => {
            if name@ == ERRINFO@ {
                lemma_push_word(c, "global-variable");
            } else {
                if let Some(MatchRef::Data) = names::match_part(name@) {
                    lemma_push_word(c, "global-variable");
                }
            }
        },
        _ => {},
    }
}

/// What [`lower::lower_defined_call`] leaves.
proof fn lemma_defined_call(c: Code, call: Call, span: Span)
    ensures
        lower::lower_defined_call(c, call, span) matches Ok(after) ==> {
            &&& counts::leaves(c, after, 1, 0)
            &&& c.insns.len() < after.insns.len()
        },
    decreases call, 0nat,
{
    broadcast use {counts::group_counts, counts::group_effects};

    if !(call.block is Some) {
        let name = c.symbol_at(call.name@);
        let c = c.symbol(call.name@);
        if let Some(receiver) = call.receiver {
            lemma_lower_guard(c, receiver, Seq::empty());
        }
        let first = match call.receiver {
            Some(receiver) => lower::lower_guard(c, receiver, Seq::empty()),
            None => Ok((c, Seq::empty())),
        };
        if let Ok((c, undefined)) = first {
            lemma_guards(c, call.args@, 0, undefined);
            if let Ok((c, undefined)) = lower::lower_guards(c, call.args@, 0, undefined) {
                match call.receiver {
                    Some(receiver) => {
                        lemma_expr(c, receiver);
                        if let Ok(c) = lower::lower_expr(c, receiver) {
                            lemma_close_guard(c.emit(Insn::DefinedMethod(name)), undefined);
                        }
                    },
                    None => {
                        lemma_close_guard(c.emit(Insn::DefinedSelfMethod(name)), undefined);
                    },
                }
            }
        }
    }
}

/// What [`lower::lower_guard`] leaves.
proof fn lemma_lower_guard(c: Code, guard: Expr, undefined: Seq<usize>)
    ensures
        lower::lower_guard(c, guard, undefined) matches Ok((after, _)) ==> counts::leaves(c, after, 0, 0),
    decreases guard, 2nat,
{
    broadcast use {counts::group_counts, counts::group_effects};

    lemma_defined(c, guard, guard.span);
}

/// What [`lower::lower_guards`] leaves.
proof fn lemma_guards(c: Code, guards: Seq<Expr>, from: nat, undefined: Seq<usize>)
    ensures
        lower::lower_guards(c, guards, from, undefined) matches Ok((after, _)) ==> {
            &&& counts::leaves(c, after, 0, 0)
        },
    decreases guards, guards.len() - from,
{
    broadcast use {counts::group_counts, counts::group_effects};

    if from < guards.len() {
        lemma_lower_guard(c, guards[from as int], undefined);
        if let Ok((c, undefined)) = lower::lower_guard(c, guards[from as int], undefined) {
            lemma_guards(c, guards, from + 1, undefined);
        }
    }
}

/// What [`lower::close_guard`] leaves.
proof fn lemma_close_guard(c: Code, undefined: Seq<usize>)
    ensures
        ({
            let after = lower::close_guard(c, undefined);
            &&& counts::leaves(c, after, 0, 1)
        }),
{
    broadcast use {counts::group_counts, counts::group_effects};
}

/// What [`lower::save_errinfo`] leaves.
proof fn lemma_save_errinfo(c: Code)
    ensures
        ({
            let (after, _) = lower::save_errinfo(c);
            &&& counts::leaves(c, after, 0, 0)
        }),
{
    broadcast use {counts::group_counts, counts::group_effects};
}

/// What [`lower::lower_begin`] leaves.
#[verifier::rlimit(50)]
#[verifier::spinoff_prover]
proof fn lemma_begin(c: Code, node: Begin)
    ensures
        lower::lower_begin(c, node) matches Ok(after) ==> {
            &&& counts::leaves(c, after, 1, 0)
            &&& c.insns.len() < after.insns.len()
        },
    decreases node, 0nat,
{
    broadcast use {counts::group_counts, counts::group_effects};

    let base = c.depth;
    let outside = c.open_ensures;
    let c = if node.ensure_body is Some {
        c.owe(lower::above(outside))
    } else {
        c
    };
    let rescues = node.rescues@.len() > 0;
    if rescues {
        lemma_save_errinfo(c);
    }
    let (c, errinfo) = if rescues {
        lower::save_errinfo(c)
    } else {
        (c, 0)
    };
    let body_start = c.here();
    lemma_body(c, node.body@, 0, true);
    if let Ok(c) = lower::lower_body(c, node.body@, 0, true) {
        let body_end = c.here();
        if let Some(body) = node.else_body {
            lemma_body(c.emit(Insn::Pop), body@, 0, true);
        }
        let otherwise = match node.else_body {
            Some(body) => lower::lower_body(c.emit(Insn::Pop), body@, 0, true),
            None => Ok(c),
        };
        if let Ok(c) = otherwise {
            if rescues {
                let done = seq![c.here() as usize];
                let c = c.emit(Insn::Jump(0));
                let rescue_start = c.here();
                lemma_rescues(
                    c.handle_at(lower::above(base)),
                    node.rescues@,
                    0,
                    body_start,
                    base,
                    done,
                );
            }
            let handled = if rescues {
                let done = seq![c.here() as usize];
                let c = c.emit(Insn::Jump(0));
                let rescue_start = c.here();
                match lower::lower_rescues(
                    c.handle_at(lower::above(base)),
                    node.rescues@,
                    0,
                    body_start,
                    base,
                    done,
                ) {
                    Ok((c, done)) => {
                        let c = c.guard(lower::protected(CatchKind::Rescue, body_start, body_end, rescue_start, base));
                        Ok(c.patch_all(done, c.here()))
                    },
                    Err(u) => Err(u),
                }
            } else {
                Ok(c)
            };
            if let Ok(c) = handled {
                let c = c.at_depth(lower::above(base));
                let c = if rescues {
                    c.emit(Insn::GetLocal(errinfo, 0)).emit(Insn::SetErrinfo)
                } else {
                    c
                };
                if let Some(body) = node.ensure_body {
                    let c = c.owe(lower::below(c.open_ensures));
                    let protected_end = c.here();
                    let c = c.emit(Insn::EnterEnsure);
                    let ensure_start = c.here();
                    lemma_body(c, body@, 0, true);
                }
            }
        }
    }
}

/// What [`lower::lower_rescues`] leaves.
proof fn lemma_rescues(
    c: Code,
    clauses: Seq<Rescue>,
    from: nat,
    body_start: nat,
    base: nat,
    done: Seq<usize>,
)
    ensures
        lower::lower_rescues(c, clauses, from, body_start, base, done) matches Ok((after, _)) ==> {
            &&& counts::grown(c, after)
            &&& counts::level(c) && base < c.insns.len() ==> counts::level(after)
        },
    decreases clauses, clauses.len() - from,
{
    broadcast use {counts::group_counts, counts::group_effects};

    if from < clauses.len() {
        lemma_rescue(c, clauses[from as int], body_start, base, done);
        if let Ok((c, done)) = lower::lower_rescue(c, clauses[from as int], body_start, base, done) {
            lemma_rescues(c, clauses, from + 1, body_start, base, done);
        }
    }
}

/// What [`lower::lower_rescue`] leaves.
proof fn lemma_rescue(c: Code, clause: Rescue, body_start: nat, base: nat, done: Seq<usize>)
    ensures
        lower::lower_rescue(c, clause, body_start, base, done) matches Ok((after, _)) ==> {
            &&& counts::grown(c, after)
            &&& counts::level(c) && base < c.insns.len() ==> counts::level(after)
        },
    decreases clause, 0nat,
{
    broadcast use {counts::group_counts, counts::group_effects};

    if clause.exceptions@.len() == 0 {
        lemma_standard_error(c);
    } else {
        lemma_exceptions(c, clause.exceptions@, 0, Seq::empty());
    }
    let tested = if clause.exceptions@.len() == 0 {
        let c = lower::standard_error(c);
        Ok((c.emit(Insn::JumpIf(0)), seq![c.here() as usize]))
    } else {
        lower::lower_exceptions(c, clause.exceptions@, 0, Seq::empty())
    };
    if let Ok((c, hits)) = tested {
        let miss = c.here();
        let c = c.emit(Insn::Jump(0));
        let c = c.patch_all(hits, c.here()).at_depth(lower::above(base));
        if let Some(target) = clause.reference {
            lemma_place(c, target);
            if let Ok((c, place)) = lower::lower_place(c, target) {
                lemma_write_place(c, place);
            }
        }
        let bound = match clause.reference {
            Some(target) => match lower::lower_place(c, target) {
                Ok((c, place)) => Ok(lower::write_place(c, place)),
                Err(u) => Err(u),
            },
            None => Ok(c.emit(Insn::Pop)),
        };
        if let Ok(c) = bound {
            lemma_body(c.push_retry(body_start, base), clause.body@, 0, true);
        }
    }
}

/// What [`lower::standard_error`] leaves.
proof fn lemma_standard_error(c: Code)
    ensures
        ({
            let after = lower::standard_error(c);
            &&& counts::leaves(c, after, 1, 0)
            &&& c.insns.len() < after.insns.len()
        }),
{
    broadcast use {counts::group_counts, counts::group_effects};
}

/// What [`lower::lower_exceptions`] leaves.
proof fn lemma_exceptions(c: Code, exceptions: Seq<Expr>, from: nat, hits: Seq<usize>)
    ensures
        lower::lower_exceptions(c, exceptions, from, hits) matches Ok((after, _)) ==> {
            &&& counts::leaves(c, after, 0, 0)
        },
    decreases exceptions, exceptions.len() - from,
{
    broadcast use {counts::group_counts, counts::group_effects};

    if from < exceptions.len() {
        let exception = exceptions[from as int];
        match exception.kind {
            ExprKind::Splat(inner) => {
                if let Some(inner) = inner {
                    lemma_expr(c.emit(Insn::NewArray(0)), *inner);
                }
            },
            _ => {
                lemma_expr(c, exception);
            },
        }
        let tested = match exception.kind {
            ExprKind::Splat(inner) => match inner {
                None => code::refused("an anonymous splat", exception.span),
                Some(inner) => match lower::lower_expr(c.emit(Insn::NewArray(0)), *inner) {
                    Ok(c) => Ok(c.send("__concat_splat__"@, 1, false).emit(Insn::CheckMatchAny)),
                    Err(u) => Err(u),
                },
            },
            _ => match lower::lower_expr(c, exception) {
                Ok(c) => Ok(c.emit(Insn::CheckMatch)),
                Err(u) => Err(u),
            },
        };
        if let Ok(c) = tested {
            lemma_exceptions(
                c.emit(Insn::JumpIf(0)),
                exceptions,
                from + 1,
                hits.push(c.here() as usize),
            );
        }
    }
}

/// What [`lower::lower_rescue_mod`] leaves.
#[verifier::rlimit(50)]
#[verifier::spinoff_prover]
proof fn lemma_rescue_mod(c: Code, node: RescueMod)
    ensures
        lower::lower_rescue_mod(c, node) matches Ok(after) ==> {
            &&& counts::leaves(c, after, 1, 0)
            &&& c.insns.len() < after.insns.len()
        },
    decreases node, 0nat,
{
    broadcast use {counts::group_counts, counts::group_effects};

    let base = c.depth;
    lemma_save_errinfo(c);
    let (c, errinfo) = lower::save_errinfo(c);
    let body_start = c.here();
    lemma_expr(c, node.value);
    if let Ok(c) = lower::lower_expr(c, node.value) {
        let body_end = c.here();
        let first = c.here();
        let c = c.emit(Insn::Jump(0));
        let rescue_start = c.here();
        lemma_standard_error(c.handle_at(lower::above(base)));
        let c = lower::standard_error(c.handle_at(lower::above(base)));
        let hit = c.here();
        let c = c.emit(Insn::JumpIf(0));
        let miss = c.here();
        let c = c.emit(Insn::Jump(0)).patch_here(hit).at_depth(lower::above(base)).emit(Insn::Pop);
        lemma_expr(c.push_retry(body_start, base), node.rescue_value);
    }
}

/// What [`lower::open_key`] leaves.
proof fn lemma_open_key(c: Code, wanted: bool)
    ensures
        ({
            let after = lower::open_key(c, wanted);
            &&& counts::leaves(c, after, 0, 0)
        }),
{
    broadcast use {counts::group_counts, counts::group_effects};
}

/// What [`lower::pattern_failure`] leaves.
proof fn lemma_pattern_failure(c: Code, subject: u16)
    ensures
        ({
            let after = lower::pattern_failure(c, subject);
            &&& counts::leaves(c, after, 1, 0)
            &&& c.insns.len() < after.insns.len()
        }),
{
    broadcast use {counts::group_counts, counts::group_effects};
}

/// What [`lower::lower_case_in`] leaves.
#[verifier::rlimit(50)]
#[verifier::spinoff_prover]
proof fn lemma_case_in(c: Code, node: Case, span: Span)
    ensures
        lower::lower_case_in(c, node, span) matches Ok(after) ==> {
            &&& counts::leaves(c, after, 1, 0)
            &&& c.insns.len() < after.insns.len()
        },
    decreases node, 0nat,
{
    broadcast use {counts::group_counts, counts::group_effects};

    if let (Some(predicate), CaseBranches::In(clauses)) = (node.predicate, node.branches) {
        lemma_expr(c, predicate);
        if let Ok(c) = lower::lower_expr(c, predicate) {
            let subject = lower::pattern_slot(c, "subject"@);
            let c = lower::with_pattern_slot(c, "subject"@).emit(Insn::SetLocal(subject, 0));
            let cache = lower::pattern_slot(c, "deconstructed"@);
            let c = lower::with_pattern_slot(c, "deconstructed"@)
                .emit(Insn::PushNil)
                .emit(Insn::SetLocal(cache, 0));
            let outer_cache = c.pattern_cache;
            let outer_key = c.pattern_key;
            lemma_open_key(c.with_pattern_cache(Some(cache)), clauses@.len() == 1);
            let c = lower::open_key(c.with_pattern_cache(Some(cache)), clauses@.len() == 1);
            let tests = c.depth;
            lemma_in_tests(c, clauses@, 0, subject, tests, Seq::empty());
            if let Ok((c, entries)) = lower::lower_in_tests(c, clauses@, 0, subject, tests, Seq::empty()) {
                match node.else_body {
                    Some(body) => {
                        lemma_body(c, body@, 0, true);
                    },
                    None => {
                        lemma_pattern_failure(c, subject);
                    },
                }
                let otherwise = match node.else_body {
                    Some(body) => lower::lower_body(c, body@, 0, true),
                    None => Ok(lower::pattern_failure(c, subject)),
                };
                if let Ok(c) = otherwise {
                    let end = c.depth;
                    let to_end = seq![c.here() as usize];
                    lemma_ins(c.emit(Insn::Jump(0)), clauses@, 0, entries, tests, to_end);
                }
            }
        }
    }
}

/// What [`lower::lower_in_tests`] leaves.
proof fn lemma_in_tests(
    c: Code,
    clauses: Seq<InClause>,
    from: nat,
    subject: u16,
    tests: nat,
    entries: Seq<usize>,
)
    ensures
        lower::lower_in_tests(c, clauses, from, subject, tests, entries) matches Ok((after, _)) ==> {
            &&& counts::grown(c, after)
            &&& counts::level(c) && tests <= c.insns.len() ==> counts::level(after)
            &&& counts::level(c) && c.depth == tests && counts::fits(after) ==> after.depth == tests
        },
    decreases clauses, clauses.len() - from,
{
    broadcast use {counts::group_counts, counts::group_effects};

    if from < clauses.len() {
        lemma_in_test(c, clauses[from as int], subject, tests);
        if let Ok((c, entry)) = lower::lower_in_test(c, clauses[from as int], subject, tests) {
            lemma_in_tests(c, clauses, from + 1, subject, tests, entries.push(entry));
        }
    }
}

/// What [`lower::lower_in_test`] leaves.
proof fn lemma_in_test(c: Code, clause: InClause, subject: u16, tests: nat)
    ensures
        lower::lower_in_test(c, clause, subject, tests) matches Ok((after, _)) ==> {
            &&& counts::grown(c, after)
            &&& counts::level(c) && tests <= c.insns.len() ==> counts::level(after)
            &&& counts::level(c) && c.depth == tests && counts::fits(after) ==> after.depth == tests
        },
    decreases clause, 0nat,
{
    broadcast use {counts::group_counts, counts::group_effects};

    reveal(Code::effect);
    lemma_pattern(c.emit(Insn::GetLocal(subject, 0)), clause.pattern);
    if let Ok(c) = lower::lower_pattern(c.emit(Insn::GetLocal(subject, 0)), clause.pattern) {
        let entry = c.here();
        let c = c.emit(Insn::JumpIf(0));
        if let Some(guard) = clause.guard {
            let skip = c.here();
            let c = c.emit(Insn::Jump(0)).patch_here(entry).at_depth(tests);
            match guard {
                Guard::If(condition) => {
                    lemma_expr(c, condition);
                },
                Guard::Unless(condition) => {
                    lemma_expr(c, condition);
                },
            }
        }
    }
}

/// What [`lower::lower_ins`] leaves.
proof fn lemma_ins(
    c: Code,
    clauses: Seq<InClause>,
    from: nat,
    entries: Seq<usize>,
    tests: nat,
    to_end: Seq<usize>,
)
    ensures
        lower::lower_ins(c, clauses, from, entries, tests, to_end) matches Ok((after, _)) ==> {
            &&& counts::grown(c, after)
            &&& counts::level(c) && tests <= c.insns.len() ==> counts::level(after)
        },
    decreases clauses, clauses.len() - from,
{
    broadcast use {counts::group_counts, counts::group_effects};

    if from < clauses.len() {
        lemma_body(
            c.patch_here(entries[from as int] as nat).at_depth(tests),
            clauses[from as int].body@,
            0,
            true,
        );
        if let Ok(c) = lower::lower_body(
            c.patch_here(entries[from as int] as nat).at_depth(tests),
            clauses[from as int].body@,
            0,
            true,
        ) {
            lemma_ins(
                c.emit(Insn::Jump(0)),
                clauses,
                from + 1,
                entries,
                tests,
                to_end.push(c.here() as usize),
            );
        }
    }
}

/// What [`lower::lower_match`] leaves.
proof fn lemma_match(c: Code, node: MatchPattern)
    ensures
        lower::lower_match(c, node) matches Ok(after) ==> {
            &&& counts::leaves(c, after, 1, 0)
            &&& c.insns.len() < after.insns.len()
        },
    decreases node, 0nat,
{
    broadcast use {counts::group_counts, counts::group_effects};

    lemma_expr(c, node.value);
    if let Ok(c) = lower::lower_expr(c, node.value) {
        let outer_key = c.pattern_key;
        if !node.raises {
            lemma_open_key(c, false);
            lemma_pattern(lower::open_key(c, false), node.pattern);
        } else {
            let subject = lower::pattern_slot(c, "subject"@);
            lemma_open_key(
                lower::with_pattern_slot(c, "subject"@).emit(Insn::SetLocal(subject, 0)),
                true,
            );
            let c = lower::open_key(
                lower::with_pattern_slot(c, "subject"@).emit(Insn::SetLocal(subject, 0)),
                true,
            );
            let before = c.depth;
            lemma_pattern(c.emit(Insn::GetLocal(subject, 0)), node.pattern);
            if let Ok(c) = lower::lower_pattern(c.emit(Insn::GetLocal(subject, 0)), node.pattern) {
                let to_ok = c.here();
                lemma_pattern_failure(c.emit(Insn::JumpIf(0)), subject);
            }
        }
    }
}

/// What [`lower::lower_pattern`] leaves.
proof fn lemma_pattern(c: Code, pat: Expr)
    ensures
        lower::lower_pattern(c, pat) matches Ok(after) ==> counts::leaves(c, after, 0, 1),
    decreases pat, 1nat,
{
    broadcast use {counts::group_counts, counts::group_effects};

    match pat.kind {
        ExprKind::Var(VarRef::Local { name, depth }) => {
            lemma_write_local(c, name@, depth, pat.span);
        },
        ExprKind::Pin(inner) => {
            lemma_expr(c, *inner);
        },
        ExprKind::AltPattern(alt) => {
            lemma_pattern(c.emit(Insn::Dup), alt.left);
            if let Ok(c) = lower::lower_pattern(c.emit(Insn::Dup), alt.left) {
                let to_right = c.here();
                let c = c.emit(Insn::JumpUnless(0));
                let matched = c.depth;
                let c = c.emit(Insn::Pop).emit(Insn::PushTrue);
                let to_end = c.here();
                let c = c.emit(Insn::Jump(0)).patch_here(to_right).at_depth(matched);
                lemma_pattern(c, alt.right);
            }
        },
        ExprKind::CapturePattern(capture) => {
            lemma_capture(c, *capture);
        },
        ExprKind::ArrayPattern(node) => {
            lemma_array_pattern(lower::deeper(c), *node, pat.span);
        },
        ExprKind::FindPattern(node) => {
            lemma_find_pattern(lower::deeper(c), *node);
        },
        ExprKind::HashPattern(node) => {
            lemma_hash_pattern(lower::deeper(c), *node, pat.span);
        },
        _ => {
            lemma_expr(c, pat);
        },
    }
}

/// What [`lower::lower_capture`] leaves.
proof fn lemma_capture(c: Code, capture: CapturePattern)
    ensures
        lower::lower_capture(c, capture) matches Ok(after) ==> counts::leaves(c, after, 0, 1),
    decreases capture, 0nat,
{
    broadcast use {counts::group_counts, counts::group_effects};

    lemma_pattern(c.emit(Insn::Dup), capture.value);
    if let Ok(c) = lower::lower_pattern(c.emit(Insn::Dup), capture.value) {
        let to_fail = c.here();
        let c = c.emit(Insn::JumpUnless(0));
        let held = c.depth;
        lemma_place(c, capture.target);
        if let Ok((c, place)) = lower::lower_place(c, capture.target) {
            lemma_write_place(c, place);
        }
    }
}

/// What [`lower::lower_pattern_class`] leaves.
proof fn lemma_pattern_class(c: Code, constant: Option<Expr>, subject: u16)
    ensures
        lower::lower_pattern_class(c, constant, subject) matches Ok((after, _)) ==> {
            &&& counts::leaves(c, after, 0, 0)
        },
    decreases constant, 0nat,
{
    broadcast use {counts::group_counts, counts::group_effects};

    if let Some(constant) = constant {
        lemma_expr(c.emit(Insn::GetLocal(subject, 0)), constant);
    }
}

/// What [`lower::deconstructed`] leaves.
proof fn lemma_deconstructed(c: Code, parts: u16, subject: u16, cache: Option<u16>)
    ensures
        ({
            let after = lower::deconstructed(c, parts, subject, cache);
            &&& counts::leaves(c, after, 1, 0)
            &&& c.insns.len() < after.insns.len()
        }),
{
    broadcast use {counts::group_counts, counts::group_effects};
}

/// What [`lower::finish_pattern`] leaves.
proof fn lemma_finish_pattern(c: Code, base: nat, fails: Seq<usize>)
    ensures
        ({
            let after = lower::finish_pattern(c, base, fails);
            &&& counts::grown(c, after)
            &&& c.insns.len() + 3 == after.insns.len()
            &&& base <= c.insns.len() ==> counts::level(after)
            &&& counts::fits(after) && base <= c.insns.len() ==> after.depth == base + 1
        }),
{
    broadcast use {counts::group_counts, counts::group_effects};
}

/// What [`lower::measured`] leaves.
proof fn lemma_measured(c: Code, parts: u16, length: u16)
    ensures
        ({
            let after = lower::measured(c, parts, length);
            &&& counts::leaves(c, after, 0, 0)
        }),
{
    broadcast use {counts::group_counts, counts::group_effects};
}

/// What [`lower::lower_array_pattern`] leaves.
#[verifier::rlimit(50)]
#[verifier::spinoff_prover]
proof fn lemma_array_pattern(c: Code, node: ArrayPattern, span: Span)
    ensures
        lower::lower_array_pattern(c, node, span) matches Ok(after) ==> counts::leaves(c, after, 0, 1),
    decreases node, 0nat,
{
    broadcast use {counts::group_counts, counts::group_effects};

    let subject = lower::pattern_slot(c, "subject"@);
    let c = lower::with_pattern_slot(c, "subject"@);
    let parts = lower::pattern_slot(c, "parts"@);
    let c = lower::with_pattern_slot(c, "parts"@);
    let length = lower::pattern_slot(c, "length"@);
    let c = lower::with_pattern_slot(c, "length"@).emit(Insn::SetLocal(subject, 0));
    let base = c.depth;
    lemma_pattern_class(c, node.constant, subject);
    if let Ok((c, fails)) = lower::lower_pattern_class(c, node.constant, subject) {
        let cache = c.pattern_cache;
        lemma_deconstructed(c, parts, subject, cache);
        let c = lower::deconstructed(c, parts, subject, cache);
        let fails = fails.push(c.here() as usize);
        lemma_measured(c.emit(Insn::JumpUnless(0)), parts, length);
        let c = lower::measured(c.emit(Insn::JumpUnless(0)), parts, length);
        if !(node.requireds@.len() > WIDEST || node.posts@.len() > WIDEST) {
            let fixed = node.requireds@.len() + node.posts@.len();
            let c = c.emit(Insn::GetLocal(length, 0))
                .emit(Insn::PushInt(fixed as i64))
                .emit(Insn::BinOp(if node.rest is Some { BinOp::Ge } else { BinOp::Eq }));
            let fails = fails.push(c.here() as usize);
            lemma_requireds(c.emit(Insn::JumpUnless(0)), node.requireds@, 0, parts, fails);
            if let Ok((c, fails)) = lower::lower_requireds(c.emit(Insn::JumpUnless(0)), node.requireds@, 0, parts, fails) {
                lemma_posts(c, node.posts@, 0, parts, length, fails);
                if let Ok((c, fails)) = lower::lower_posts(c, node.posts@, 0, parts, length, fails) {
                    if let Some(rest) = node.rest {
                        if let Some((name, depth)) = names::rest_local(rest) {
                            lemma_write_local(
                                c.emit(Insn::GetLocal(parts, 0))
                                    .emit(Insn::PushInt(node.requireds@.len() as i64))
                                    .emit(Insn::GetLocal(length, 0))
                                    .emit(Insn::PushInt(fixed as i64))
                                    .emit(Insn::BinOp(BinOp::Sub))
                                    .send("__take__"@, 2, false),
                                name,
                                depth,
                                span,
                            );
                        }
                    }
                    let taken = match node.rest {
                        Some(rest) => match names::rest_local(rest) {
                            Some((name, depth)) => lower::write_local(
                                c.emit(Insn::GetLocal(parts, 0))
                                    .emit(Insn::PushInt(node.requireds@.len() as i64))
                                    .emit(Insn::GetLocal(length, 0))
                                    .emit(Insn::PushInt(fixed as i64))
                                    .emit(Insn::BinOp(BinOp::Sub))
                                    .send("__take__"@, 2, false),
                                name,
                                depth,
                                span,
                            ),
                            None => Ok(c),
                        },
                        None => Ok(c),
                    };
                    if let Ok(c) = taken {
                        lemma_finish_pattern(c.with_pattern_cache(cache), base, fails);
                    }
                }
            }
        }
    }
}

/// What [`lower::lower_requireds`] leaves.
proof fn lemma_requireds(c: Code, elements: Seq<Expr>, from: nat, parts: u16, fails: Seq<usize>)
    ensures
        lower::lower_requireds(c, elements, from, parts, fails) matches Ok((after, _)) ==> {
            &&& counts::leaves(c, after, 0, 0)
        },
    decreases elements, elements.len() - from,
{
    broadcast use {counts::group_counts, counts::group_effects};

    if from < elements.len() {
        lemma_pattern(
            c.emit(Insn::GetLocal(parts, 0)).emit(Insn::PushInt(from as i64)).send("[]"@, 1, false),
            elements[from as int],
        );
        if let Ok(c) = lower::lower_pattern(
            c.emit(Insn::GetLocal(parts, 0)).emit(Insn::PushInt(from as i64)).send("[]"@, 1, false),
            elements[from as int],
        ) {
            lemma_requireds(
                c.emit(Insn::JumpUnless(0)),
                elements,
                from + 1,
                parts,
                fails.push(c.here() as usize),
            );
        }
    }
}

/// What [`lower::lower_posts`] leaves.
proof fn lemma_posts(
    c: Code,
    elements: Seq<Expr>,
    from: nat,
    parts: u16,
    length: u16,
    fails: Seq<usize>,
)
    ensures
        lower::lower_posts(c, elements, from, parts, length, fails) matches Ok((after, _)) ==> {
            &&& counts::leaves(c, after, 0, 0)
        },
    decreases elements, elements.len() - from,
{
    broadcast use {counts::group_counts, counts::group_effects};

    if from < elements.len() {
        lemma_pattern(
            c.emit(Insn::GetLocal(parts, 0))
                .emit(Insn::GetLocal(length, 0))
                .emit(Insn::PushInt((elements.len() - from) as i64))
                .emit(Insn::BinOp(BinOp::Sub))
                .send("[]"@, 1, false),
            elements[from as int],
        );
        if let Ok(c) = lower::lower_pattern(
            c.emit(Insn::GetLocal(parts, 0))
                .emit(Insn::GetLocal(length, 0))
                .emit(Insn::PushInt((elements.len() - from) as i64))
                .emit(Insn::BinOp(BinOp::Sub))
                .send("[]"@, 1, false),
            elements[from as int],
        ) {
            lemma_posts(
                c.emit(Insn::JumpUnless(0)),
                elements,
                from + 1,
                parts,
                length,
                fails.push(c.here() as usize),
            );
        }
    }
}

/// What [`lower::lower_find_pattern`] leaves.
#[verifier::rlimit(50)]
#[verifier::spinoff_prover]
proof fn lemma_find_pattern(c: Code, node: FindPattern)
    ensures
        lower::lower_find_pattern(c, node) matches Ok(after) ==> counts::leaves(c, after, 0, 1),
    decreases node, 0nat,
{
    broadcast use {counts::group_counts, counts::group_effects};

    let subject = lower::pattern_slot(c, "subject"@);
    let c = lower::with_pattern_slot(c, "subject"@);
    let parts = lower::pattern_slot(c, "parts"@);
    let c = lower::with_pattern_slot(c, "parts"@);
    let length = lower::pattern_slot(c, "length"@);
    let c = lower::with_pattern_slot(c, "length"@);
    let cursor = lower::pattern_slot(c, "cursor"@);
    let c = lower::with_pattern_slot(c, "cursor"@).emit(Insn::SetLocal(subject, 0));
    let base = c.depth;
    lemma_pattern_class(c, node.constant, subject);
    if let Ok((c, fails)) = lower::lower_pattern_class(c, node.constant, subject) {
        let cache = c.pattern_cache;
        lemma_deconstructed(c, parts, subject, cache);
        let c = lower::deconstructed(c, parts, subject, cache);
        let fails = fails.push(c.here() as usize);
        let width = node.requireds@.len() as i64;
        lemma_measured(c.emit(Insn::JumpUnless(0)), parts, length);
        let c = lower::measured(c.emit(Insn::JumpUnless(0)), parts, length)
            .emit(Insn::PushInt(0))
            .emit(Insn::SetLocal(cursor, 0));
        let top = c.here();
        lemma_past_cursor(c, cursor, width);
        let c = lower::past_cursor(c, cursor, width)
            .emit(Insn::GetLocal(length, 0))
            .emit(Insn::BinOp(BinOp::Le));
        let fails = fails.push(c.here() as usize);
        lemma_found(c.emit(Insn::JumpUnless(0)), node.requireds@, 0, parts, cursor, Seq::empty());
        if let Ok((c, retry)) = lower::lower_found(
            c.emit(Insn::JumpUnless(0)),
            node.requireds@,
            0,
            parts,
            cursor,
            Seq::empty(),
        ) {
            if let Some((name, depth)) = names::rest_local(node.left) {
                lemma_write_local(
                    c.emit(Insn::GetLocal(parts, 0))
                        .emit(Insn::PushInt(0))
                        .emit(Insn::GetLocal(cursor, 0))
                        .send("__take__"@, 2, false),
                    name,
                    depth,
                    node.left.span,
                );
            }
            let before = match names::rest_local(node.left) {
                Some((name, depth)) => lower::write_local(
                    c.emit(Insn::GetLocal(parts, 0))
                        .emit(Insn::PushInt(0))
                        .emit(Insn::GetLocal(cursor, 0))
                        .send("__take__"@, 2, false),
                    name,
                    depth,
                    node.left.span,
                ),
                None => Ok(c),
            };
            if let Ok(c) = before {
                if let Some((name, depth)) = names::rest_local(node.right) {
                    lemma_past_cursor(c.emit(Insn::GetLocal(parts, 0)), cursor, width);
                    lemma_past_cursor(
                        lower::past_cursor(c.emit(Insn::GetLocal(parts, 0)), cursor, width)
                            .emit(Insn::GetLocal(length, 0)),
                        cursor,
                        width,
                    );
                    lemma_write_local(
                        lower::past_cursor(
                            lower::past_cursor(c.emit(Insn::GetLocal(parts, 0)), cursor, width)
                                .emit(Insn::GetLocal(length, 0)),
                            cursor,
                            width,
                        )
                            .emit(Insn::BinOp(BinOp::Sub))
                            .send("__take__"@, 2, false),
                        name,
                        depth,
                        node.right.span,
                    );
                }
                let after = match names::rest_local(node.right) {
                    Some((name, depth)) => lower::write_local(
                        lower::past_cursor(
                            lower::past_cursor(c.emit(Insn::GetLocal(parts, 0)), cursor, width)
                                .emit(Insn::GetLocal(length, 0)),
                            cursor,
                            width,
                        )
                            .emit(Insn::BinOp(BinOp::Sub))
                            .send("__take__"@, 2, false),
                        name,
                        depth,
                        node.right.span,
                    ),
                    None => Ok(c),
                };
                if let Ok(c) = after {
                    let matched = c.here();
                    let c = c.emit(Insn::Jump(0));
                    lemma_past_cursor(c.patch_all(retry, c.here()).at_depth(base), cursor, 1);
                    let c = lower::past_cursor(c.patch_all(retry, c.here()).at_depth(base), cursor, 1)
                        .emit(Insn::SetLocal(cursor, 0));
                    let c = c.emit(Insn::Jump(0)).patch(c.here(), top).patch_here(matched).at_depth(base);
                    lemma_finish_pattern(c.with_pattern_cache(cache), base, fails);
                }
            }
        }
    }
}

/// What [`lower::past_cursor`] leaves.
proof fn lemma_past_cursor(c: Code, cursor: u16, width: i64)
    ensures
        ({
            let after = lower::past_cursor(c, cursor, width);
            &&& counts::leaves(c, after, 1, 0)
            &&& c.insns.len() < after.insns.len()
        }),
{
    broadcast use {counts::group_counts, counts::group_effects};
}

/// What [`lower::lower_found`] leaves.
proof fn lemma_found(
    c: Code,
    elements: Seq<Expr>,
    from: nat,
    parts: u16,
    cursor: u16,
    retry: Seq<usize>,
)
    ensures
        lower::lower_found(c, elements, from, parts, cursor, retry) matches Ok((after, _)) ==> {
            &&& counts::leaves(c, after, 0, 0)
        },
    decreases elements, elements.len() - from,
{
    broadcast use {counts::group_counts, counts::group_effects};

    if from < elements.len() {
        lemma_past_cursor(c.emit(Insn::GetLocal(parts, 0)), cursor, from as i64);
        lemma_pattern(
            lower::past_cursor(c.emit(Insn::GetLocal(parts, 0)), cursor, from as i64)
                .send("[]"@, 1, false),
            elements[from as int],
        );
        if let Ok(c) = lower::lower_pattern(
            lower::past_cursor(c.emit(Insn::GetLocal(parts, 0)), cursor, from as i64)
                .send("[]"@, 1, false),
            elements[from as int],
        ) {
            lemma_found(
                c.emit(Insn::JumpUnless(0)),
                elements,
                from + 1,
                parts,
                cursor,
                retry.push(c.here() as usize),
            );
        }
    }
}

/// What [`lower::pattern_keys`] leaves.
proof fn lemma_pattern_keys(c: Code, elements: Seq<HashEntry>, from: nat, keys: Seq<u32>)
    ensures
        lower::pattern_keys(c, elements, from, keys) matches Ok((after, _)) ==> {
            &&& counts::leaves(c, after, 0, 0)
        },
    decreases elements.len() - from,
{
    broadcast use {counts::group_counts, counts::group_effects};

    if from < elements.len() {
        if let Ok(key) = lower::pattern_key_of(elements[from as int]) {
            lemma_pattern_keys(c.symbol(key), elements, from + 1, keys.push(c.symbol_at(key)));
        }
    }
}

/// What [`lower::push_symbols`] leaves.
proof fn lemma_push_symbols(c: Code, symbols: Seq<u32>, from: nat)
    ensures
        ({
            let after = lower::push_symbols(c, symbols, from);
            &&& counts::leaves(c, after, counts::rest(symbols.len(), from), 0)
            &&& after.insns.len() == c.insns.len() + counts::rest(symbols.len(), from)
        }),
    decreases symbols.len() - from,
{
    broadcast use {counts::group_counts, counts::group_effects};

    if from < symbols.len() {
        lemma_push_symbols(c.emit(Insn::PushSym(symbols[from as int])), symbols, from + 1);
    }
}

/// What [`lower::sized`] leaves.
proof fn lemma_sized(c: Code, pairs: u16, count: i64)
    ensures
        ({
            let after = lower::sized(c, pairs, count);
            &&& counts::leaves(c, after, 1, 0)
            &&& c.insns.len() < after.insns.len()
        }),
{
    broadcast use {counts::group_counts, counts::group_effects};
}

/// What [`lower::lower_hash_pattern`] leaves.
#[verifier::rlimit(50)]
#[verifier::spinoff_prover]
proof fn lemma_hash_pattern(c: Code, node: HashPattern, span: Span)
    ensures
        lower::lower_hash_pattern(c, node, span) matches Ok(after) ==> counts::leaves(c, after, 0, 1),
    decreases node, 0nat,
{
    broadcast use {counts::group_counts, counts::group_effects};

    let subject = lower::pattern_slot(c, "subject"@);
    let c = lower::with_pattern_slot(c, "subject"@);
    let pairs = lower::pattern_slot(c, "pairs"@);
    let c = lower::with_pattern_slot(c, "pairs"@).emit(Insn::SetLocal(subject, 0));
    let base = c.depth;
    lemma_pattern_class(c, node.constant, subject);
    if let Ok((c, fails)) = lower::lower_pattern_class(c, node.constant, subject) {
        lemma_pattern_keys(c, node.elements@, 0, Seq::empty());
        if let Ok((c, keys)) = lower::pattern_keys(c, node.elements@, 0, Seq::empty()) {
            let c = c.emit(Insn::PushSelf).emit(Insn::GetLocal(subject, 0));
            let all = node.rest matches Some(PatternRest::Splat(_));
            if !(!all && keys.len() > u32::MAX) {
                if !all {
                    lemma_push_symbols(c, keys, 0);
                }
                let c = if all {
                    c.emit(Insn::PushNil)
                } else {
                    lower::push_symbols(c, keys, 0).emit(Insn::NewArray(keys.len() as u32))
                };
                let c = c.send("__pattern_deconstruct_keys__"@, 2, true)
                    .emit(Insn::Dup)
                    .emit(Insn::SetLocal(pairs, 0));
                let fails = fails.push(c.here() as usize);
                let cache = c.pattern_cache;
                let c = c.emit(Insn::JumpUnless(0)).with_pattern_cache(None);
                lemma_pairs(c, node.elements@, 0, keys, pairs, fails);
                if let Ok((c, fails)) = lower::lower_pairs(c, node.elements@, 0, keys, pairs, fails) {
                    lemma_pattern_rest(c, node, keys, pairs, fails, span);
                    if let Ok((c, fails)) = lower::lower_pattern_rest(c, node, keys, pairs, fails, span) {
                        lemma_finish_pattern(c.with_pattern_cache(cache), base, fails);
                    }
                }
            }
        }
    }
}

/// What [`lower::key_tested`] leaves.
proof fn lemma_key_tested(c: Code, key: u32, pairs: u16, fails: Seq<usize>)
    ensures
        ({
            let (after, _) = lower::key_tested(c, key, pairs, fails);
            &&& counts::leaves(c, after, 0, 0)
        }),
{
    broadcast use {counts::group_counts, counts::group_effects};
}

/// What [`lower::lower_pairs`] leaves.
proof fn lemma_pairs(
    c: Code,
    elements: Seq<HashEntry>,
    from: nat,
    keys: Seq<u32>,
    pairs: u16,
    fails: Seq<usize>,
)
    ensures
        lower::lower_pairs(c, elements, from, keys, pairs, fails) matches Ok((after, _)) ==> {
            &&& counts::leaves(c, after, 0, 0)
        },
    decreases elements, elements.len() - from,
{
    broadcast use {counts::group_counts, counts::group_effects};

    if from < elements.len() {
        if let HashEntryKind::Pair { key: _, value } = elements[from as int].kind {
            let key = keys[from as int];
            lemma_key_tested(c, key, pairs, fails);
            let (c, fails) = lower::key_tested(c, key, pairs, fails);
            let c = c.emit(Insn::GetLocal(pairs, 0)).emit(Insn::PushSym(key)).send("[]"@, 1, false);
            match value.kind {
                ExprKind::Implicit(inner) => {
                    lemma_pattern(c, *inner);
                },
                _ => {
                    lemma_pattern(c, value);
                },
            }
            let matched = match value.kind {
                ExprKind::Implicit(inner) => lower::lower_pattern(c, *inner),
                _ => lower::lower_pattern(c, value),
            };
            if let Ok(c) = matched {
                lemma_pairs(
                    c.emit(Insn::JumpUnless(0)),
                    elements,
                    from + 1,
                    keys,
                    pairs,
                    fails.push(c.here() as usize),
                );
            }
        }
    }
}

/// What [`lower::lower_pattern_rest`] leaves.
proof fn lemma_pattern_rest(
    c: Code,
    node: HashPattern,
    keys: Seq<u32>,
    pairs: u16,
    fails: Seq<usize>,
    span: Span,
)
    ensures
        lower::lower_pattern_rest(c, node, keys, pairs, fails, span) matches Ok((after, _)) ==> {
            &&& counts::leaves(c, after, 0, 0)
        },
{
    broadcast use {counts::group_counts, counts::group_effects};

    match node.rest {
        Some(PatternRest::Forbidden) => {
            lemma_sized(c, pairs, keys.len() as i64);
        },
        Some(PatternRest::Splat(Some(target))) => {
            lemma_push_symbols(c.emit(Insn::PushSelf).emit(Insn::GetLocal(pairs, 0)), keys, 0);
            let c = lower::push_symbols(c.emit(Insn::PushSelf).emit(Insn::GetLocal(pairs, 0)), keys, 0)
                .emit(Insn::NewArray(keys.len() as u32))
                .send("__pattern_rest__"@, 2, true);
            if let Some((name, depth)) = names::rest_local(target) {
                lemma_write_local(c, name, depth, span);
            }
        },
        None => {
            if node.elements@.len() == 0 {
                lemma_sized(c, pairs, 0);
            }
        },
        _ => {},
    }
}

// ---------------------------------------------------------------------------
// Bodies with parameters
// ---------------------------------------------------------------------------

/// What [`lower::numbered_slots`] leaves.
proof fn lemma_numbered_slots(c: Code, from: nat, highest: nat)
    ensures
        counts::counts_kept(c, lower::numbered_slots(c, from, highest)),
    decreases highest + 1 - from,
{
    broadcast use counts::group_heads;

    if from <= highest {
        lemma_numbered_slots(c.slot(code::hidden("_"@, from)), from + 1, highest);
    }
}

/// What [`lower::claimed`] leaves.
proof fn lemma_claimed(c: Code, names: Seq<Seq<char>>, from: nat, at: nat)
    ensures
        counts::counts_kept(c, lower::claimed(c, names, from, at)),
    decreases names.len() - from,
{
    broadcast use counts::group_heads;

    if from < names.len() {
        lemma_claimed(c.param_slot(names[from as int], at + from), names, from + 1, at);
    }
}

/// What [`lower::required_slots`] leaves.
proof fn lemma_required_slots(
    c: Code,
    params: Seq<RequiredParam>,
    from: nat,
    at: nat,
    last: bool,
    span: Span,
)
    ensures
        lower::required_slots(c, params, from, at, last, span) matches Ok(after)
            ==> counts::counts_kept(c, after),
    decreases params.len() - from,
{
    broadcast use counts::group_heads;

    if from < params.len() {
        match params[from as int] {
            RequiredParam::Named(name) => {
                lemma_required_slots(c.param_slot(name@, at), params, from + 1, at + 1, last, span);
            },
            RequiredParam::Destructure(multi) => {
                lemma_claimed(c, lower::bound_names(*multi, Seq::empty()), 0, at);
            },
        }
    }
}

/// What [`lower::optional_slots`] leaves.
proof fn lemma_optional_slots(
    c: Code,
    params: Seq<OptionalParam>,
    from: nat,
    at: nat,
    found: Seq<Optional>,
)
    ensures
        counts::counts_kept(c, lower::optional_slots(c, params, from, at, found).0),
    decreases params.len() - from,
{
    broadcast use counts::group_heads;

    if from < params.len() {
        let name = params[from as int].name@;
        lemma_optional_slots(
            c.param_slot(name, at),
            params,
            from + 1,
            at + 1,
            found.push(Optional { slot: c.param_slot_at(name, at) }),
        );
    }
}

/// What [`lower::keyword_slots`] leaves.
proof fn lemma_keyword_slots(
    c: Code,
    params: Seq<KeywordParam>,
    from: nat,
    at: nat,
    found: Seq<Keyword>,
)
    ensures
        counts::counts_kept(c, lower::keyword_slots(c, params, from, at, found).0),
    decreases params.len() - from,
{
    broadcast use counts::group_heads;

    if from < params.len() {
        let name = params[from as int].name@;
        let placed = c.param_slot(name, at);
        lemma_keyword_slots(
            placed.symbol(name),
            params,
            from + 1,
            at + 1,
            found.push(
                Keyword {
                    name: placed.symbol_at(name),
                    slot: c.param_slot_at(name, at),
                    required: params[from as int].default is None,
                },
            ),
        );
    }
}

/// What [`lower::slots_of`] leaves.
proof fn lemma_slots_of(c: Code, names: Seq<Seq<char>>, from: nat)
    ensures
        counts::counts_kept(c, lower::slots_of(c, names, from)),
    decreases names.len() - from,
{
    broadcast use counts::group_heads;

    if from < names.len() {
        lemma_slots_of(c.slot(names[from as int]), names, from + 1);
    }
}

/// What [`lower::lower_param_list`] leaves.
proof fn lemma_param_list(c: Code, list: ParamList, span: Span)
    ensures
        lower::lower_param_list(c, list, span) matches Ok((after, _)) ==> counts::counts_kept(
            c,
            after,
        ),
{
    broadcast use counts::group_heads;

    lemma_required_slots(c, list.required@, 0, 0, lower::required_end(list), span);
    if let Ok(c) = lower::required_slots(c, list.required@, 0, 0, lower::required_end(list), span) {
        let at = list.required@.len();
        lemma_optional_slots(c, list.optional@, 0, at, Seq::empty());
        let (c, optional) = lower::optional_slots(c, list.optional@, 0, at, Seq::empty());
        let at = at + list.optional@.len();
        let (c, rest) = match list.rest {
            Some(rest) => {
                let name = match rest.name {
                    Some(name) => name@,
                    None => "*"@,
                };
                (c.param_slot(name, at), Some(c.param_slot_at(name, at)))
            },
            None => (c, None::<u16>),
        };
        let at = if rest is Some {
            at + 1
        } else {
            at
        };
        lemma_required_slots(c, list.posts@, 0, at, lower::posts_end(list), span);
        if let Ok(c) = lower::required_slots(c, list.posts@, 0, at, lower::posts_end(list), span) {
            let at = at + list.posts@.len();
            lemma_keyword_slots(c, list.keywords@, 0, at, Seq::empty());
            let (c, keywords) = lower::keyword_slots(c, list.keywords@, 0, at, Seq::empty());
            let at = at + list.keywords@.len();
            let (c, kwrest) = match list.keyword_rest {
                Some(KeywordRest::Named(name)) => {
                    let name = match name {
                        Some(name) => name@,
                        None => "**"@,
                    };
                    (c.param_slot(name, at), Some(c.param_slot_at(name, at)))
                },
                _ => (c, None::<u16>),
            };
            let at = if kwrest is Some {
                at + 1
            } else {
                at
            };
            let (c, block) = match list.block {
                Some(block) => {
                    let name = match block.name {
                        Some(name) => name@,
                        None => "&"@,
                    };
                    (c.param_slot(name, at), Some(c.param_slot_at(name, at)))
                },
                None => (c, None::<u16>),
            };
            lemma_slots_of(c, bytecode::pool(list.locals@), 0);
        }
    }
}

/// What [`lower::lower_params`] leaves.
proof fn lemma_params(c: Code, params: Params, span: Span)
    ensures
        lower::lower_params(c, params, span) matches Ok((after, _)) ==> counts::counts_kept(
            c,
            after,
        ),
{
    broadcast use counts::group_heads;

    match params {
        Params::Explicit(list) => {
            lemma_param_list(c, list, span);
        },
        Params::Numbered(highest) => {
            lemma_numbered_slots(c, 1, highest as nat);
        },
        _ => {},
    }
}

/// What [`lower::lower_default`] leaves.
proof fn lemma_default(c: Code, name: Seq<char>, default: Expr)
    ensures
        lower::lower_default(c, name, default) matches Ok(after) ==> counts::leaves(c, after, 0, 0),
{
    broadcast use {counts::group_counts, counts::group_effects};

    let slot = c.slot_at(name);
    let c = c.slot(name).emit(Insn::GetLocal(slot, 0));
    lemma_expr(c.emit(Insn::JumpUnlessUndef(0)), default);
}

/// What [`lower::lower_optional_defaults`] leaves.
proof fn lemma_optional_defaults(c: Code, params: Seq<OptionalParam>, from: nat)
    ensures
        lower::lower_optional_defaults(c, params, from) matches Ok(after) ==> counts::leaves(
            c,
            after,
            0,
            0,
        ),
    decreases params.len() - from,
{
    if from < params.len() {
        lemma_default(c, params[from as int].name@, params[from as int].default);
        if let Ok(c) = lower::lower_default(
            c,
            params[from as int].name@,
            params[from as int].default,
        ) {
            lemma_optional_defaults(c, params, from + 1);
        }
    }
}

/// What [`lower::lower_keyword_defaults`] leaves.
proof fn lemma_keyword_defaults(c: Code, params: Seq<KeywordParam>, from: nat)
    ensures
        lower::lower_keyword_defaults(c, params, from) matches Ok(after) ==> counts::leaves(
            c,
            after,
            0,
            0,
        ),
    decreases params.len() - from,
{
    if from < params.len() {
        match params[from as int].default {
            Some(default) => {
                lemma_default(c, params[from as int].name@, default);
                if let Ok(c) = lower::lower_default(c, params[from as int].name@, default) {
                    lemma_keyword_defaults(c, params, from + 1);
                }
            },
            None => {
                lemma_keyword_defaults(c, params, from + 1);
            },
        }
    }
}

/// What [`lower::lower_destructure`] leaves.
proof fn lemma_destructure(c: Code, multi: MultiTarget, slot: u16, span: Span)
    ensures
        lower::lower_destructure(c, multi, slot, span) matches Ok(after) ==> counts::leaves(
            c,
            after,
            0,
            0,
        ),
{
    broadcast use {counts::group_counts, counts::group_effects};

    lemma_prepared(c, multi, Seq::empty());
    if let Ok((c, places)) = lower::lower_prepared(c, multi, Seq::empty()) {
        let c = c.push_const("Array"@).emit(Insn::GetLocal(slot, 0)).send(
            "__masgn_array__"@,
            1,
            false,
        );
        lemma_spread(c, multi, places, 0, span);
    }
}

/// What [`lower::lower_taken_apart`] leaves.
proof fn lemma_taken_apart(c: Code, param: RequiredParam, span: Span)
    ensures
        lower::lower_taken_apart(c, param, span) matches Ok(after) ==> counts::leaves(
            c,
            after,
            0,
            0,
        ),
{
    broadcast use {counts::group_heads, counts::group_counts};

    if let RequiredParam::Destructure(multi) = param {
        let names = lower::bound_names(*multi, Seq::empty());
        if names.len() > 0 {
            lemma_destructure(c.slot(names[0]), *multi, c.slot_at(names[0]), span);
        }
    }
}

/// What [`lower::lower_last`] leaves.
proof fn lemma_last(c: Code, list: ParamList, span: Span)
    ensures
        lower::lower_last(c, list, span) matches Ok(after) ==> counts::leaves(c, after, 0, 0),
{
    if list.posts@.len() > 0 {
        lemma_taken_apart(c, list.posts@[list.posts@.len() - 1], span);
    } else if list.required@.len() > 0 {
        lemma_taken_apart(c, list.required@[list.required@.len() - 1], span);
    }
}

/// What [`lower::lower_defaults`] leaves.
proof fn lemma_defaults(c: Code, params: Params, span: Span)
    ensures
        lower::lower_defaults(c, params, span) matches Ok(after) ==> counts::leaves(c, after, 0, 0),
{
    broadcast use {counts::group_counts, counts::group_effects};

    if let Params::Explicit(list) = params {
        let c = lower::gathered(c);
        lemma_last(c, list, span);
        if let Ok(c) = lower::lower_last(c, list, span) {
            lemma_optional_defaults(c, list.optional@, 0);
            if let Ok(c) = lower::lower_optional_defaults(c, list.optional@, 0) {
                lemma_keyword_defaults(c, list.keywords@, 0);
            }
        }
    }
}

// ---------------------------------------------------------------------------
// Laws
// ---------------------------------------------------------------------------

/// An expression leaves one operand more than there were, whatever it is.
pub proof fn law_an_expression_leaves_one_operand(c: Code, expr: Expr)
    requires
        counts::level(c),
    ensures
        lower::lower_expr(c, expr) matches Ok(after) ==> {
            &&& counts::level(after)
            &&& counts::fits(after) ==> after.depth == c.depth + 1
        },
{
    lemma_expr(c, expr);
}

/// Statements leave the value of the last where it is wanted, and nothing
/// where it is not.
pub proof fn law_statements_leave_one_operand_or_none(c: Code, body: Seq<Expr>, keep: bool)
    requires
        counts::level(c),
    ensures
        lower::lower_body(c, body, 0, keep) matches Ok(after) ==> {
            &&& counts::level(after)
            &&& counts::fits(after) ==> after.depth == c.depth + counts::one_if(keep)
        },
{
    lemma_body(c, body, 0, keep);
}

/// Two branches that start at one depth end at one depth.
pub proof fn law_branches_meet_at_one_depth(
    one: Code,
    other: Code,
    first: Seq<Expr>,
    second: Seq<Expr>,
)
    requires
        counts::level(one),
        counts::level(other),
        one.depth == other.depth,
    ensures
        lower::lower_body(one, first, 0, true) matches Ok(a) ==> (lower::lower_body(
            other,
            second,
            0,
            true,
        ) matches Ok(b) ==> (counts::fits(a) && counts::fits(b) ==> a.depth == b.depth)),
{
    lemma_body(one, first, 0, true);
    lemma_body(other, second, 0, true);
}

/// A pattern takes its subject and leaves whether it matched.
pub proof fn law_a_pattern_leaves_its_answer(c: Code, pattern: Expr)
    requires
        counts::level(c),
        c.depth > 0,
    ensures
        lower::lower_pattern(c, pattern) matches Ok(after) ==> {
            &&& counts::level(after)
            &&& counts::fits(after) ==> after.depth == c.depth
        },
{
    lemma_pattern(c, pattern);
}

/// The code of a unit leaves one operand: what its last instruction returns.
pub proof fn law_a_unit_leaves_what_it_returns(
    name: Seq<char>,
    locals: Seq<Seq<char>>,
    body: Seq<Expr>,
)
    ensures
        lower::lower_body(code::fresh(name, locals), body, 0, true) matches Ok(after) ==> (counts::fits(
            after,
        ) ==> after.depth == 1),
{
    reveal(code::fresh);
    lemma_body(code::fresh(name, locals), body, 0, true);
}

/// The code of a method or a block leaves one operand, whatever its parameters
/// do first.
pub proof fn law_a_body_leaves_what_it_returns(
    parent: Code,
    name: Seq<char>,
    params: Params,
    locals: Seq<Seq<char>>,
    barrier: bool,
    span: Span,
    body: Seq<Expr>,
)
    ensures
        lower::child_head(parent, name, params, locals, barrier, span) matches Ok(head) ==> (
        lower::lower_body(head, body, 0, true) matches Ok(after) ==> (counts::fits(after)
            ==> after.depth == 1)),
{
    broadcast use counts::group_heads;

    reveal(code::fresh);
    reveal(code::nested);
    let fresh = code::nested(name, locals, parent, barrier);
    lemma_params(fresh, params, span);
    if let Ok((c, spec)) = lower::lower_params(fresh, params, span) {
        let c = if barrier {
            c.with_zsuper(lower::zsuper_of(spec, lower::keyword_params(params)))
        } else {
            c
        };
        let c = c.with_params(spec);
        lemma_defaults(c, params, span);
        if let Ok(head) = lower::lower_defaults(c, params, span) {
            lemma_body(head, body, 0, true);
        }
    }
}

/// The room a unit asks for is never less than what is on the stack after an
/// instruction, and never shrinks.
pub proof fn law_the_room_covers_every_push(c: Code, insn: Insn)
    ensures
        c.emit(insn).depth <= c.emit(insn).max_stack,
        c.max_stack <= c.emit(insn).max_stack,
{
    reveal(Code::emit);
}

} // verus!
