//! What each construct lowers to.
//!
//! Each function here takes the code so far and says what the code is once a
//! construct has been lowered onto it, or why it is refused.

use vstd::prelude::*;
use vstd::utf8;

use crate::ast::{
    Alias, ArrayPattern, Assign, AssignOp, Begin, BlockArg, Call, CapturePattern, Case,
    CaseBranches, Class, ConstPath, Def, Expr, ExprKind, FindPattern, For, Guard, HashEntry,
    HashEntryKind, HashLit, HashPattern, If, InClause, IntValue, KeywordParam, KeywordRest, Logical,
    LogicalOp, MatchPattern, Module, MultiTarget, OptionalParam, ParamList, Params, PatternRest,
    RangeLit, RegexpLit, RequiredParam, Rescue, RescueMod, SingletonClass, Span, StrPart, Super,
    Target, TargetKind, VarRef, WhenClause, While,
};
use crate::bytecode;
use crate::bytecode::{
    BinOp, BlockRef, CatchEntry, CatchKind, ClassDef, ConstScope, DefKind, Insn, Keyword, MatchRef,
    Optional,
};
use crate::compile::code;
use crate::compile::code::{
    Code, Jump, LiteralModel, Lowered, ParamModel, Retry, SiteModel, Unsupported,
    ZsuperModel,
};
use crate::compile::names;
use crate::text;
use crate::value;

verus! {

/// The name of the implicit block parameter's slot.
pub const IT: &'static str = "it";

/// The slot a `for` body is handed each element in.
pub const FOR_ELEMENT: &'static str = "%for";

/// `$!`, with the sigil.
pub const ERRINFO: &'static str = "$!";

// ---------------------------------------------------------------------------
// Small things
// ---------------------------------------------------------------------------

/// A number, one higher.
pub open spec fn above(n: nat) -> nat {
    code::shifted(n, 1)
}

/// A number, one lower.
pub open spec fn below(n: nat) -> nat {
    code::shifted(n, -1)
}

/// A count of arguments, one higher.
pub open spec fn more(n: u16) -> u16 {
    (n + 1) as u16
}

/// The operator with a name.
pub open spec fn operator(name: Seq<char>) -> Option<BinOp> {
    if exists|op: BinOp| #[trigger] op.text() == name {
        Some(choose|op: BinOp| #[trigger] op.text() == name)
    } else {
        None
    }
}

/// A word of the language, pushed as a frozen string.
pub open spec fn push_word(c: Code, word: &'static str) -> Code {
    c.push_literal(LiteralModel::FrozenStr(utf8::encode_utf8(word@)))
}

/// A protected range.
pub open spec fn protected(
    kind: CatchKind,
    start: nat,
    end: nat,
    target: nat,
    depth: nat,
) -> CatchEntry {
    CatchEntry {
        kind,
        start: start as u32,
        end: end as u32,
        target: target as u32,
        stack_depth: depth as u32,
    }
}

// ---------------------------------------------------------------------------
// Locals
// ---------------------------------------------------------------------------

/// The place of the environment that the language counts as the `depth`th,
/// from some place on.
pub open spec fn nth_visible(synthetic: Seq<bool>, from: nat, depth: nat) -> Option<nat>
    decreases synthetic.len() - from,
{
    if from >= synthetic.len() {
        None
    } else if synthetic[from as int] {
        nth_visible(synthetic, from + 1, depth)
    } else if depth == 0 {
        Some(from)
    } else {
        nth_visible(synthetic, from + 1, (depth - 1) as nat)
    }
}

/// A depth that counts the scopes of the language, as one that counts
/// environments.
pub open spec fn real_depth(c: Code, name: Seq<char>, depth: u32) -> Option<nat> {
    if !c.env_synthetic.contains(true) {
        Some(depth as nat)
    } else if c.env_synthetic[0] && depth == 0 && code::place_of(c.locals, name) < c.locals.len() {
        Some(0)
    } else {
        nth_visible(c.env_synthetic, 0, depth as nat)
    }
}

/// Why a local is not found.
pub open spec fn unresolved<T>(c: Code, span: Span) -> Result<T, Unsupported> {
    if c.flattened {
        code::refused("a local variable from a block the harness did not run", span)
    } else {
        code::refused("a local variable from an enclosing scope", span)
    }
}

/// The slot of a local, with the environments up to it.
pub open spec fn local_slot(c: Code, name: Seq<char>, depth: u32, span: Span) -> Result<
    (Code, u16, u16),
    Unsupported,
> {
    match real_depth(c, name, depth) {
        None => code::refused("a local variable from an enclosing scope", span),
        Some(whole) => if whole == 0 {
            Ok((c.slot(name), c.slot_at(name), 0))
        } else {
            let up = if c.flattened && whole > c.outer.len() {
                c.outer.len()
            } else {
                whole
            };
            if up == 0 {
                let place = code::place_of(c.locals, name);
                if place < c.locals.len() {
                    Ok((c, place as u16, 0))
                } else {
                    unresolved(c, span)
                }
            } else if up > c.outer.len() {
                unresolved(c, span)
            } else {
                let scope = c.outer[up - 1];
                let place = code::place_of(scope, name);
                if place < scope.len() {
                    Ok((c, place as u16, up as u16))
                } else {
                    unresolved(c, span)
                }
            }
        },
    }
}

/// A read of a local.
pub open spec fn read_local(c: Code, name: Seq<char>, depth: u32, span: Span) -> Lowered {
    match local_slot(c, name, depth, span) {
        Ok((c, slot, up)) => Ok(c.emit(Insn::GetLocal(slot, up))),
        Err(u) => Err(u),
    }
}

/// A write of what is on top to a local.
pub open spec fn write_local(c: Code, name: Seq<char>, depth: u32, span: Span) -> Lowered {
    match local_slot(c, name, depth, span) {
        Ok((c, slot, up)) => Ok(c.emit(Insn::SetLocal(slot, up))),
        Err(u) => Err(u),
    }
}

/// A variable.
pub open spec fn lower_var(c: Code, var: VarRef, span: Span) -> Lowered {
    match var {
        VarRef::Local { name, depth } => read_local(c, name@, depth, span),
        VarRef::Instance(name) => Ok(c.symbol(name@).emit(Insn::GetIvar(c.symbol_at(name@)))),
        VarRef::Class(name) => Ok(c.symbol(name@).emit(Insn::GetCvar(c.symbol_at(name@)))),
        VarRef::Global(name) => if name@ == ERRINFO@ {
            Ok(c.emit(Insn::Errinfo))
        } else {
            match names::match_part(name@) {
                Some(which) => Ok(c.emit(Insn::LastMatch(which))),
                None => Ok(c.symbol(name@).emit(Insn::GetGlobal(c.symbol_at(name@)))),
            }
        },
        VarRef::Const(name) => Ok(c.push_const(name@)),
        VarRef::It => Ok(c.slot(IT@).emit(Insn::GetLocal(c.slot_at(IT@), 0))),
        VarRef::BackRef(name) => match names::match_part(name@) {
            Some(which) => Ok(c.emit(Insn::LastMatch(which))),
            None => code::refused("this regexp back-reference", span),
        },
        VarRef::NumberedRef(n) => if n > u16::MAX {
            code::refused("a capture group number this wide", span)
        } else {
            Ok(c.emit(Insn::LastMatch(MatchRef::Group(n as u16))))
        },
    }
}

// ---------------------------------------------------------------------------
// Places to assign to
// ---------------------------------------------------------------------------

/// Where an assignment writes.
#[verifier::ext_equal]
pub enum Place {
    /// A slot, with the environments up to it.
    Local(u16, u16),
    Ivar(u32),
    Global(u32),
    /// A pair of calls, on what was put away in hidden locals: the receiver
    /// and the arguments are evaluated once.
    Send { receiver: u16, args: Seq<u16>, get: Seq<char> },
}

/// Several locals of this scope, pushed.
pub open spec fn push_locals(c: Code, slots: Seq<u16>, from: nat) -> Code
    decreases slots.len() - from,
{
    if from >= slots.len() {
        c
    } else {
        push_locals(c.emit(Insn::GetLocal(slots[from as int], 0)), slots, from + 1)
    }
}

/// A read of a place.
pub open spec fn read_place(c: Code, place: Place) -> Code {
    match place {
        Place::Local(slot, up) => c.emit(Insn::GetLocal(slot, up)),
        Place::Ivar(symbol) => c.emit(Insn::GetIvar(symbol)),
        Place::Global(symbol) => c.emit(Insn::GetGlobal(symbol)),
        Place::Send { receiver, args, get } => push_locals(
            c.emit(Insn::GetLocal(receiver, 0)),
            args,
            0,
        ).send(get, args.len() as u16, false),
    }
}

/// A write of what is on top to a place.
pub open spec fn write_place(c: Code, place: Place) -> Code {
    match place {
        Place::Local(slot, up) => c.emit(Insn::SetLocal(slot, up)),
        Place::Ivar(symbol) => c.emit(Insn::SetIvar(symbol)),
        Place::Global(symbol) => c.emit(Insn::SetGlobal(symbol)),
        Place::Send { receiver, args, get } => {
            let name = code::hidden("%val"@, c.here());
            let parked = c.slot_at(name);
            let c = c.slot(name).emit(Insn::SetLocal(parked, 0)).emit(
                Insn::GetLocal(receiver, 0),
            );
            push_locals(c, args, 0).emit(Insn::GetLocal(parked, 0)).send(
                get + "="@,
                more(args.len() as u16),
                false,
            ).emit(Insn::Pop)
        },
    }
}

/// An expression, put away in a hidden local.
pub open spec fn lower_parked(c: Code, expr: Expr) -> Result<(Code, u16), Unsupported>
    decreases expr, 1nat,
{
    match lower_expr(c, expr) {
        Ok(c) => {
            let name = code::hidden("%idx"@, c.here());
            Ok((c.slot(name).emit(Insn::SetLocal(c.slot_at(name), 0)), c.slot_at(name)))
        },
        Err(u) => Err(u),
    }
}

/// The arguments of an index, put away.
pub open spec fn lower_parked_args(
    c: Code,
    args: Seq<Expr>,
    from: nat,
    slots: Seq<u16>,
    span: Span,
) -> Result<(Code, Seq<u16>), Unsupported>
    decreases args, args.len() - from,
{
    if from >= args.len() {
        Ok((c, slots))
    } else {
        let arg = args[from as int];
        if arg.kind is Splat || arg.kind is Hash {
            code::refused("a splat or keyword in an index target", span)
        } else {
            match lower_parked(c, arg) {
                Ok((c, slot)) => lower_parked_args(c, args, from + 1, slots.push(slot), span),
                Err(u) => Err(u),
            }
        }
    }
}

/// The place a target names, made ready to be written.
pub open spec fn lower_place(c: Code, target: Target) -> Result<(Code, Place), Unsupported>
    decreases target, 1nat,
{
    match target.kind {
        TargetKind::Var(var) => match var {
            VarRef::Local { name, depth } => match local_slot(c, name@, depth, target.span) {
                Ok((c, slot, up)) => Ok((c, Place::Local(slot, up))),
                Err(u) => Err(u),
            },
            VarRef::Instance(name) => Ok((c.symbol(name@), Place::Ivar(c.symbol_at(name@)))),
            VarRef::Class(_) => code::refused("assigning a class variable", target.span),
            VarRef::Global(name) => if name@ == ERRINFO@ {
                code::refused("assigning `$!`, which Ruby rejects", target.span)
            } else if names::match_part(name@) is Some {
                code::refused("assigning this regexp special variable", target.span)
            } else {
                Ok((c.symbol(name@), Place::Global(c.symbol_at(name@))))
            },
            _ => code::refused("assigning a constant", target.span),
        },
        TargetKind::ConstPath(_) => code::refused("assigning a constant", target.span),
        TargetKind::Call(call) => if call.safe_nav {
            code::refused("a safe-navigation call", target.span)
        } else {
            match lower_parked(c, call.receiver) {
                Ok((c, receiver)) => Ok(
                    (c, Place::Send { receiver, args: Seq::empty(), get: call.name@ }),
                ),
                Err(u) => Err(u),
            }
        },
        TargetKind::Index(index) => if index.block {
            code::refused("a block on an index target", target.span)
        } else if index.args@.len() >= u16::MAX {
            code::refused("an index target this wide", target.span)
        } else {
            match lower_parked(c, index.receiver) {
                Ok((c, receiver)) => match lower_parked_args(
                    c,
                    index.args@,
                    0,
                    Seq::empty(),
                    target.span,
                ) {
                    Ok((c, args)) => Ok((c, Place::Send { receiver, args, get: "[]"@ })),
                    Err(u) => Err(u),
                },
                Err(u) => Err(u),
            }
        },
        TargetKind::Multi(_) | TargetKind::Splat(_) => code::refused(
            "a multiple assignment",
            target.span,
        ),
    }
}

/// A path to a constant: its symbol, and how it is looked up.
pub open spec fn lower_const_path(c: Code, path: ConstPath, span: Span) -> Result<
    (Code, u32, ConstScope),
    Unsupported,
>
    decreases path, 0nat,
{
    match path.name {
        None => code::refused("a syntax error", span),
        Some(name) => match path.parent {
            Some(parent) => match lower_expr(c, parent) {
                Ok(c) => Ok((c.symbol(name@), c.symbol_at(name@), ConstScope::Qualified)),
                Err(u) => Err(u),
            },
            None => Ok((c.symbol(name@), c.symbol_at(name@), ConstScope::Top)),
        },
    }
}

/// Whether a target is a constant.
pub open spec fn names_constant(target: Target) -> bool {
    target.kind is ConstPath || (target.kind matches TargetKind::Var(var) && var is Const)
}

/// A target that is a constant.
pub open spec fn lower_const_target(c: Code, target: Target) -> Result<
    (Code, u32, ConstScope),
    Unsupported,
>
    decreases target, 1nat,
{
    match target.kind {
        TargetKind::Var(VarRef::Const(name)) => Ok(
            (c.symbol(name@), c.symbol_at(name@), ConstScope::Lexical),
        ),
        TargetKind::ConstPath(path) => lower_const_path(c, *path, target.span),
        _ => code::refused("a dynamic class name", target.span),
    }
}

// ---------------------------------------------------------------------------
// Assignment
// ---------------------------------------------------------------------------

/// An assignment.
pub open spec fn lower_assign(c: Code, assign: Assign, span: Span) -> Lowered
    decreases assign, 1nat,
{
    if names_constant(assign.target) {
        match lower_const_target(c, assign.target) {
            Ok((c, name, how)) => if !(assign.op is Assign) {
                code::refused("a compound constant assignment", span)
            } else {
                match lower_expr(c, assign.value) {
                    Ok(c) => Ok(c.emit(Insn::SetConst(name, how))),
                    Err(u) => Err(u),
                }
            },
            Err(u) => Err(u),
        }
    } else if assign.target.kind is Multi {
        if !(assign.op is Assign) {
            code::refused("a compound multiple assignment", span)
        } else {
            lower_multi_assign(c, assign, span)
        }
    } else {
        match lower_place(c, assign.target) {
            Ok((c, place)) => match assign.op {
                AssignOp::Assign => match lower_expr(c, assign.value) {
                    Ok(c) => Ok(write_place(c.emit(Insn::Dup), place)),
                    Err(u) => Err(u),
                },
                AssignOp::Binary(op) => match operator(op@) {
                    None => code::refused("this compound assignment operator", span),
                    Some(op) => match lower_expr(read_place(c, place), assign.value) {
                        Ok(c) => Ok(
                            write_place(c.emit(Insn::BinOp(op)).emit(Insn::Dup), place),
                        ),
                        Err(u) => Err(u),
                    },
                },
                AssignOp::Or | AssignOp::And => {
                    let keep = if assign.op is Or {
                        Jump::IfKeep
                    } else {
                        Jump::UnlessKeep
                    };
                    let c = read_place(c, place);
                    let skip = c.here();
                    match lower_expr(c.emit(keep.over(0)).emit(Insn::Pop), assign.value) {
                        Ok(c) => Ok(
                            write_place(c.emit(Insn::Dup), place).patch_here(skip),
                        ),
                        Err(u) => Err(u),
                    }
                },
            },
            Err(u) => Err(u),
        }
    }
}

/// The widest multiple assignment and the widest array pattern.
pub const WIDEST: u64 = 0x1FFF_FFFF_FFFF_FFFF;

/// What is on top, as an array that a multiple assignment takes apart.
pub open spec fn masgn_array(c: Code) -> Code {
    let name = code::hidden("%masgn"@, c.here());
    let slot = c.slot_at(name);
    c.slot(name).emit(Insn::SetLocal(slot, 0)).push_const("Array"@).emit(
        Insn::GetLocal(slot, 0),
    ).send("__masgn_array__"@, 1, false)
}

/// A multiple assignment. Its value is the right-hand side.
pub open spec fn lower_multi_assign(c: Code, assign: Assign, span: Span) -> Lowered
    decreases assign, 0nat,
{
    match assign.target.kind {
        TargetKind::Multi(multi) => match lower_prepared(c, *multi, Seq::empty()) {
            Ok((c, places)) => match lower_expr(c, assign.value) {
                Ok(c) => {
                    let c = c.emit(Insn::Dup);
                    let c = if assign.value.kind is Array {
                        c
                    } else {
                        masgn_array(c)
                    };
                    match lower_spread(c, *multi, places, 0, span) {
                        Ok((c, _)) => Ok(c.emit(Insn::Pop)),
                        Err(u) => Err(u),
                    }
                },
                Err(u) => Err(u),
            },
            Err(u) => Err(u),
        },
        _ => Ok(c),
    }
}

/// The places of a multiple assignment, made ready in the order they are
/// written; `None` for a constant or a group.
pub open spec fn lower_prepared(c: Code, multi: MultiTarget, places: Seq<Option<Place>>) -> Result<
    (Code, Seq<Option<Place>>),
    Unsupported,
>
    decreases multi, 1nat,
{
    match lower_prepared_all(c, multi.lefts@, 0, places) {
        Ok((c, places)) => {
            let middle = match multi.rest {
                Some(rest) => match rest.kind {
                    TargetKind::Splat(Some(inner)) => lower_prepared_one(c, *inner, places),
                    TargetKind::Splat(None) => Ok((c, places)),
                    _ => lower_prepared_one(c, rest, places),
                },
                None => Ok((c, places)),
            };
            match middle {
                Ok((c, places)) => lower_prepared_all(c, multi.rights@, 0, places),
                Err(u) => Err(u),
            }
        },
        Err(u) => Err(u),
    }
}

/// Several targets, made ready.
pub open spec fn lower_prepared_all(
    c: Code,
    targets: Seq<Target>,
    from: nat,
    places: Seq<Option<Place>>,
) -> Result<(Code, Seq<Option<Place>>), Unsupported>
    decreases targets, targets.len() - from,
{
    if from >= targets.len() {
        Ok((c, places))
    } else {
        match lower_prepared_one(c, targets[from as int], places) {
            Ok((c, places)) => lower_prepared_all(c, targets, from + 1, places),
            Err(u) => Err(u),
        }
    }
}

/// A target, made ready. A constant has nothing to evaluate first.
pub open spec fn lower_prepared_one(
    c: Code,
    target: Target,
    places: Seq<Option<Place>>,
) -> Result<(Code, Seq<Option<Place>>), Unsupported>
    decreases target, 2nat,
{
    if names_constant(target) {
        Ok((c, places.push(None)))
    } else {
        match target.kind {
            TargetKind::Multi(inner) => lower_prepared(c, *inner, places.push(None)),
            _ => match lower_place(c, target) {
                Ok((c, place)) => Ok((c, places.push(Some(place)))),
                Err(u) => Err(u),
            },
        }
    }
}

/// The array on top, taken apart into the targets. What comes back with the
/// code is how many of the places have been used.
pub open spec fn lower_spread(
    c: Code,
    multi: MultiTarget,
    places: Seq<Option<Place>>,
    used: nat,
    span: Span,
) -> Result<(Code, nat), Unsupported>
    decreases multi, 1nat,
{
    if multi.lefts@.len() > WIDEST || multi.rights@.len() > WIDEST {
        code::refused("a multiple assignment this wide", span)
    } else {
        let c = c.emit(Insn::Dup).emit(Insn::PushInt(multi.lefts@.len() as i64)).emit(
            if multi.rest is Some {
                Insn::PushTrue
            } else {
                Insn::PushFalse
            },
        ).emit(Insn::PushInt(multi.rights@.len() as i64)).send("__masgn_spread__"@, 3, false);
        match lower_spread_all(c, multi.lefts@, 0, 0, places, used, span) {
            Ok((c, used)) => {
                let lefts = multi.lefts@.len() as int;
                let middle = match multi.rest {
                    Some(rest) => match rest.kind {
                        TargetKind::Splat(Some(inner)) => lower_spread_one(
                            c,
                            lefts,
                            *inner,
                            places,
                            used,
                            span,
                        ),
                        TargetKind::Splat(None) => Ok((c, used)),
                        _ => lower_spread_one(c, lefts, rest, places, used, span),
                    },
                    None => Ok((c, used)),
                };
                match middle {
                    Ok((c, used)) => match lower_spread_all(
                        c,
                        multi.rights@,
                        0,
                        if multi.rest is Some {
                            lefts + 1
                        } else {
                            lefts
                        },
                        places,
                        used,
                        span,
                    ) {
                        Ok((c, used)) => Ok((c.emit(Insn::Pop), used)),
                        Err(u) => Err(u),
                    },
                    Err(u) => Err(u),
                }
            },
            Err(u) => Err(u),
        }
    }
}

/// Several targets, each from its place in the array on top.
pub open spec fn lower_spread_all(
    c: Code,
    targets: Seq<Target>,
    from: nat,
    index: int,
    places: Seq<Option<Place>>,
    used: nat,
    span: Span,
) -> Result<(Code, nat), Unsupported>
    decreases targets, targets.len() - from,
{
    if from >= targets.len() {
        Ok((c, used))
    } else {
        match lower_spread_one(c, index, targets[from as int], places, used, span) {
            Ok((c, used)) => lower_spread_all(
                c,
                targets,
                from + 1,
                index + 1,
                places,
                used,
                span,
            ),
            Err(u) => Err(u),
        }
    }
}

/// A target, from its place in the array on top.
pub open spec fn lower_spread_one(
    c: Code,
    index: int,
    target: Target,
    places: Seq<Option<Place>>,
    used: nat,
    span: Span,
) -> Result<(Code, nat), Unsupported>
    decreases target, 2nat,
{
    let c = c.emit(Insn::Dup).emit(Insn::PushInt(index as i64)).send("[]"@, 1, false);
    if used >= places.len() {
        code::refused("a multiple assignment", span)
    } else if names_constant(target) {
        match lower_const_target(c, target) {
            Ok((c, name, how)) => Ok(
                (c.emit(Insn::SetConst(name, how)).emit(Insn::Pop), used + 1),
            ),
            Err(u) => Err(u),
        }
    } else {
        match target.kind {
            TargetKind::Multi(inner) => match lower_spread(
                masgn_array(c),
                *inner,
                places,
                used + 1,
                span,
            ) {
                Ok((c, used)) => Ok((c.emit(Insn::Pop), used)),
                Err(u) => Err(u),
            },
            _ => match places[used as int] {
                Some(place) => Ok((write_place(c, place), used + 1)),
                None => code::refused("a multiple assignment", span),
            },
        }
    }
}

// ---------------------------------------------------------------------------
// Expressions
// ---------------------------------------------------------------------------

/// Statements, one behind the other. The value of the last is kept, or none.
pub open spec fn lower_body(c: Code, body: Seq<Expr>, from: nat, keep: bool) -> Lowered
    decreases body, body.len() - from,
{
    if body.len() == 0 {
        Ok(
            if keep {
                c.emit(Insn::PushNil)
            } else {
                c
            },
        )
    } else if from >= body.len() {
        Ok(c)
    } else {
        match lower_expr(c, body[from as int]) {
            Ok(c) => if from + 1 == body.len() {
                Ok(
                    if keep {
                        c
                    } else {
                        c.emit(Insn::Pop)
                    },
                )
            } else {
                lower_body(c.emit(Insn::Pop), body, from + 1, keep)
            },
            Err(u) => Err(u),
        }
    }
}

/// Statements, or `nil` where there are none.
pub open spec fn lower_body_or_nil(c: Code, body: Option<Vec<Expr>>) -> Lowered
    decreases body, 0nat,
{
    match body {
        Some(body) => lower_body(c, body@, 0, true),
        None => Ok(c.emit(Insn::PushNil)),
    }
}

/// An expression, or `nil` where there is none.
pub open spec fn lower_or_nil(c: Code, expr: Option<Expr>) -> Lowered
    decreases expr, 0nat,
{
    match expr {
        Some(expr) => lower_expr(c, expr),
        None => Ok(c.emit(Insn::PushNil)),
    }
}

/// The value of a `break`, a `next` or a `return`.
pub open spec fn lower_value(c: Code, value: Option<Box<Expr>>) -> Lowered
    decreases value, 0nat,
{
    match value {
        Some(value) => lower_expr(c, *value),
        None => Ok(c.emit(Insn::PushNil)),
    }
}

/// Several expressions, each value kept.
pub open spec fn lower_each(c: Code, exprs: Seq<Expr>, from: nat) -> Lowered
    decreases exprs, exprs.len() - from,
{
    if from >= exprs.len() {
        Ok(c)
    } else {
        match lower_expr(c, exprs[from as int]) {
            Ok(c) => lower_each(c, exprs, from + 1),
            Err(u) => Err(u),
        }
    }
}

/// An integer.
pub open spec fn lower_int(c: Code, number: IntValue, span: Span) -> Lowered {
    match number {
        IntValue::Small(n) => if value::fits_fixnum(n as int) {
            Ok(c.emit(Insn::PushInt(n)))
        } else {
            code::refused("an integer wider than a fixnum", span)
        },
        IntValue::Big(_) => code::refused("an integer wider than a fixnum", span),
    }
}

/// A double.
pub open spec fn float_literal(bits: u64) -> LiteralModel {
    if value::is_flonum(bits) {
        LiteralModel::Float(bits)
    } else {
        LiteralModel::BoxedFloat(bits)
    }
}

/// An expression. It leaves one value.
pub open spec fn lower_expr(c: Code, expr: Expr) -> Lowered
    decreases expr, 0nat,
{
    let span = expr.span;
    match expr.kind {
        ExprKind::Nil => Ok(c.emit(Insn::PushNil)),
        ExprKind::True => Ok(c.emit(Insn::PushTrue)),
        ExprKind::False => Ok(c.emit(Insn::PushFalse)),
        ExprKind::SelfExpr => Ok(c.emit(Insn::PushSelf)),
        ExprKind::SourceFile(path) => Ok(c.push_literal(LiteralModel::Str(path@))),
        ExprKind::SourceLine(line) => Ok(c.emit(Insn::PushInt(line as i64))),
        ExprKind::Int(number) => lower_int(c, number, span),
        ExprKind::Float(bits) => Ok(c.push_literal(float_literal(bits))),
        ExprKind::Str(parts) => if names::all_bytes(parts@) {
            Ok(c.push_literal(LiteralModel::Str(names::joined(parts@))))
        } else {
            lower_interpolated(c, parts@)
        },
        ExprKind::Regexp(regexp) => lower_regexp(c, regexp, span),
        ExprKind::Sym(parts) => if names::all_bytes(parts@) {
            let bytes = names::joined(parts@);
            if utf8::valid_utf8(bytes) {
                let name = utf8::decode_utf8(bytes);
                Ok(c.symbol(name).emit(Insn::PushSym(c.symbol_at(name))))
            } else {
                code::refused("a symbol that is not UTF-8", span)
            }
        } else {
            match lower_interpolated(c, parts@) {
                Ok(c) => Ok(c.emit(Insn::Intern)),
                Err(u) => Err(u),
            }
        },
        ExprKind::Array(elements) => lower_array(c, elements@, span),
        ExprKind::Hash(hash) => lower_hash(c, hash),
        ExprKind::Range(range) => lower_range(c, *range),
        ExprKind::Var(var) => lower_var(c, var, span),
        ExprKind::Alias(alias) => lower_alias(c, *alias, span),
        ExprKind::Undef(names) => lower_undef(c, names@, 0, span),
        ExprKind::Assign(assign) => lower_assign(c, *assign, span),
        ExprKind::If(node) => lower_if(c, *node),
        ExprKind::While(node) => lower_while(c, *node),
        ExprKind::For(node) => lower_for(c, *node, span),
        ExprKind::Case(node) => lower_case(c, *node, span),
        ExprKind::MatchPattern(node) => lower_match(c, *node),
        ExprKind::Logical(node) => lower_logical(c, *node),
        ExprKind::Parens(body) => lower_body(c, body@, 0, true),
        ExprKind::Call(call) => lower_call(c, *call, span),
        ExprKind::Begin(node) => if node.rescues@.len() == 0 && node.else_body is None
            && node.ensure_body is None {
            lower_body(c, node.body@, 0, true)
        } else {
            lower_begin(c, *node)
        },
        ExprKind::RescueMod(node) => lower_rescue_mod(c, *node),
        ExprKind::Retry => lower_retry(c, span),
        ExprKind::Redo => lower_redo(c, span),
        ExprKind::Break(value) => lower_jump_out(c, value, true, span),
        ExprKind::Next(value) => lower_jump_out(c, value, false, span),
        ExprKind::ConstPath(path) => match lower_const_path(c, *path, span) {
            Ok((c, symbol, how)) => Ok(c.emit(Insn::GetConst(symbol, how))),
            Err(u) => Err(u),
        },
        ExprKind::Class(class) => lower_class(c, *class),
        ExprKind::Module(module) => lower_module(c, *module),
        ExprKind::SingletonClass(node) => lower_singleton(c, *node),
        ExprKind::Defined(inner) => lower_swallowing(c, *inner, span),
        ExprKind::Def(def) => lower_def(c, *def, span),
        ExprKind::Yield(args) => match lower_arguments(c, "yield"@, args@, false) {
            Ok((c, site)) => Ok(
                c.push_site(SiteModel { implicit_self: true, ..site }).emit(
                    Insn::Yield(c.call_sites.len() as u32),
                ),
            ),
            Err(u) => Err(u),
        },
        ExprKind::Super(node) => lower_super(c, *node, span),
        ExprKind::Lambda(block) => match child_head(
            c,
            "lambda in <compiled>"@,
            block.params,
            bytecode::pool(block.locals@),
            false,
            span,
        ) {
            Ok(head) => match lower_body(head, block.body@, 0, true) {
                Ok(body) => Ok(
                    c.push_child(body.finish()).emit(
                        Insn::MakeProc(c.children.len() as u32, true),
                    ),
                ),
                Err(u) => Err(u),
            },
            Err(u) => Err(u),
        },
        ExprKind::Return(value) => match lower_value(c, value) {
            Ok(c) => Ok(c.emit(Insn::Return)),
            Err(u) => Err(u),
        },
        _ => code::refused(names::node_text(expr.kind), span),
    }
}

/// A string with interpolation: its pieces, added up.
pub open spec fn lower_interpolated(c: Code, parts: Seq<StrPart>) -> Lowered
    decreases parts, parts.len() + 1,
{
    lower_parts(c.push_literal(LiteralModel::Str(Seq::empty())), parts, 0)
}

/// Each piece of a string, added to what is there.
pub open spec fn lower_parts(c: Code, parts: Seq<StrPart>, from: nat) -> Lowered
    decreases parts, parts.len() - from,
{
    if from >= parts.len() {
        Ok(c)
    } else {
        match parts[from as int] {
            StrPart::Bytes(bytes) => lower_parts(
                c.push_literal(LiteralModel::Str(bytes@)).send("+"@, 1, false),
                parts,
                from + 1,
            ),
            StrPart::Interp(body) => match lower_body(c, body@, 0, true) {
                Ok(c) => lower_parts(
                    c.send("to_s"@, 0, false).send("+"@, 1, false),
                    parts,
                    from + 1,
                ),
                Err(u) => Err(u),
            },
        }
    }
}

/// A pattern.
pub open spec fn lower_regexp(c: Code, regexp: RegexpLit, span: Span) -> Lowered
    decreases regexp, 0nat,
{
    let options = names::options_of(regexp.flags) as i64;
    if regexp.flags.encoding {
        code::refused("a regexp encoding modifier", span)
    } else if names::all_bytes(regexp.parts@) {
        let bytes = names::joined(regexp.parts@);
        if utf8::valid_utf8(bytes) {
            Ok(
                c.push_literal(
                    LiteralModel::Regexp { source: utf8::decode_utf8(bytes), options },
                ),
            )
        } else {
            code::refused("a regexp source that is not UTF-8", span)
        }
    } else {
        match lower_interpolated(c, regexp.parts@) {
            Ok(c) => if regexp.flags.once {
                Ok(
                    c.another_once().emit(
                        Insn::NewRegexpOnce(options, c.once_regexps),
                    ),
                )
            } else {
                Ok(c.emit(Insn::NewRegexp(options)))
            },
            Err(u) => Err(u),
        }
    }
}

/// Whether one of several expressions is splatted.
pub open spec fn has_splat(exprs: Seq<Expr>) -> bool {
    exists|i: int| 0 <= i < exprs.len() && (#[trigger] exprs[i]).kind is Splat
}

/// An array.
pub open spec fn lower_array(c: Code, elements: Seq<Expr>, span: Span) -> Lowered
    decreases elements, elements.len() + 1,
{
    if has_splat(elements) {
        lower_splatted(c, elements, 0, false, 0)
    } else {
        match lower_each(c, elements, 0) {
            Ok(c) => if elements.len() > u32::MAX {
                code::refused("an array literal this large", span)
            } else {
                Ok(c.emit(Insn::NewArray(elements.len() as u32)))
            },
            Err(u) => Err(u),
        }
    }
}

/// The run of plain elements before a splat, joined to what there is.
pub open spec fn close_run(c: Code, open: bool, run: u32) -> Code {
    if run > 0 || !open {
        let c = c.emit(Insn::NewArray(run));
        if open {
            c.send("__concat_splat__"@, 1, false)
        } else {
            c
        }
    } else {
        c
    }
}

/// An array with splats in it: runs of plain elements, and the splats, joined.
pub open spec fn lower_splatted(
    c: Code,
    elements: Seq<Expr>,
    from: nat,
    open: bool,
    run: u32,
) -> Lowered
    decreases elements, elements.len() - from,
{
    if from >= elements.len() {
        Ok(close_run(c, open, run))
    } else {
        let element = elements[from as int];
        match element.kind {
            ExprKind::Splat(inner) => match inner {
                None => code::refused("an anonymous splat", element.span),
                Some(inner) => match lower_expr(close_run(c, open, run), *inner) {
                    Ok(c) => lower_splatted(
                        c.send("__concat_splat__"@, 1, false),
                        elements,
                        from + 1,
                        true,
                        0,
                    ),
                    Err(u) => Err(u),
                },
            },
            _ => match lower_expr(c, element) {
                Ok(c) => lower_splatted(c, elements, from + 1, open, (run + 1) as u32),
                Err(u) => Err(u),
            },
        }
    }
}

/// A hash.
pub open spec fn lower_hash(c: Code, hash: HashLit) -> Lowered
    decreases hash, 0nat,
{
    lower_entries(c.push_const("Hash"@).send("__literal__"@, 0, false), hash.entries@, 0)
}

/// Each entry of a hash, put into it.
pub open spec fn lower_entries(c: Code, entries: Seq<HashEntry>, from: nat) -> Lowered
    decreases entries, entries.len() - from,
{
    if from >= entries.len() {
        Ok(c)
    } else {
        match entries[from as int].kind {
            HashEntryKind::Pair { key, value } => match lower_expr(c.emit(Insn::Dup), key) {
                Ok(c) => match lower_expr(c, value) {
                    Ok(c) => lower_entries(
                        c.send("[]="@, 2, false).emit(Insn::Pop),
                        entries,
                        from + 1,
                    ),
                    Err(u) => Err(u),
                },
                Err(u) => Err(u),
            },
            HashEntryKind::Splat(Some(inner)) => match lower_expr(c.emit(Insn::Dup), inner) {
                Ok(c) => lower_entries(
                    c.send("__merge_literal__"@, 1, false).emit(Insn::Pop),
                    entries,
                    from + 1,
                ),
                Err(u) => Err(u),
            },
            HashEntryKind::Splat(None) => lower_entries(c, entries, from + 1),
        }
    }
}

/// A range.
pub open spec fn lower_range(c: Code, range: RangeLit) -> Lowered
    decreases range, 0nat,
{
    match lower_or_nil(c.push_const("Range"@), range.left) {
        Ok(c) => match lower_or_nil(c, range.right) {
            Ok(c) => Ok(
                c.emit(
                    if range.exclude_end {
                        Insn::PushTrue
                    } else {
                        Insn::PushFalse
                    },
                ).send("new"@, 3, false),
            ),
            Err(u) => Err(u),
        },
        Err(u) => Err(u),
    }
}

/// The name of a method, where it is written out.
pub open spec fn method_name(expr: Expr, span: Span) -> Result<Seq<char>, Unsupported> {
    match expr.kind {
        ExprKind::Sym(parts) => if !names::all_bytes(parts@) {
            code::refused("an interpolated method name here", span)
        } else if !utf8::valid_utf8(names::joined(parts@)) {
            code::refused("a method name that is not UTF-8", span)
        } else {
            Ok(utf8::decode_utf8(names::joined(parts@)))
        },
        _ => code::refused("a computed method name here", span),
    }
}

/// `alias`.
pub open spec fn lower_alias(c: Code, alias: Alias, span: Span) -> Lowered {
    if alias.global {
        code::refused("`alias` on a global variable", span)
    } else {
        match method_name(alias.new_name, span) {
            Ok(new) => match method_name(alias.old_name, span) {
                Ok(old_name) => {
                    let with_new = c.symbol(new);
                    Ok(
                        with_new.symbol(old_name).emit(
                            Insn::Alias(c.symbol_at(new), with_new.symbol_at(old_name)),
                        ).emit(Insn::PushNil),
                    )
                },
                Err(u) => Err(u),
            },
            Err(u) => Err(u),
        }
    }
}

/// `undef`.
pub open spec fn lower_undef(c: Code, names: Seq<Expr>, from: nat, span: Span) -> Lowered
    decreases names, names.len() - from,
{
    if from >= names.len() {
        Ok(c.emit(Insn::PushNil))
    } else {
        match method_name(names[from as int], span) {
            Ok(name) => lower_undef(
                c.symbol(name).emit(Insn::Undef(c.symbol_at(name))),
                names,
                from + 1,
                span,
            ),
            Err(u) => Err(u),
        }
    }
}

/// `if` and `unless`.
pub open spec fn lower_if(c: Code, node: If) -> Lowered
    decreases node, 0nat,
{
    match lower_expr(c, node.predicate) {
        Ok(c) => {
            let to_else = c.here();
            let c = c.emit(Insn::JumpUnless(0));
            let before = c.depth;
            let first = if node.unless {
                match node.else_body {
                    Some(body) => lower_body(c, body@, 0, true),
                    None => Ok(c.emit(Insn::PushNil)),
                }
            } else {
                lower_body(c, node.then_body@, 0, true)
            };
            match first {
                Ok(c) => {
                    let to_end = c.here();
                    let c = c.emit(Insn::Jump(0)).patch_here(to_else).at_depth(before);
                    let second = if node.unless {
                        lower_body(c, node.then_body@, 0, true)
                    } else {
                        match node.else_body {
                            Some(body) => lower_body(c, body@, 0, true),
                            None => Ok(c.emit(Insn::PushNil)),
                        }
                    };
                    match second {
                        Ok(c) => Ok(c.patch_here(to_end)),
                        Err(u) => Err(u),
                    }
                },
                Err(u) => Err(u),
            }
        },
        Err(u) => Err(u),
    }
}

/// `and` and `or`.
pub open spec fn lower_logical(c: Code, node: Logical) -> Lowered
    decreases node, 0nat,
{
    let keep = match node.op {
        LogicalOp::And => Jump::UnlessKeep,
        LogicalOp::Or => Jump::IfKeep,
    };
    match lower_expr(c, node.left) {
        Ok(c) => {
            let short = c.here();
            match lower_expr(c.emit(keep.over(0)).emit(Insn::Pop), node.right) {
                Ok(c) => Ok(c.patch_here(short)),
                Err(u) => Err(u),
            }
        },
        Err(u) => Err(u),
    }
}

// ---------------------------------------------------------------------------
// Loops
// ---------------------------------------------------------------------------

/// `while` and `until`. A loop that is not left by `break` is `nil`.
pub open spec fn lower_while(c: Code, node: While) -> Lowered
    decreases node, 1nat,
{
    let top = c.here();
    match lower_while_body(c.push_loop(), node, top) {
        Ok(c) => {
            let out = c.pop_loop().emit(Insn::PushNil);
            if c.loops.len() == 0 {
                Ok(out)
            } else {
                Ok(out.patch_all(c.loops.last().breaks, out.here()))
            }
        },
        Err(u) => Err(u),
    }
}

/// The test and the body of a loop.
pub open spec fn lower_while_body(c: Code, node: While, top: nat) -> Lowered
    decreases node, 0nat,
{
    if node.post {
        let body = c.here();
        match lower_body(c.redo_at(body), node.body@, 0, false) {
            Ok(c) => match lower_expr(c.next_at(c.here()), node.predicate) {
                Ok(c) => Ok(
                    c.emit(
                        if node.until {
                            Insn::JumpUnless(0)
                        } else {
                            Insn::JumpIf(0)
                        },
                    ).patch(c.here(), body),
                ),
                Err(u) => Err(u),
            },
            Err(u) => Err(u),
        }
    } else {
        match lower_expr(c, node.predicate) {
            Ok(c) => {
                let out = c.here();
                let c = c.emit(
                    if node.until {
                        Insn::JumpIf(0)
                    } else {
                        Insn::JumpUnless(0)
                    },
                );
                match lower_body(c.redo_at(c.here()), node.body@, 0, false) {
                    Ok(c) => Ok(
                        c.emit(Insn::Jump(0)).patch(c.here(), top).patch_here(out),
                    ),
                    Err(u) => Err(u),
                }
            },
            Err(u) => Err(u),
        }
    }
}

/// How many operands a jump has to drop.
pub open spec fn excess(depth: nat, base: usize) -> nat {
    if depth > base {
        (depth - base) as nat
    } else {
        0
    }
}

/// `break` and `next`.
pub open spec fn lower_jump_out(c: Code, value: Option<Box<Expr>>, is_break: bool, span: Span) -> Lowered
    decreases value, 1nat,
{
    if c.loops.len() == 0 {
        if c.scope_barrier {
            if is_break {
                code::refused("`break` outside a loop or block", span)
            } else {
                code::refused("`next` outside a loop or block", span)
            }
        } else {
            match lower_value(c, value) {
                Ok(c) => if is_break {
                    Ok(c.emit(Insn::Break))
                } else {
                    Ok(
                        c.emit(
                            if c.open_ensures == 0 {
                                Insn::Leave
                            } else {
                                Insn::LeaveThroughEnsure
                            },
                        ).emit(Insn::PushNil),
                    )
                },
                Err(u) => Err(u),
            }
        }
    } else {
        let inner = c.loops.last();
        let entry = c.depth;
        let c = c.pops(excess(entry, inner.base_depth));
        if is_break {
            match lower_value(c, value) {
                Ok(c) => {
                    let at = c.here();
                    let c = c.emit(c.goto_insn(inner.base_depth as nat, true));
                    let c = c.add_break(at);
                    Ok(c.at_depth(below(c.depth)).emit(Insn::PushNil).at_depth(above(entry)))
                },
                Err(u) => Err(u),
            }
        } else {
            let ready = match value {
                Some(value) => match lower_expr(c, *value) {
                    Ok(c) => Ok(c.emit(Insn::Pop)),
                    Err(u) => Err(u),
                },
                None => Ok(c),
            };
            match ready {
                Ok(c) => Ok(
                    c.emit(c.goto_insn(inner.base_depth as nat, false)).patch(
                        c.here(),
                        inner.next_target as nat,
                    ).emit(Insn::PushNil).at_depth(above(entry)),
                ),
                Err(u) => Err(u),
            }
        }
    }
}

/// A jump back to somewhere, with the operands above a depth dropped.
pub open spec fn back_to(c: Code, target: nat, base: usize) -> Code {
    let entry = c.depth;
    let c = c.pops(excess(entry, base));
    c.emit(c.goto_insn(base as nat, false)).patch(c.here(), target).emit(
        Insn::PushNil,
    ).at_depth(above(entry))
}

/// `redo`.
pub open spec fn lower_redo(c: Code, span: Span) -> Lowered {
    if c.loops.len() > 0 {
        Ok(back_to(c, c.loops.last().redo_target as nat, c.loops.last().base_depth))
    } else if !c.scope_barrier {
        Ok(back_to(c, 0, 0))
    } else {
        code::refused("`redo` outside a loop or block", span)
    }
}

/// `retry`.
pub open spec fn lower_retry(c: Code, span: Span) -> Lowered {
    if c.retries.len() == 0 {
        code::refused("`retry` outside a rescue clause", span)
    } else {
        Ok(back_to(c, c.retries.last().body_start as nat, c.retries.last().base_depth))
    }
}

/// `for`. The body is a block, whose environment the language does not see.
pub open spec fn lower_for(c: Code, node: For, span: Span) -> Lowered
    decreases node, 0nat,
{
    let child = code::nested("block in for"@, Seq::empty(), c, false);
    let child = child.hide_environment().slot(FOR_ELEMENT@).with_params(
        ParamModel { required: 1, ..code::no_params() },
    );
    match lower_element(child, node.index, span) {
        Ok(child) => match lower_body(child, node.body@, 0, true) {
            Ok(child) => {
                let block = c.children.len() as u32;
                match lower_expr(c.push_child(child.finish()), node.iterable) {
                    Ok(c) => {
                        let name = c.symbol_at("each"@);
                        let c = c.symbol("each"@);
                        Ok(
                            c.push_site(
                                SiteModel {
                                    name,
                                    argc: 0,
                                    splats: Seq::empty(),
                                    keywords: Seq::empty(),
                                    block: BlockRef::Literal(block),
                                    implicit_self: false,
                                },
                            ).emit(Insn::Send(c.call_sites.len() as u32)),
                        )
                    },
                    Err(u) => Err(u),
                }
            },
            Err(u) => Err(u),
        },
        Err(u) => Err(u),
    }
}

/// The element a `for` body was handed, assigned to its target.
pub open spec fn lower_element(c: Code, index: Target, span: Span) -> Lowered
    decreases index, 2nat,
{
    match index.kind {
        TargetKind::Multi(multi) => match lower_prepared(c, *multi, Seq::empty()) {
            Ok((c, places)) => match lower_spread(
                masgn_array(c.emit(Insn::GetLocal(0, 0))),
                *multi,
                places,
                0,
                span,
            ) {
                Ok((c, _)) => Ok(c.emit(Insn::Pop)),
                Err(u) => Err(u),
            },
            Err(u) => Err(u),
        },
        _ => match lower_place(c, index) {
            Ok((c, place)) => Ok(write_place(c.emit(Insn::GetLocal(0, 0)), place)),
            Err(u) => Err(u),
        },
    }
}

// ---------------------------------------------------------------------------
// `case`
// ---------------------------------------------------------------------------

/// `case`.
pub open spec fn lower_case(c: Code, node: Case, span: Span) -> Lowered
    decreases node, 1nat,
{
    match node.branches {
        CaseBranches::When(_) => lower_case_when(c, node),
        CaseBranches::In(_) => lower_case_in(c, node, span),
    }
}

/// The subject of a `case`, dropped where there is one.
pub open spec fn drop_subject(c: Code, subject: bool) -> Code {
    if subject {
        c.emit(Insn::Pop)
    } else {
        c
    }
}

/// `case` and `when`.
pub open spec fn lower_case_when(c: Code, node: Case) -> Lowered
    decreases node, 0nat,
{
    match node.branches {
        CaseBranches::When(clauses) => {
            let subject = node.predicate is Some;
            let start = match node.predicate {
                Some(predicate) => lower_expr(c, predicate),
                None => Ok(c),
            };
            match start {
                Ok(c) => {
                    let tests = c.depth;
                    match lower_tests(c, clauses@, 0, subject, Seq::empty()) {
                        Ok((c, entries)) => match lower_body_or_nil(
                            drop_subject(c, subject),
                            node.else_body,
                        ) {
                            Ok(c) => {
                                let end = c.depth;
                                let to_end = seq![c.here() as usize];
                                match lower_whens(
                                    c.emit(Insn::Jump(0)),
                                    clauses@,
                                    0,
                                    subject,
                                    entries,
                                    tests,
                                    to_end,
                                ) {
                                    Ok((c, to_end)) => Ok(
                                        c.patch_all(to_end, c.here()).at_depth(end),
                                    ),
                                    Err(u) => Err(u),
                                }
                            },
                            Err(u) => Err(u),
                        },
                        Err(u) => Err(u),
                    }
                },
                Err(u) => Err(u),
            }
        },
        CaseBranches::In(_) => Ok(c),
    }
}

/// The tests of each clause, and the jumps to its body.
pub open spec fn lower_tests(
    c: Code,
    clauses: Seq<WhenClause>,
    from: nat,
    subject: bool,
    entries: Seq<Seq<usize>>,
) -> Result<(Code, Seq<Seq<usize>>), Unsupported>
    decreases clauses, clauses.len() - from,
{
    if from >= clauses.len() {
        Ok((c, entries))
    } else {
        match lower_conditions(c, clauses[from as int].conditions@, 0, subject, Seq::empty()) {
            Ok((c, jumps)) => lower_tests(
                c,
                clauses,
                from + 1,
                subject,
                entries.push(jumps),
            ),
            Err(u) => Err(u),
        }
    }
}

/// The conditions of one clause.
pub open spec fn lower_conditions(
    c: Code,
    conditions: Seq<Expr>,
    from: nat,
    subject: bool,
    jumps: Seq<usize>,
) -> Result<(Code, Seq<usize>), Unsupported>
    decreases conditions, conditions.len() - from,
{
    if from >= conditions.len() {
        Ok((c, jumps))
    } else {
        let condition = conditions[from as int];
        if condition.kind is Splat {
            code::refused(
                "a splat in `when`, which needs a compiled loop because `===` is a send",
                condition.span,
            )
        } else {
            let c = if subject {
                c.emit(Insn::Dup)
            } else {
                c
            };
            match lower_expr(c, condition) {
                Ok(c) => {
                    let c = if subject {
                        c.emit(Insn::CaseEq)
                    } else {
                        c
                    };
                    lower_conditions(
                        c.emit(Insn::JumpIf(0)),
                        conditions,
                        from + 1,
                        subject,
                        jumps.push(c.here() as usize),
                    )
                },
                Err(u) => Err(u),
            }
        }
    }
}

/// The body of each clause, and the jumps to the end.
pub open spec fn lower_whens(
    c: Code,
    clauses: Seq<WhenClause>,
    from: nat,
    subject: bool,
    entries: Seq<Seq<usize>>,
    tests: nat,
    to_end: Seq<usize>,
) -> Result<(Code, Seq<usize>), Unsupported>
    decreases clauses, clauses.len() - from,
{
    if from >= clauses.len() {
        Ok((c, to_end))
    } else {
        let c = drop_subject(
            c.patch_all(entries[from as int], c.here()).at_depth(tests),
            subject,
        );
        match lower_body(c, clauses[from as int].body@, 0, true) {
            Ok(c) => lower_whens(
                c.emit(Insn::Jump(0)),
                clauses,
                from + 1,
                subject,
                entries,
                tests,
                to_end.push(c.here() as usize),
            ),
            Err(u) => Err(u),
        }
    }
}

// ---------------------------------------------------------------------------
// Calls
// ---------------------------------------------------------------------------

/// Whether a call is an operator that has an instruction.
pub open spec fn is_operator(call: Call) -> bool {
    call.receiver is Some && call.block is None && (if call.args@.len() == 0 {
        call.name@ == "!"@ || call.name@ == "-@"@ || call.name@ == "+@"@
    } else {
        call.args@.len() == 1 && operator(call.name@) is Some && !(call.args@[0].kind is Splat)
            && !(call.args@[0].kind is Hash)
    })
}

/// A call.
pub open spec fn lower_call(c: Code, call: Call, span: Span) -> Lowered
    decreases call, 1nat,
{
    if call.safe_nav {
        code::refused("a safe-navigation call", span)
    } else if is_operator(call) {
        lower_operator(c, call)
    } else {
        let start = match call.receiver {
            Some(receiver) => lower_expr(c, receiver),
            None => Ok(c.emit(Insn::PushSelf)),
        };
        match start {
            Ok(c) => match lower_arguments(
                c,
                call.name@,
                call.args@,
                names::passes_block(call.block),
            ) {
                Ok((c, site)) => match lower_block(c, site, call.block, span) {
                    Ok((c, site)) => {
                        let index = c.call_sites.len() as u32;
                        let c = c.push_site(
                            SiteModel { implicit_self: call.receiver is None, ..site },
                        );
                        if call.attribute_write {
                            let name = code::hidden("%attr"@, c.here());
                            let slot = c.slot_at(name);
                            Ok(
                                c.slot(name).emit(Insn::Dup).emit(
                                    Insn::SetLocal(slot, 0),
                                ).emit(Insn::Send(index)).emit(Insn::Pop).emit(
                                    Insn::GetLocal(slot, 0),
                                ),
                            )
                        } else {
                            Ok(c.emit(Insn::Send(index)))
                        }
                    },
                    Err(u) => Err(u),
                },
                Err(u) => Err(u),
            },
            Err(u) => Err(u),
        }
    }
}

/// An operator that has an instruction.
pub open spec fn lower_operator(c: Code, call: Call) -> Lowered
    decreases call, 0nat,
{
    match call.receiver {
        Some(receiver) => match lower_expr(c, receiver) {
            Ok(c) => if call.args@.len() == 0 {
                if call.name@ == "!"@ {
                    Ok(c.emit(Insn::Not))
                } else if call.name@ == "-@"@ {
                    Ok(c.emit(Insn::Neg))
                } else {
                    Ok(c)
                }
            } else {
                match lower_expr(c, call.args@[0]) {
                    Ok(c) => Ok(c.emit(Insn::BinOp(operator(call.name@)->0))),
                    Err(u) => Err(u),
                }
            },
            Err(u) => Err(u),
        },
        None => Ok(c),
    }
}

/// The arguments of a call, and the site they make.
pub open spec fn lower_arguments(c: Code, name: Seq<char>, args: Seq<Expr>, passes: bool) -> Result<
    (Code, SiteModel),
    Unsupported,
>
    decreases args, args.len() + 1,
{
    lower_args(
        c.symbol(name),
        args,
        0,
        passes,
        SiteModel {
            name: c.symbol_at(name),
            argc: 0,
            splats: Seq::empty(),
            keywords: Seq::empty(),
            block: BlockRef::Absent,
            implicit_self: false,
        },
    )
}

/// Each argument of a call.
pub open spec fn lower_args(
    c: Code,
    args: Seq<Expr>,
    from: nat,
    passes: bool,
    site: SiteModel,
) -> Result<(Code, SiteModel), Unsupported>
    decreases args, args.len() - from,
{
    if from >= args.len() {
        Ok((c, site))
    } else {
        let arg = args[from as int];
        match arg.kind {
            ExprKind::Splat(Some(inner)) => match lower_expr(c, *inner) {
                Ok(c) => if site.argc == u16::MAX {
                    code::refused("a call this wide", arg.span)
                } else {
                    lower_args(
                        if names::changes_after(args.len(), from as int, passes) {
                            c.emit(Insn::CaptureSplat)
                        } else {
                            c
                        },
                        args,
                        from + 1,
                        passes,
                        SiteModel {
                            splats: site.splats.push(site.argc),
                            argc: more(site.argc),
                            ..site
                        },
                    )
                },
                Err(u) => Err(u),
            },
            ExprKind::Splat(None) | ExprKind::ForwardingArgs => code::refused(
                "argument forwarding",
                arg.span,
            ),
            ExprKind::Hash(hash) => if hash.braces {
                match lower_expr(c, arg) {
                    Ok(c) => if site.argc == u16::MAX {
                        code::refused("a call this wide", arg.span)
                    } else {
                        lower_args(
                            c,
                            args,
                            from + 1,
                            passes,
                            SiteModel { argc: more(site.argc), ..site },
                        )
                    },
                    Err(u) => Err(u),
                }
            } else if !names::all_keywords(hash) {
                code::refused("a keyword splat", arg.span)
            } else {
                match lower_keywords(c, hash.entries@, 0, site) {
                    Ok((c, site)) => lower_args(c, args, from + 1, passes, site),
                    Err(u) => Err(u),
                }
            },
            _ => match lower_expr(c, arg) {
                Ok(c) => if site.argc == u16::MAX {
                    code::refused("a call this wide", arg.span)
                } else {
                    lower_args(
                        c,
                        args,
                        from + 1,
                        passes,
                        SiteModel { argc: more(site.argc), ..site },
                    )
                },
                Err(u) => Err(u),
            },
        }
    }
}

/// Each keyword argument of a call.
pub open spec fn lower_keywords(c: Code, entries: Seq<HashEntry>, from: nat, site: SiteModel) -> Result<
    (Code, SiteModel),
    Unsupported,
>
    decreases entries, entries.len() - from,
{
    if from >= entries.len() {
        Ok((c, site))
    } else {
        match (entries[from as int].kind, names::keyword_of(entries[from as int])) {
            (HashEntryKind::Pair { key: _, value }, Some(name)) => match lower_expr(
                c.symbol(name),
                value,
            ) {
                Ok(after) => lower_keywords(
                    after,
                    entries,
                    from + 1,
                    SiteModel { keywords: site.keywords.push(c.symbol_at(name)), ..site },
                ),
                Err(u) => Err(u),
            },
            _ => Ok((c, site)),
        }
    }
}

/// The block of a call.
pub open spec fn lower_block(c: Code, site: SiteModel, block: Option<BlockArg>, span: Span) -> Result<
    (Code, SiteModel),
    Unsupported,
>
    decreases block, 0nat,
{
    match block {
        None => Ok((c, site)),
        Some(BlockArg::Block(block)) => match child_head(
            c,
            "block in <compiled>"@,
            block.params,
            bytecode::pool(block.locals@),
            false,
            span,
        ) {
            Ok(head) => match lower_body(head, block.body@, 0, true) {
                Ok(body) => Ok(
                    (
                        c.push_child(body.finish()),
                        SiteModel {
                            block: BlockRef::Literal(c.children.len() as u32),
                            ..site
                        },
                    ),
                ),
                Err(u) => Err(u),
            },
            Err(u) => Err(u),
        },
        Some(BlockArg::Pass(Some(expr))) => match lower_expr(c, expr) {
            Ok(c) => Ok((c, SiteModel { block: BlockRef::Pass, ..site })),
            Err(u) => Err(u),
        },
        Some(BlockArg::Pass(None)) => code::refused("an anonymous block parameter", span),
    }
}

/// `super`.
pub open spec fn lower_super(c: Code, node: Super, span: Span) -> Lowered
    decreases node, 0nat,
{
    let start = match node.args {
        Some(args) => lower_arguments(c, "super"@, args@, names::passes_block(node.block)),
        None => forwarded(c, span),
    };
    match start {
        Ok((c, site)) => match lower_block(c, site, node.block, span) {
            Ok((c, site)) => Ok(
                c.push_site(SiteModel { implicit_self: true, ..site }).emit(
                    Insn::Super(c.call_sites.len() as u32),
                ),
            ),
            Err(u) => Err(u),
        },
        Err(u) => Err(u),
    }
}

/// The enclosing method's own arguments, for a bare `super`.
pub open spec fn forwarded(c: Code, span: Span) -> Result<(Code, SiteModel), Unsupported> {
    match c.zsuper {
        None => code::refused("`super` outside a method", span),
        Some(z) => if z.positional.len() > u16::MAX {
            code::refused("a call this wide", span)
        } else {
            let site = SiteModel {
                name: c.symbol_at("super"@),
                argc: 0,
                splats: Seq::empty(),
                keywords: Seq::empty(),
                block: BlockRef::Absent,
                implicit_self: true,
            };
            let (c, site) = forward_positional(c.symbol("super"@), z, 0, site);
            Ok(forward_keywords(c, z, 0, site))
        },
    }
}

/// The positional arguments a bare `super` forwards.
pub open spec fn forward_positional(c: Code, z: ZsuperModel, from: nat, site: SiteModel) -> (
    Code,
    SiteModel,
)
    decreases z.positional.len() - from,
{
    if from >= z.positional.len() {
        (c, site)
    } else {
        let (slot, is_rest) = z.positional[from as int];
        forward_positional(
            c.emit(Insn::GetLocal(slot, z.depth)),
            z,
            from + 1,
            SiteModel {
                splats: if is_rest {
                    site.splats.push(site.argc)
                } else {
                    site.splats
                },
                argc: more(site.argc),
                ..site
            },
        )
    }
}

/// The keyword arguments a bare `super` forwards.
pub open spec fn forward_keywords(c: Code, z: ZsuperModel, from: nat, site: SiteModel) -> (
    Code,
    SiteModel,
)
    decreases z.keywords.len() - from,
{
    if from >= z.keywords.len() {
        (c, site)
    } else {
        let (name, slot) = z.keywords[from as int];
        forward_keywords(
            c.symbol(name).emit(Insn::GetLocal(slot, z.depth)),
            z,
            from + 1,
            SiteModel { keywords: site.keywords.push(c.symbol_at(name)), ..site },
        )
    }
}

// ---------------------------------------------------------------------------
// Bodies of their own
// ---------------------------------------------------------------------------

/// A method definition.
pub open spec fn lower_def(c: Code, def: Def, span: Span) -> Lowered
    decreases def, 0nat,
{
    match child_head(c, def.name@, def.params, bytecode::pool(def.locals@), true, span) {
        Ok(head) => match lower_body(head, def.body@, 0, true) {
            Ok(body) => {
                let name = c.symbol_at(def.name@);
                let c = c.symbol(def.name@);
                let child = c.children.len() as u32;
                let c = c.push_child(body.finish());
                let definition = c.definitions.len() as u32;
                let c1 = c.push_definition(name, child);
                match def.receiver {
                    Some(receiver) => match lower_expr(c1, receiver) {
                        Ok(c) => Ok(c.emit(Insn::DefineSingleton(definition))),
                        Err(u) => Err(u),
                    },
                    None => Ok(c1.emit(Insn::DefineMethod(definition))),
                }
            },
            Err(u) => Err(u),
        },
        Err(u) => Err(u),
    }
}

/// The path of a class: its symbol, and whether what it is in was pushed.
pub open spec fn lower_class_path(c: Code, path: Target) -> Result<(Code, u32, bool), Unsupported>
    decreases path, 2nat,
{
    match lower_const_target(c, path) {
        Ok((c, symbol, how)) => match how {
            ConstScope::Lexical => Ok((c, symbol, false)),
            ConstScope::Qualified => Ok((c, symbol, true)),
            ConstScope::Top => Ok(
                (
                    c.symbol("Object"@).emit(
                        Insn::GetConst(c.symbol_at("Object"@), ConstScope::Top),
                    ),
                    symbol,
                    true,
                ),
            ),
        },
        Err(u) => Err(u),
    }
}

/// What the body of a class is called.
pub open spec fn body_label(kind: DefKind) -> &'static str {
    match kind {
        DefKind::Module => "<module>",
        DefKind::Singleton => "<singleton class>",
        DefKind::Class => "<class>",
    }
}

/// A class opened, its body compiled.
pub open spec fn opened(
    c: Code,
    body: Code,
    name: u32,
    kind: DefKind,
    scoped: bool,
    superclass: bool,
) -> Code {
    let c1 = c.push_child(body.finish());
    c1.push_class_def(
        ClassDef { name, body: c.children.len() as u32, kind, scoped, superclass },
    ).emit(Insn::OpenClass(c1.class_defs.len() as u32))
}

/// `class`.
pub open spec fn lower_class(c: Code, class: Class) -> Lowered
    decreases class, 0nat,
{
    match lower_class_path(c, class.path) {
        Ok((c, name, scoped)) => {
            let ready = match class.superclass {
                Some(superclass) => lower_expr(c, superclass),
                None => Ok(c),
            };
            match ready {
                Ok(c) => match lower_body(
                    plain_head(body_label(DefKind::Class)@, bytecode::pool(class.locals@)),
                    class.body@,
                    0,
                    true,
                ) {
                    Ok(body) => Ok(
                        opened(c, body, name, DefKind::Class, scoped, class.superclass is Some),
                    ),
                    Err(u) => Err(u),
                },
                Err(u) => Err(u),
            }
        },
        Err(u) => Err(u),
    }
}

/// `module`.
pub open spec fn lower_module(c: Code, module: Module) -> Lowered
    decreases module, 0nat,
{
    match lower_class_path(c, module.path) {
        Ok((c, name, scoped)) => match lower_body(
            plain_head(body_label(DefKind::Module)@, bytecode::pool(module.locals@)),
            module.body@,
            0,
            true,
        ) {
            Ok(body) => Ok(opened(c, body, name, DefKind::Module, scoped, false)),
            Err(u) => Err(u),
        },
        Err(u) => Err(u),
    }
}

/// `class << obj`.
pub open spec fn lower_singleton(c: Code, node: SingletonClass) -> Lowered
    decreases node, 0nat,
{
    match lower_expr(c, node.expression) {
        Ok(c) => match lower_body(
            plain_head(body_label(DefKind::Singleton)@, bytecode::pool(node.locals@)),
            node.body@,
            0,
            true,
        ) {
            Ok(body) => Ok(opened(c, body, 0, DefKind::Singleton, false, false)),
            Err(u) => Err(u),
        },
        Err(u) => Err(u),
    }
}

/// The start of a body without parameters that sees nothing around it.
pub open spec fn plain_head(name: Seq<char>, locals: Seq<Seq<char>>) -> Code {
    code::fresh(name, locals).with_zsuper(zsuper_of(code::no_params(), Seq::empty()))
}

/// The start of a body: its parameters, and what is computed for those that
/// were not given.
pub open spec fn child_head(
    parent: Code,
    name: Seq<char>,
    params: Params,
    locals: Seq<Seq<char>>,
    barrier: bool,
    span: Span,
) -> Lowered
    decreases params, 1nat,
{
    match lower_params(code::nested(name, locals, parent, barrier), params, span) {
        Ok((c, spec)) => {
            let c = if barrier {
                c.with_zsuper(zsuper_of(spec, keyword_params(params)))
            } else {
                c
            };
            let c = c.with_params(spec);
            lower_defaults(c, params, span)
        },
        Err(u) => Err(u),
    }
}

/// The keyword parameters of a list.
pub open spec fn keyword_params(params: Params) -> Seq<KeywordParam> {
    match params {
        Params::Explicit(list) => list.keywords@,
        _ => Seq::empty(),
    }
}

/// What a bare `super` in a method forwards: its parameters, in the order a
/// call takes them.
pub open spec fn zsuper_of(spec: ParamModel, keywords: Seq<KeywordParam>) -> ZsuperModel {
    let posts = spec.required + spec.optional.len() + (if spec.rest is Some {
        1int
    } else {
        0
    });
    ZsuperModel {
        positional: Seq::new(spec.required as nat, |i: int| (i as u16, false)) + Seq::new(
            spec.optional.len(),
            |i: int| (spec.optional[i].slot, false),
        ) + (match spec.rest {
            Some(slot) => seq![(slot, true)],
            None => Seq::empty(),
        }) + Seq::new(spec.post as nat, |i: int| ((posts + i) as u16, false)),
        keywords: Seq::new(
            spec.keywords.len(),
            |i: int| (keywords[i].name@, spec.keywords[i].slot),
        ),
        depth: 0,
    }
}

/// The parameters of a body.
pub open spec fn lower_params(c: Code, params: Params, span: Span) -> Result<
    (Code, ParamModel),
    Unsupported,
> {
    match params {
        Params::Absent => Ok((c, code::no_params())),
        Params::Explicit(list) => lower_param_list(c, list, span),
        Params::Numbered(highest) => Ok(
            (
                numbered_slots(c, 1, highest as nat),
                ParamModel { required: highest as u16, ..code::no_params() },
            ),
        ),
        Params::It => Ok((c.slot(IT@), ParamModel { required: 1, ..code::no_params() })),
    }
}

/// The slots of `_1` and up.
pub open spec fn numbered_slots(c: Code, from: nat, highest: nat) -> Code
    decreases highest + 1 - from,
{
    if from > highest {
        c
    } else {
        numbered_slots(c.slot(code::hidden("_"@, from)), from + 1, highest)
    }
}

/// Whether a parameter list has more parameters than there are slots.
pub open spec fn too_long(list: ParamList) -> bool {
    ||| list.required@.len() > u16::MAX
    ||| list.optional@.len() > u16::MAX
    ||| list.posts@.len() > u16::MAX
    ||| list.keywords@.len() > u16::MAX
}

/// A parameter list. The slots follow the order the binder writes them in.
pub open spec fn lower_param_list(c: Code, list: ParamList, span: Span) -> Result<
    (Code, ParamModel),
    Unsupported,
> {
    if too_long(list) {
        code::refused("a parameter list this long", span)
    } else {
        match required_slots(c, list.required@, 0, 0, required_end(list), span) {
            Err(u) => Err(u),
            Ok(c) => {
                let at = list.required@.len();
                let (c, optional) = optional_slots(c, list.optional@, 0, at, Seq::empty());
                let at = at + list.optional@.len();
                let (c, rest) = match list.rest {
                    Some(rest) => {
                        let name = match rest.name {
                            Some(name) => name@,
                            None => "*"@,
                        };
                        (c.param_slot(name, at), Some(c.param_slot_at(name, at)))
                    },
                    None => (c, None),
                };
                let at = if rest is Some {
                    at + 1
                } else {
                    at
                };
                match required_slots(c, list.posts@, 0, at, posts_end(list), span) {
                    Err(u) => Err(u),
                    Ok(c) => {
                        let at = at + list.posts@.len();
                        let (c, keywords) = keyword_slots(c, list.keywords@, 0, at, Seq::empty());
                        let at = at + list.keywords@.len();
                        if list.keyword_rest matches Some(KeywordRest::Forwarding) {
                            code::refused("argument forwarding", span)
                        } else {
                            let (c, kwrest) = match list.keyword_rest {
                                Some(KeywordRest::Named(name)) => {
                                    let name = match name {
                                        Some(name) => name@,
                                        None => "**"@,
                                    };
                                    (c.param_slot(name, at), Some(c.param_slot_at(name, at)))
                                },
                                _ => (c, None),
                            };
                            let at = if kwrest is Some {
                                at + 1
                            } else {
                                at
                            };
                            let (c, block) = match list.block {
                                Some(block) => {
                                    let name = match block.name {
                                        Some(name) => name@,
                                        None => "&"@,
                                    };
                                    (c.param_slot(name, at), Some(c.param_slot_at(name, at)))
                                },
                                None => (c, None),
                            };
                            Ok(
                                (
                                    slots_of(c, bytecode::pool(list.locals@), 0),
                                    ParamModel {
                                        required: list.required@.len() as u16,
                                        optional,
                                        rest,
                                        post: list.posts@.len() as u16,
                                        keywords,
                                        block,
                                        kwrest,
                                        no_keywords: list.keyword_rest matches Some(
                                            KeywordRest::Forbidden,
                                        ),
                                    },
                                ),
                            )
                        }
                    },
                }
            },
        }
    }
}

/// Whether the parameters after the optional ones are the last.
pub open spec fn posts_end(list: ParamList) -> bool {
    list.keywords@.len() == 0 && (list.keyword_rest is None || list.keyword_rest matches Some(
        KeywordRest::Forbidden,
    )) && list.block is None
}

/// Whether the first required parameters are the last.
pub open spec fn required_end(list: ParamList) -> bool {
    list.optional@.len() == 0 && list.rest is None && list.posts@.len() == 0 && posts_end(list)
}

/// The slots of required parameters. One that is taken apart has the slot of
/// the first name in it, and the slots of the others follow, so it can only be
/// the last parameter there is.
pub open spec fn required_slots(
    c: Code,
    params: Seq<RequiredParam>,
    from: nat,
    at: nat,
    last: bool,
    span: Span,
) -> Lowered
    decreases params.len() - from,
{
    if from >= params.len() {
        Ok(c)
    } else {
        match params[from as int] {
            RequiredParam::Named(name) => required_slots(
                c.param_slot(name@, at),
                params,
                from + 1,
                at + 1,
                last,
                span,
            ),
            RequiredParam::Destructure(multi) => {
                let names = bound_names(*multi, Seq::empty());
                if !last || from + 1 < params.len() {
                    code::refused("a destructuring parameter", span)
                } else if names.len() == 0 {
                    code::refused("a destructuring block parameter that binds no name", span)
                } else if at + names.len() > u16::MAX {
                    code::refused("a parameter list this long", span)
                } else {
                    Ok(claimed(c, names, 0, at))
                }
            },
        }
    }
}

/// The slots of several names, one after the other.
pub open spec fn claimed(c: Code, names: Seq<Seq<char>>, from: nat, at: nat) -> Code
    decreases names.len() - from,
{
    if from >= names.len() {
        c
    } else {
        claimed(c.param_slot(names[from as int], at + from), names, from + 1, at)
    }
}

/// The locals that taking a parameter apart binds, each once.
pub open spec fn bound_names(multi: MultiTarget, found: Seq<Seq<char>>) -> Seq<Seq<char>>
    decreases multi, 1nat,
{
    let found = bound_by_all(multi.lefts@, 0, found);
    let found = match multi.rest {
        Some(rest) => bound_by(rest, found),
        None => found,
    };
    bound_by_all(multi.rights@, 0, found)
}

/// The locals that several targets bind.
pub open spec fn bound_by_all(targets: Seq<Target>, from: nat, found: Seq<Seq<char>>) -> Seq<
    Seq<char>,
>
    decreases targets, targets.len() - from,
{
    if from >= targets.len() {
        found
    } else {
        bound_by_all(targets, from + 1, bound_by(targets[from as int], found))
    }
}

/// The locals that a target binds.
pub open spec fn bound_by(target: Target, found: Seq<Seq<char>>) -> Seq<Seq<char>>
    decreases target, 0nat,
{
    match target.kind {
        TargetKind::Var(VarRef::Local { name, depth }) => if depth == 0 && !found.contains(name@) {
            found.push(name@)
        } else {
            found
        },
        TargetKind::Multi(inner) => bound_names(*inner, found),
        TargetKind::Splat(Some(inner)) => bound_by(*inner, found),
        _ => found,
    }
}

/// The slots of optional parameters.
pub open spec fn optional_slots(
    c: Code,
    params: Seq<OptionalParam>,
    from: nat,
    at: nat,
    found: Seq<Optional>,
) -> (Code, Seq<Optional>)
    decreases params.len() - from,
{
    if from >= params.len() {
        (c, found)
    } else {
        let name = params[from as int].name@;
        optional_slots(
            c.param_slot(name, at),
            params,
            from + 1,
            at + 1,
            found.push(Optional { slot: c.param_slot_at(name, at) }),
        )
    }
}

/// The slots of keyword parameters.
pub open spec fn keyword_slots(
    c: Code,
    params: Seq<KeywordParam>,
    from: nat,
    at: nat,
    found: Seq<Keyword>,
) -> (Code, Seq<Keyword>)
    decreases params.len() - from,
{
    if from >= params.len() {
        (c, found)
    } else {
        let name = params[from as int].name@;
        let placed = c.param_slot(name, at);
        keyword_slots(
            placed.symbol(name),
            params,
            from + 1,
            at + 1,
            found.push(
                Keyword {
                    name: placed.symbol_at(name),
                    slot: c.param_slot_at(name, at),
                    required: params[from as int].default is None,
                },
            ),
        )
    }
}

/// The slots of several names.
pub open spec fn slots_of(c: Code, names: Seq<Seq<char>>, from: nat) -> Code
    decreases names.len() - from,
{
    if from >= names.len() {
        c
    } else {
        slots_of(c.slot(names[from as int]), names, from + 1)
    }
}

/// What a body starts with: the keywords that are left over become a hash, a
/// parameter to be taken apart is, and those that were not given are computed.
pub open spec fn lower_defaults(c: Code, params: Params, span: Span) -> Lowered
    decreases params, 0nat,
{
    match params {
        Params::Explicit(list) => match lower_last(gathered(c), list, span) {
            Ok(c) => match lower_optional_defaults(c, list.optional@, 0) {
                Ok(c) => lower_keyword_defaults(c, list.keywords@, 0),
                Err(u) => Err(u),
            },
            Err(u) => Err(u),
        },
        _ => Ok(c),
    }
}

/// The keywords a `**kw` was bound to, turned into a hash where there is one.
pub open spec fn gathered(c: Code) -> Code {
    match c.params.kwrest {
        Some(slot) => gather_keywords(c, slot),
        None => c,
    }
}

/// The keywords a `**kw` was bound to, turned into a hash.
pub open spec fn gather_keywords(c: Code, slot: u16) -> Code {
    c.push_const("Hash"@).emit(Insn::GetLocal(slot, 0)).send("__from_pairs__"@, 1, false).emit(
        Insn::SetLocal(slot, 0),
    )
}

/// The last required parameter, taken apart where it is to be.
pub open spec fn lower_last(c: Code, list: ParamList, span: Span) -> Lowered
    decreases list, 0nat,
{
    if list.posts@.len() > 0 {
        lower_taken_apart(c, list.posts@[list.posts@.len() - 1], span)
    } else if list.required@.len() > 0 {
        lower_taken_apart(c, list.required@[list.required@.len() - 1], span)
    } else {
        Ok(c)
    }
}

/// A required parameter, taken apart where it is to be.
pub open spec fn lower_taken_apart(c: Code, param: RequiredParam, span: Span) -> Lowered
    decreases param, 0nat,
{
    match param {
        RequiredParam::Named(_) => Ok(c),
        RequiredParam::Destructure(multi) => {
            let names = bound_names(*multi, Seq::empty());
            if names.len() == 0 {
                Ok(c)
            } else {
                lower_destructure(c.slot(names[0]), *multi, c.slot_at(names[0]), span)
            }
        },
    }
}

/// A parameter taken apart: the multiple assignment of what it was bound to.
pub open spec fn lower_destructure(c: Code, multi: MultiTarget, slot: u16, span: Span) -> Lowered
    decreases multi, 2nat,
{
    match lower_prepared(c, multi, Seq::empty()) {
        Ok((c, places)) => {
            let c = c.push_const("Array"@).emit(Insn::GetLocal(slot, 0)).send(
                "__masgn_array__"@,
                1,
                false,
            );
            match lower_spread(c, multi, places, 0, span) {
                Ok((c, _)) => Ok(c.emit(Insn::Pop)),
                Err(u) => Err(u),
            }
        },
        Err(u) => Err(u),
    }
}

/// What is computed for optional parameters.
pub open spec fn lower_optional_defaults(c: Code, params: Seq<OptionalParam>, from: nat) -> Lowered
    decreases params, params.len() - from,
{
    if from >= params.len() {
        Ok(c)
    } else {
        match lower_default(c, params[from as int].name@, params[from as int].default) {
            Ok(c) => lower_optional_defaults(c, params, from + 1),
            Err(u) => Err(u),
        }
    }
}

/// What is computed for keyword parameters.
pub open spec fn lower_keyword_defaults(c: Code, params: Seq<KeywordParam>, from: nat) -> Lowered
    decreases params, params.len() - from,
{
    if from >= params.len() {
        Ok(c)
    } else {
        match params[from as int].default {
            Some(default) => match lower_default(c, params[from as int].name@, default) {
                Ok(c) => lower_keyword_defaults(c, params, from + 1),
                Err(u) => Err(u),
            },
            None => lower_keyword_defaults(c, params, from + 1),
        }
    }
}

/// What is computed for a parameter that was not given.
pub open spec fn lower_default(c: Code, name: Seq<char>, default: Expr) -> Lowered
    decreases default, 1nat,
{
    let slot = c.slot_at(name);
    let c = c.slot(name).emit(Insn::GetLocal(slot, 0));
    let supplied = c.here();
    match lower_expr(c.emit(Insn::JumpUnlessUndef(0)), default) {
        Ok(c) => Ok(c.emit(Insn::SetLocal(slot, 0)).patch_here(supplied)),
        Err(u) => Err(u),
    }
}

// ---------------------------------------------------------------------------
// `defined?`
// ---------------------------------------------------------------------------

/// `defined?`: what its operand raises is swallowed, and the answer is `nil`.
pub open spec fn lower_swallowing(c: Code, inner: Expr, span: Span) -> Lowered
    decreases inner, 2nat,
{
    let base = c.depth;
    let start = c.here();
    match lower_defined(c, inner, span) {
        Ok(c) => {
            let done = c.here();
            let c = c.emit(Insn::Jump(0));
            let handler = c.here();
            let c = c.at_depth(above(base)).emit(Insn::Pop).emit(Insn::PushNil).patch_here(done);
            Ok(c.guard(protected(CatchKind::Rescue, start, done, handler, base)))
        },
        Err(u) => Err(u),
    }
}

/// What `defined?` answers of an expression.
pub open spec fn lower_defined(c: Code, expr: Expr, span: Span) -> Lowered
    decreases expr, 1nat,
{
    match expr.kind {
        ExprKind::Nil => Ok(push_word(c, "nil")),
        ExprKind::True => Ok(push_word(c, "true")),
        ExprKind::False => Ok(push_word(c, "false")),
        ExprKind::SelfExpr => Ok(push_word(c, "self")),
        ExprKind::Assign(_) => Ok(push_word(c, "assignment")),
        ExprKind::Parens(inner) => if inner@.len() == 1 {
            lower_defined(c, inner@[0], inner@[0].span)
        } else {
            Ok(push_word(c, "expression"))
        },
        ExprKind::Var(var) => lower_defined_var(c, var, span),
        ExprKind::ConstPath(path) => match path.name {
            None => code::refused("a syntax error", span),
            Some(name) => {
                let symbol = c.symbol_at(name@);
                let c = c.symbol(name@);
                match path.parent {
                    None => Ok(c.emit(Insn::DefinedConst(symbol, ConstScope::Top))),
                    Some(parent) => match lower_guard(c, parent, Seq::empty()) {
                        Ok((c, undefined)) => match lower_expr(c, parent) {
                            Ok(c) => Ok(
                                close_guard(
                                    c.emit(Insn::DefinedConst(symbol, ConstScope::Qualified)),
                                    undefined,
                                ),
                            ),
                            Err(u) => Err(u),
                        },
                        Err(u) => Err(u),
                    },
                }
            },
        },
        ExprKind::Yield(_) => Ok(c.emit(Insn::DefinedYield)),
        ExprKind::Call(call) => lower_defined_call(c, *call, span),
        ExprKind::Array(elements) => match lower_guards(c, elements@, 0, Seq::empty()) {
            Ok((c, undefined)) => Ok(close_guard(push_word(c, "expression"), undefined)),
            Err(u) => Err(u),
        },
        ExprKind::Super(_) => code::refused("`defined?` on `super`", span),
        _ => Ok(push_word(c, "expression")),
    }
}

/// What `defined?` answers of a variable.
pub open spec fn lower_defined_var(c: Code, var: VarRef, span: Span) -> Lowered {
    match var {
        VarRef::Local { name: _, depth: _ } | VarRef::It => Ok(push_word(c, "local-variable")),
        VarRef::Const(name) => Ok(
            c.symbol(name@).emit(Insn::DefinedConst(c.symbol_at(name@), ConstScope::Lexical)),
        ),
        VarRef::Instance(name) => Ok(
            c.symbol(name@).emit(Insn::DefinedIvar(c.symbol_at(name@))),
        ),
        VarRef::Class(_) => code::refused("`defined?` on a class variable", span),
        VarRef::Global(name) => if name@ == ERRINFO@ {
            Ok(push_word(c, "global-variable"))
        } else {
            match names::match_part(name@) {
                Some(MatchRef::Data) => Ok(push_word(c, "global-variable")),
                Some(_) => code::refused("`defined?` on a regexp special variable", span),
                None => Ok(c.symbol(name@).emit(Insn::DefinedGlobal(c.symbol_at(name@)))),
            }
        },
        VarRef::BackRef(_) | VarRef::NumberedRef(_) => code::refused(
            "`defined?` on a regexp special variable",
            span,
        ),
    }
}

/// What `defined?` answers of a call.
pub open spec fn lower_defined_call(c: Code, call: Call, span: Span) -> Lowered
    decreases call, 0nat,
{
    if call.block is Some {
        code::refused("`defined?` on a call with a block", span)
    } else {
        let name = c.symbol_at(call.name@);
        let c = c.symbol(call.name@);
        let first = match call.receiver {
            Some(receiver) => lower_guard(c, receiver, Seq::empty()),
            None => Ok((c, Seq::empty())),
        };
        match first {
            Ok((c, undefined)) => match lower_guards(c, call.args@, 0, undefined) {
                Ok((c, undefined)) => match call.receiver {
                    Some(receiver) => match lower_expr(c, receiver) {
                        Ok(c) => Ok(close_guard(c.emit(Insn::DefinedMethod(name)), undefined)),
                        Err(u) => Err(u),
                    },
                    None => Ok(close_guard(c.emit(Insn::DefinedSelfMethod(name)), undefined)),
                },
                Err(u) => Err(u),
            },
            Err(u) => Err(u),
        }
    }
}

/// A part that has to be defined for the whole to be.
pub open spec fn lower_guard(c: Code, guard: Expr, undefined: Seq<usize>) -> Result<
    (Code, Seq<usize>),
    Unsupported,
>
    decreases guard, 2nat,
{
    match lower_defined(c, guard, guard.span) {
        Ok(c) => Ok((c.emit(Insn::JumpUnless(0)), undefined.push(c.here() as usize))),
        Err(u) => Err(u),
    }
}

/// Several parts that have to be defined.
pub open spec fn lower_guards(c: Code, guards: Seq<Expr>, from: nat, undefined: Seq<usize>) -> Result<
    (Code, Seq<usize>),
    Unsupported,
>
    decreases guards, guards.len() - from,
{
    if from >= guards.len() {
        Ok((c, undefined))
    } else {
        match lower_guard(c, guards[from as int], undefined) {
            Ok((c, undefined)) => lower_guards(c, guards, from + 1, undefined),
            Err(u) => Err(u),
        }
    }
}

/// The answer, and `nil` where a part was not defined.
pub open spec fn close_guard(c: Code, undefined: Seq<usize>) -> Code {
    if undefined.len() == 0 {
        c
    } else {
        let done = c.here();
        let c = c.emit(Insn::Jump(0));
        let c = c.at_depth(below(c.depth));
        c.patch_all(undefined, c.here()).emit(Insn::PushNil).patch_here(done)
    }
}

// ---------------------------------------------------------------------------
// `begin`
// ---------------------------------------------------------------------------

/// `$!` put away, to be put back.
pub open spec fn save_errinfo(c: Code) -> (Code, u16) {
    let name = code::hidden("%errinfo"@, c.here());
    let slot = c.slot_at(name);
    (c.slot(name).emit(Insn::Errinfo).emit(Insn::SetLocal(slot, 0)), slot)
}

/// `begin` with `rescue`, `else` or `ensure`.
pub open spec fn lower_begin(c: Code, node: Begin) -> Lowered
    decreases node, 0nat,
{
    let base = c.depth;
    let outside = c.open_ensures;
    let c = if node.ensure_body is Some {
        c.owe(above(outside))
    } else {
        c
    };
    let rescues = node.rescues@.len() > 0;
    let (c, errinfo) = if rescues {
        save_errinfo(c)
    } else {
        (c, 0)
    };
    let body_start = c.here();
    match lower_body(c, node.body@, 0, true) {
        Err(u) => Err(u),
        Ok(c) => {
            let body_end = c.here();
            let otherwise = match node.else_body {
                Some(body) => lower_body(c.emit(Insn::Pop), body@, 0, true),
                None => Ok(c),
            };
            match otherwise {
                Err(u) => Err(u),
                Ok(c) => {
                    let handled = if rescues {
                        let done = seq![c.here() as usize];
                        let c = c.emit(Insn::Jump(0));
                        let rescue_start = c.here();
                        match lower_rescues(
                            c.handle_at(above(base)),
                            node.rescues@,
                            0,
                            body_start,
                            base,
                            done,
                        ) {
                            Ok((c, done)) => {
                                let c = c.guard(
                                    protected(
                                        CatchKind::Rescue,
                                        body_start,
                                        body_end,
                                        rescue_start,
                                        base,
                                    ),
                                );
                                Ok(c.patch_all(done, c.here()))
                            },
                            Err(u) => Err(u),
                        }
                    } else {
                        Ok(c)
                    };
                    match handled {
                        Err(u) => Err(u),
                        Ok(c) => {
                            let c = c.at_depth(above(base));
                            let c = if rescues {
                                c.emit(Insn::GetLocal(errinfo, 0)).emit(Insn::SetErrinfo)
                            } else {
                                c
                            };
                            match node.ensure_body {
                                None => Ok(c),
                                Some(body) => {
                                    let c = c.owe(below(c.open_ensures));
                                    let protected_end = c.here();
                                    let c = c.emit(Insn::EnterEnsure);
                                    let ensure_start = c.here();
                                    match lower_body(c, body@, 0, true) {
                                        Ok(c) => Ok(
                                            c.emit(Insn::Pop).emit(Insn::LeaveEnsure).guard(
                                                protected(
                                                    CatchKind::Ensure,
                                                    body_start,
                                                    protected_end,
                                                    ensure_start,
                                                    base,
                                                ),
                                            ),
                                        ),
                                        Err(u) => Err(u),
                                    }
                                },
                            }
                        },
                    }
                },
            }
        },
    }
}

/// The clauses of a `rescue`. What none of them takes is raised again.
pub open spec fn lower_rescues(
    c: Code,
    clauses: Seq<Rescue>,
    from: nat,
    body_start: nat,
    base: nat,
    done: Seq<usize>,
) -> Result<(Code, Seq<usize>), Unsupported>
    decreases clauses, clauses.len() - from,
{
    if from >= clauses.len() {
        Ok((c.emit(Insn::Raise), done))
    } else {
        match lower_rescue(c, clauses[from as int], body_start, base, done) {
            Ok((c, done)) => lower_rescues(c, clauses, from + 1, body_start, base, done),
            Err(u) => Err(u),
        }
    }
}

/// One clause of a `rescue`.
pub open spec fn lower_rescue(
    c: Code,
    clause: Rescue,
    body_start: nat,
    base: nat,
    done: Seq<usize>,
) -> Result<(Code, Seq<usize>), Unsupported>
    decreases clause, 0nat,
{
    let tested = if clause.exceptions@.len() == 0 {
        let c = standard_error(c);
        Ok((c.emit(Insn::JumpIf(0)), seq![c.here() as usize]))
    } else {
        lower_exceptions(c, clause.exceptions@, 0, Seq::empty())
    };
    match tested {
        Err(u) => Err(u),
        Ok((c, hits)) => {
            let miss = c.here();
            let c = c.emit(Insn::Jump(0));
            let c = c.patch_all(hits, c.here()).at_depth(above(base));
            let bound = match clause.reference {
                Some(target) => match lower_place(c, target) {
                    Ok((c, place)) => Ok(write_place(c, place)),
                    Err(u) => Err(u),
                },
                None => Ok(c.emit(Insn::Pop)),
            };
            match bound {
                Err(u) => Err(u),
                Ok(c) => match lower_body(
                    c.push_retry(body_start, base),
                    clause.body@,
                    0,
                    true,
                ) {
                    Ok(c) => {
                        let c = c.pop_retry();
                        Ok(
                            (
                                c.emit(Insn::Jump(0)).patch_here(miss).at_depth(above(base)),
                                done.push(c.here() as usize),
                            ),
                        )
                    },
                    Err(u) => Err(u),
                },
            }
        },
    }
}

/// The test of a clause that names no class.
pub open spec fn standard_error(c: Code) -> Code {
    c.symbol("StandardError"@).emit(
        Insn::GetConst(c.symbol_at("StandardError"@), ConstScope::Top),
    ).emit(Insn::CheckMatch)
}

/// The tests of a clause, and the jumps to its body.
pub open spec fn lower_exceptions(
    c: Code,
    exceptions: Seq<Expr>,
    from: nat,
    hits: Seq<usize>,
) -> Result<(Code, Seq<usize>), Unsupported>
    decreases exceptions, exceptions.len() - from,
{
    if from >= exceptions.len() {
        Ok((c, hits))
    } else {
        let exception = exceptions[from as int];
        let tested = match exception.kind {
            ExprKind::Splat(inner) => match inner {
                None => code::refused("an anonymous splat", exception.span),
                Some(inner) => match lower_expr(c.emit(Insn::NewArray(0)), *inner) {
                    Ok(c) => Ok(
                        c.send("__concat_splat__"@, 1, false).emit(Insn::CheckMatchAny),
                    ),
                    Err(u) => Err(u),
                },
            },
            _ => match lower_expr(c, exception) {
                Ok(c) => Ok(c.emit(Insn::CheckMatch)),
                Err(u) => Err(u),
            },
        };
        match tested {
            Ok(c) => lower_exceptions(
                c.emit(Insn::JumpIf(0)),
                exceptions,
                from + 1,
                hits.push(c.here() as usize),
            ),
            Err(u) => Err(u),
        }
    }
}

/// `a rescue b`.
pub open spec fn lower_rescue_mod(c: Code, node: RescueMod) -> Lowered
    decreases node, 0nat,
{
    let base = c.depth;
    let (c, errinfo) = save_errinfo(c);
    let body_start = c.here();
    match lower_expr(c, node.value) {
        Err(u) => Err(u),
        Ok(c) => {
            let body_end = c.here();
            let first = c.here();
            let c = c.emit(Insn::Jump(0));
            let rescue_start = c.here();
            let c = standard_error(c.handle_at(above(base)));
            let hit = c.here();
            let c = c.emit(Insn::JumpIf(0));
            let miss = c.here();
            let c = c.emit(Insn::Jump(0)).patch_here(hit).at_depth(above(base)).emit(Insn::Pop);
            match lower_expr(c.push_retry(body_start, base), node.rescue_value) {
                Err(u) => Err(u),
                Ok(c) => {
                    let c = c.pop_retry();
                    let second = c.here();
                    let c = c.emit(Insn::Jump(0)).patch_here(miss).at_depth(
                        above(base),
                    ).emit(Insn::Raise);
                    let c = c.guard(
                        protected(CatchKind::Rescue, body_start, body_end, rescue_start, base),
                    );
                    Ok(
                        c.patch_here(first).patch_here(second).at_depth(above(base)).emit(
                            Insn::GetLocal(errinfo, 0),
                        ).emit(Insn::SetErrinfo),
                    )
                },
            }
        },
    }
}

// ---------------------------------------------------------------------------
// Patterns
// ---------------------------------------------------------------------------

/// A hidden local of the compound pattern that is open.
pub open spec fn pattern_local(c: Code, what: Seq<char>) -> Seq<char> {
    "pattern "@ + what + " "@ + text::digits(c.pattern_depth, 10)
}

/// The code with such a local.
pub open spec fn with_pattern_slot(c: Code, what: Seq<char>) -> Code {
    c.slot(pattern_local(c, what))
}

/// The slot of such a local.
pub open spec fn pattern_slot(c: Code, what: Seq<char>) -> u16 {
    c.slot_at(pattern_local(c, what))
}

/// The local that records a missed key, where the form reports it.
pub open spec fn open_key(c: Code, wanted: bool) -> Code {
    if wanted {
        let slot = pattern_slot(c, "missing key"@);
        with_pattern_slot(c, "missing key"@).emit(Insn::PushNil).emit(
                Insn::SetLocal(slot, 0),
            ).with_pattern_key(Some(slot))
    } else {
        c.with_pattern_key(None)
    }
}

/// What is raised where no pattern matched.
pub open spec fn pattern_failure(c: Code, subject: u16) -> Code {
    match c.pattern_key {
        None => c.emit(Insn::PushSelf).emit(Insn::GetLocal(subject, 0)).send(
            "__pattern_fail__"@,
            1,
            true,
        ),
        Some(key) => {
            let before = c.depth;
            let c = c.emit(Insn::GetLocal(key, 0));
            let general = c.here();
            let c = c.emit(Insn::JumpUnless(0)).emit(Insn::PushSelf).emit(
                Insn::GetLocal(subject, 0),
            ).emit(Insn::GetLocal(key, 0)).send("__pattern_key_fail__"@, 2, true);
            let to_end = c.here();
            c.emit(Insn::Jump(0)).patch_here(general).at_depth(before).emit(
                Insn::PushSelf,
            ).emit(Insn::GetLocal(subject, 0)).send("__pattern_fail__"@, 1, true).patch_here(
                to_end,
            )
        },
    }
}

/// `case` and `in`.
pub open spec fn lower_case_in(c: Code, node: Case, span: Span) -> Lowered
    decreases node, 0nat,
{
    match (node.predicate, node.branches) {
        (Some(predicate), CaseBranches::In(clauses)) => match lower_expr(c, predicate) {
            Err(u) => Err(u),
            Ok(c) => {
                let subject = pattern_slot(c, "subject"@);
                let c = with_pattern_slot(c, "subject"@).emit(Insn::SetLocal(subject, 0));
                let cache = pattern_slot(c, "deconstructed"@);
                let c = with_pattern_slot(c, "deconstructed"@).emit(Insn::PushNil).emit(
                    Insn::SetLocal(cache, 0),
                );
                let outer_cache = c.pattern_cache;
                let outer_key = c.pattern_key;
                let c = open_key(
                    c.with_pattern_cache(Some(cache)),
                    clauses@.len() == 1,
                );
                let tests = c.depth;
                match lower_in_tests(c, clauses@, 0, subject, tests, Seq::empty()) {
                    Err(u) => Err(u),
                    Ok((c, entries)) => {
                        let otherwise = match node.else_body {
                            Some(body) => lower_body(c, body@, 0, true),
                            None => Ok(pattern_failure(c, subject)),
                        };
                        match otherwise {
                            Err(u) => Err(u),
                            Ok(c) => {
                                let end = c.depth;
                                let to_end = seq![c.here() as usize];
                                match lower_ins(
                                    c.emit(Insn::Jump(0)),
                                    clauses@,
                                    0,
                                    entries,
                                    tests,
                                    to_end,
                                ) {
                                    Err(u) => Err(u),
                                    Ok((c, to_end)) => {
                                        let c = c.patch_all(to_end, c.here()).at_depth(end);
                                        Ok(
                                            c.with_pattern_cache(outer_cache).with_pattern_key(outer_key),
                                        )
                                    },
                                }
                            },
                        }
                    },
                }
            },
        },
        _ => code::refused("`case`/`in` with no subject", span),
    }
}

/// The pattern and the guard of each clause, and the jump to its body.
pub open spec fn lower_in_tests(
    c: Code,
    clauses: Seq<InClause>,
    from: nat,
    subject: u16,
    tests: nat,
    entries: Seq<usize>,
) -> Result<(Code, Seq<usize>), Unsupported>
    decreases clauses, clauses.len() - from,
{
    if from >= clauses.len() {
        Ok((c, entries))
    } else {
        match lower_in_test(c, clauses[from as int], subject, tests) {
            Ok((c, entry)) => lower_in_tests(
                c,
                clauses,
                from + 1,
                subject,
                tests,
                entries.push(entry),
            ),
            Err(u) => Err(u),
        }
    }
}

/// The pattern and the guard of one clause.
pub open spec fn lower_in_test(c: Code, clause: InClause, subject: u16, tests: nat) -> Result<
    (Code, usize),
    Unsupported,
>
    decreases clause, 0nat,
{
    match lower_pattern(c.emit(Insn::GetLocal(subject, 0)), clause.pattern) {
        Err(u) => Err(u),
        Ok(c) => {
            let entry = c.here();
            let c = c.emit(Insn::JumpIf(0));
            match clause.guard {
                None => Ok((c, entry as usize)),
                Some(guard) => {
                    let skip = c.here();
                    let c = c.emit(Insn::Jump(0)).patch_here(entry).at_depth(tests);
                    let asked = match guard {
                        Guard::If(condition) => lower_expr(c, condition),
                        Guard::Unless(condition) => lower_expr(c, condition),
                    };
                    match asked {
                        Err(u) => Err(u),
                        Ok(c) => Ok(
                            (
                                c.emit(
                                    if guard is If {
                                        Insn::JumpIf(0)
                                    } else {
                                        Insn::JumpUnless(0)
                                    },
                                ).patch_here(skip).at_depth(tests),
                                c.here() as usize,
                            ),
                        ),
                    }
                },
            }
        },
    }
}

/// The body of each clause, and the jumps to the end.
pub open spec fn lower_ins(
    c: Code,
    clauses: Seq<InClause>,
    from: nat,
    entries: Seq<usize>,
    tests: nat,
    to_end: Seq<usize>,
) -> Result<(Code, Seq<usize>), Unsupported>
    decreases clauses, clauses.len() - from,
{
    if from >= clauses.len() {
        Ok((c, to_end))
    } else {
        match lower_body(
            c.patch_here(entries[from as int] as nat).at_depth(tests),
            clauses[from as int].body@,
            0,
            true,
        ) {
            Ok(c) => lower_ins(
                c.emit(Insn::Jump(0)),
                clauses,
                from + 1,
                entries,
                tests,
                to_end.push(c.here() as usize),
            ),
            Err(u) => Err(u),
        }
    }
}

/// `value => pattern` and `value in pattern`.
pub open spec fn lower_match(c: Code, node: MatchPattern) -> Lowered
    decreases node, 0nat,
{
    match lower_expr(c, node.value) {
        Err(u) => Err(u),
        Ok(c) => {
            let outer_key = c.pattern_key;
            if !node.raises {
                match lower_pattern(open_key(c, false), node.pattern) {
                    Ok(c) => Ok(c.with_pattern_key(outer_key)),
                    Err(u) => Err(u),
                }
            } else {
                let subject = pattern_slot(c, "subject"@);
                let c = open_key(
                    with_pattern_slot(c, "subject"@).emit(Insn::SetLocal(subject, 0)),
                    true,
                );
                let before = c.depth;
                match lower_pattern(c.emit(Insn::GetLocal(subject, 0)), node.pattern) {
                    Ok(c) => {
                        let to_ok = c.here();
                        let c = pattern_failure(c.emit(Insn::JumpIf(0)), subject).emit(
                            Insn::Pop,
                        ).patch_here(to_ok).at_depth(before);
                        Ok(c.with_pattern_key(outer_key).emit(Insn::PushNil))
                    },
                    Err(u) => Err(u),
                }
            }
        },
    }
}

/// The code inside a compound pattern.
pub open spec fn deeper(c: Code) -> Code {
    c.at_pattern_depth(above(c.pattern_depth))
}

/// The code behind a compound pattern.
pub open spec fn shallower(c: Code) -> Code {
    c.at_pattern_depth(below(c.pattern_depth))
}

/// A pattern, matched against what is on top. It leaves whether it matched.
pub open spec fn lower_pattern(c: Code, pat: Expr) -> Lowered
    decreases pat, 1nat,
{
    match pat.kind {
        ExprKind::Var(VarRef::Local { name, depth }) => match write_local(
            c,
            name@,
            depth,
            pat.span,
        ) {
            Ok(c) => Ok(c.emit(Insn::PushTrue)),
            Err(u) => Err(u),
        },
        ExprKind::Pin(inner) => match lower_expr(c, *inner) {
            Ok(c) => Ok(c.emit(Insn::CaseEq)),
            Err(u) => Err(u),
        },
        ExprKind::AltPattern(alt) => {
            match lower_pattern(c.emit(Insn::Dup), alt.left) {
                Err(u) => Err(u),
                Ok(c) => {
                    let to_right = c.here();
                    let c = c.emit(Insn::JumpUnless(0));
                    let matched = c.depth;
                    let c = c.emit(Insn::Pop).emit(Insn::PushTrue);
                    let to_end = c.here();
                    let c = c.emit(Insn::Jump(0)).patch_here(to_right).at_depth(matched);
                    match lower_pattern(c, alt.right) {
                        Ok(c) => Ok(c.patch_here(to_end)),
                        Err(u) => Err(u),
                    }
                },
            }
        },
        ExprKind::CapturePattern(capture) => lower_capture(c, *capture),
        ExprKind::ArrayPattern(node) => match lower_array_pattern(deeper(c), *node, pat.span) {
            Ok(c) => Ok(shallower(c)),
            Err(u) => Err(u),
        },
        ExprKind::FindPattern(node) => match lower_find_pattern(deeper(c), *node) {
            Ok(c) => Ok(shallower(c)),
            Err(u) => Err(u),
        },
        ExprKind::HashPattern(node) => match lower_hash_pattern(deeper(c), *node, pat.span) {
            Ok(c) => Ok(shallower(c)),
            Err(u) => Err(u),
        },
        _ => match lower_expr(c, pat) {
            Ok(c) => Ok(c.emit(Insn::CaseEq)),
            Err(u) => Err(u),
        },
    }
}

/// `pattern => name`.
pub open spec fn lower_capture(c: Code, capture: CapturePattern) -> Lowered
    decreases capture, 0nat,
{
    match lower_pattern(c.emit(Insn::Dup), capture.value) {
        Err(u) => Err(u),
        Ok(c) => {
            let to_fail = c.here();
            let c = c.emit(Insn::JumpUnless(0));
            let held = c.depth;
            match lower_place(c, capture.target) {
                Err(u) => Err(u),
                Ok((c, place)) => {
                    let c = write_place(c, place).emit(Insn::PushTrue);
                    let to_end = c.here();
                    Ok(
                        c.emit(Insn::Jump(0)).patch_here(to_fail).at_depth(held).emit(
                            Insn::Pop,
                        ).emit(Insn::PushFalse).patch_here(to_end),
                    )
                },
            }
        },
    }
}

/// The class a compound pattern asks for, tested.
pub open spec fn lower_pattern_class(c: Code, constant: Option<Expr>, subject: u16) -> Result<
    (Code, Seq<usize>),
    Unsupported,
>
    decreases constant, 0nat,
{
    match constant {
        None => Ok((c, Seq::empty())),
        Some(constant) => match lower_expr(c.emit(Insn::GetLocal(subject, 0)), constant) {
            Ok(c) => {
                let c = c.emit(Insn::CaseEq);
                Ok((c.emit(Insn::JumpUnless(0)), seq![c.here() as usize]))
            },
            Err(u) => Err(u),
        },
    }
}

/// What `deconstruct` answers of the subject, in a local and on top. It is
/// asked once where there is a local that keeps it.
pub open spec fn deconstructed(c: Code, parts: u16, subject: u16, cache: Option<u16>) -> Code {
    match cache {
        None => c.emit(Insn::PushSelf).emit(Insn::GetLocal(subject, 0)).send(
            "__pattern_deconstruct__"@,
            1,
            true,
        ).emit(Insn::Dup).emit(Insn::SetLocal(parts, 0)),
        Some(cache) => {
            let before = c.depth;
            let c = c.emit(Insn::GetLocal(cache, 0));
            let hit = c.here();
            c.emit(Insn::JumpIfKeep(0)).emit(Insn::Pop).emit(Insn::PushSelf).emit(
                Insn::GetLocal(subject, 0),
            ).send("__pattern_deconstruct__"@, 1, true).emit(Insn::Dup).emit(
                Insn::SetLocal(cache, 0),
            ).patch_here(hit).at_depth(above(before)).emit(Insn::Dup).emit(
                Insn::SetLocal(parts, 0),
            )
        },
    }
}

/// The end of a compound pattern: it matched, or one of its tests failed.
pub open spec fn finish_pattern(c: Code, base: nat, fails: Seq<usize>) -> Code {
    let c = c.emit(Insn::PushTrue);
    let to_end = c.here();
    let c = c.emit(Insn::Jump(0));
    c.patch_all(fails, c.here()).at_depth(base).emit(Insn::PushFalse).patch_here(to_end)
}

/// What an array holds, in locals: the elements and how many there are.
pub open spec fn measured(c: Code, parts: u16, length: u16) -> Code {
    c.with_pattern_cache(None).emit(Insn::GetLocal(parts, 0)).send(
        "size"@,
        0,
        false,
    ).emit(Insn::SetLocal(length, 0))
}

/// `[a, *b, c]`.
pub open spec fn lower_array_pattern(c: Code, node: ArrayPattern, span: Span) -> Lowered
    decreases node, 0nat,
{
    let subject = pattern_slot(c, "subject"@);
    let c = with_pattern_slot(c, "subject"@);
    let parts = pattern_slot(c, "parts"@);
    let c = with_pattern_slot(c, "parts"@);
    let length = pattern_slot(c, "length"@);
    let c = with_pattern_slot(c, "length"@).emit(Insn::SetLocal(subject, 0));
    let base = c.depth;
    match lower_pattern_class(c, node.constant, subject) {
        Err(u) => Err(u),
        Ok((c, fails)) => {
            let cache = c.pattern_cache;
            let c = deconstructed(c, parts, subject, cache);
            let fails = fails.push(c.here() as usize);
            let c = measured(c.emit(Insn::JumpUnless(0)), parts, length);
            if node.requireds@.len() > WIDEST || node.posts@.len() > WIDEST {
                code::refused("an array pattern this wide", span)
            } else {
                let fixed = node.requireds@.len() + node.posts@.len();
                let c = c.emit(Insn::GetLocal(length, 0)).emit(Insn::PushInt(fixed as i64)).emit(
                    Insn::BinOp(
                        if node.rest is Some {
                            BinOp::Ge
                        } else {
                            BinOp::Eq
                        },
                    ),
                );
                let fails = fails.push(c.here() as usize);
                match lower_requireds(
                    c.emit(Insn::JumpUnless(0)),
                    node.requireds@,
                    0,
                    parts,
                    fails,
                ) {
                    Err(u) => Err(u),
                    Ok((c, fails)) => match lower_posts(
                        c,
                        node.posts@,
                        0,
                        parts,
                        length,
                        fails,
                    ) {
                        Err(u) => Err(u),
                        Ok((c, fails)) => {
                            let taken = match node.rest {
                                Some(rest) => match names::rest_local(rest) {
                                    Some((name, depth)) => write_local(
                                        c.emit(Insn::GetLocal(parts, 0)).emit(
                                            Insn::PushInt(node.requireds@.len() as i64),
                                        ).emit(Insn::GetLocal(length, 0)).emit(
                                            Insn::PushInt(fixed as i64),
                                        ).emit(Insn::BinOp(BinOp::Sub)).send(
                                            "__take__"@,
                                            2,
                                            false,
                                        ),
                                        name,
                                        depth,
                                        span,
                                    ),
                                    None => Ok(c),
                                },
                                None => Ok(c),
                            };
                            match taken {
                                Err(u) => Err(u),
                                Ok(c) => Ok(
                                    finish_pattern(
                                        c.with_pattern_cache(cache),
                                        base,
                                        fails,
                                    ),
                                ),
                            }
                        },
                    },
                }
            }
        },
    }
}

/// The elements an array pattern starts with.
pub open spec fn lower_requireds(
    c: Code,
    elements: Seq<Expr>,
    from: nat,
    parts: u16,
    fails: Seq<usize>,
) -> Result<(Code, Seq<usize>), Unsupported>
    decreases elements, elements.len() - from,
{
    if from >= elements.len() {
        Ok((c, fails))
    } else {
        match lower_pattern(
            c.emit(Insn::GetLocal(parts, 0)).emit(Insn::PushInt(from as i64)).send(
                "[]"@,
                1,
                false,
            ),
            elements[from as int],
        ) {
            Ok(c) => lower_requireds(
                c.emit(Insn::JumpUnless(0)),
                elements,
                from + 1,
                parts,
                fails.push(c.here() as usize),
            ),
            Err(u) => Err(u),
        }
    }
}

/// The elements an array pattern ends with, counted from the end.
pub open spec fn lower_posts(
    c: Code,
    elements: Seq<Expr>,
    from: nat,
    parts: u16,
    length: u16,
    fails: Seq<usize>,
) -> Result<(Code, Seq<usize>), Unsupported>
    decreases elements, elements.len() - from,
{
    if from >= elements.len() {
        Ok((c, fails))
    } else {
        match lower_pattern(
            c.emit(Insn::GetLocal(parts, 0)).emit(Insn::GetLocal(length, 0)).emit(
                Insn::PushInt((elements.len() - from) as i64),
            ).emit(Insn::BinOp(BinOp::Sub)).send("[]"@, 1, false),
            elements[from as int],
        ) {
            Ok(c) => lower_posts(
                c.emit(Insn::JumpUnless(0)),
                elements,
                from + 1,
                parts,
                length,
                fails.push(c.here() as usize),
            ),
            Err(u) => Err(u),
        }
    }
}

/// `[*, a, b, *]`: the elements are looked for at each place in turn.
pub open spec fn lower_find_pattern(c: Code, node: FindPattern) -> Lowered
    decreases node, 0nat,
{
    let subject = pattern_slot(c, "subject"@);
    let c = with_pattern_slot(c, "subject"@);
    let parts = pattern_slot(c, "parts"@);
    let c = with_pattern_slot(c, "parts"@);
    let length = pattern_slot(c, "length"@);
    let c = with_pattern_slot(c, "length"@);
    let cursor = pattern_slot(c, "cursor"@);
    let c = with_pattern_slot(c, "cursor"@).emit(Insn::SetLocal(subject, 0));
    let base = c.depth;
    match lower_pattern_class(c, node.constant, subject) {
        Err(u) => Err(u),
        Ok((c, fails)) => {
            let cache = c.pattern_cache;
            let c = deconstructed(c, parts, subject, cache);
            let fails = fails.push(c.here() as usize);
            let width = node.requireds@.len() as i64;
            let c = measured(c.emit(Insn::JumpUnless(0)), parts, length).emit(
                Insn::PushInt(0),
            ).emit(Insn::SetLocal(cursor, 0));
            let top = c.here();
            let c = past_cursor(c, cursor, width).emit(Insn::GetLocal(length, 0)).emit(
                Insn::BinOp(BinOp::Le),
            );
            let fails = fails.push(c.here() as usize);
            match lower_found(
                c.emit(Insn::JumpUnless(0)),
                node.requireds@,
                0,
                parts,
                cursor,
                Seq::empty(),
            ) {
                Err(u) => Err(u),
                Ok((c, retry)) => {
                    let before = match names::rest_local(node.left) {
                        Some((name, depth)) => write_local(
                            c.emit(Insn::GetLocal(parts, 0)).emit(Insn::PushInt(0)).emit(
                                Insn::GetLocal(cursor, 0),
                            ).send("__take__"@, 2, false),
                            name,
                            depth,
                            node.left.span,
                        ),
                        None => Ok(c),
                    };
                    match before {
                        Err(u) => Err(u),
                        Ok(c) => {
                            let after = match names::rest_local(node.right) {
                                Some((name, depth)) => write_local(
                                    past_cursor(
                                        past_cursor(
                                            c.emit(Insn::GetLocal(parts, 0)),
                                            cursor,
                                            width,
                                        ).emit(Insn::GetLocal(length, 0)),
                                        cursor,
                                        width,
                                    ).emit(Insn::BinOp(BinOp::Sub)).send("__take__"@, 2, false),
                                    name,
                                    depth,
                                    node.right.span,
                                ),
                                None => Ok(c),
                            };
                            match after {
                                Err(u) => Err(u),
                                Ok(c) => {
                                    let matched = c.here();
                                    let c = c.emit(Insn::Jump(0));
                                    let c = past_cursor(
                                        c.patch_all(retry, c.here()).at_depth(base),
                                        cursor,
                                        1,
                                    ).emit(Insn::SetLocal(cursor, 0));
                                    let c = c.emit(Insn::Jump(0)).patch(
                                        c.here(),
                                        top,
                                    ).patch_here(matched).at_depth(base);
                                    Ok(
                                        finish_pattern(
                                            c.with_pattern_cache(cache),
                                            base,
                                            fails,
                                        ),
                                    )
                                },
                            }
                        },
                    }
                },
            }
        },
    }
}

/// The place so far behind the cursor, pushed.
pub open spec fn past_cursor(c: Code, cursor: u16, width: i64) -> Code {
    c.emit(Insn::GetLocal(cursor, 0)).emit(Insn::PushInt(width)).emit(Insn::BinOp(BinOp::Add))
}

/// The elements a find pattern looks for, at the cursor.
pub open spec fn lower_found(
    c: Code,
    elements: Seq<Expr>,
    from: nat,
    parts: u16,
    cursor: u16,
    retry: Seq<usize>,
) -> Result<(Code, Seq<usize>), Unsupported>
    decreases elements, elements.len() - from,
{
    if from >= elements.len() {
        Ok((c, retry))
    } else {
        match lower_pattern(
            past_cursor(c.emit(Insn::GetLocal(parts, 0)), cursor, from as i64).send(
                "[]"@,
                1,
                false,
            ),
            elements[from as int],
        ) {
            Ok(c) => lower_found(
                c.emit(Insn::JumpUnless(0)),
                elements,
                from + 1,
                parts,
                cursor,
                retry.push(c.here() as usize),
            ),
            Err(u) => Err(u),
        }
    }
}

/// The key of an element of a hash pattern.
pub open spec fn pattern_key_of(entry: HashEntry) -> Result<Seq<char>, Unsupported> {
    match entry.kind {
        HashEntryKind::Splat(_) => code::refused("a splat in a hash pattern", entry.span),
        HashEntryKind::Pair { key, value: _ } => match key.kind {
            ExprKind::Sym(parts) => if !names::all_bytes(parts@) {
                code::refused("an interpolated key in a pattern", key.span)
            } else if !utf8::valid_utf8(names::joined(parts@)) {
                code::refused("a key that is not UTF-8", key.span)
            } else {
                Ok(utf8::decode_utf8(names::joined(parts@)))
            },
            _ => code::refused("a non-symbol key in a pattern", key.span),
        },
    }
}

/// The keys of a hash pattern, in the pool.
pub open spec fn pattern_keys(
    c: Code,
    elements: Seq<HashEntry>,
    from: nat,
    keys: Seq<u32>,
) -> Result<(Code, Seq<u32>), Unsupported>
    decreases elements.len() - from,
{
    if from >= elements.len() {
        Ok((c, keys))
    } else {
        match pattern_key_of(elements[from as int]) {
            Ok(key) => pattern_keys(
                c.symbol(key),
                elements,
                from + 1,
                keys.push(c.symbol_at(key)),
            ),
            Err(u) => Err(u),
        }
    }
}

/// Several symbols, pushed.
pub open spec fn push_symbols(c: Code, symbols: Seq<u32>, from: nat) -> Code
    decreases symbols.len() - from,
{
    if from >= symbols.len() {
        c
    } else {
        push_symbols(c.emit(Insn::PushSym(symbols[from as int])), symbols, from + 1)
    }
}

/// How many pairs there are, compared.
pub open spec fn sized(c: Code, pairs: u16, count: i64) -> Code {
    c.emit(Insn::GetLocal(pairs, 0)).send("size"@, 0, false).emit(Insn::PushInt(count)).emit(
        Insn::BinOp(BinOp::Eq),
    )
}

/// `{a:, **rest}`.
pub open spec fn lower_hash_pattern(c: Code, node: HashPattern, span: Span) -> Lowered
    decreases node, 0nat,
{
    let subject = pattern_slot(c, "subject"@);
    let c = with_pattern_slot(c, "subject"@);
    let pairs = pattern_slot(c, "pairs"@);
    let c = with_pattern_slot(c, "pairs"@).emit(Insn::SetLocal(subject, 0));
    let base = c.depth;
    match lower_pattern_class(c, node.constant, subject) {
        Err(u) => Err(u),
        Ok((c, fails)) => match pattern_keys(c, node.elements@, 0, Seq::empty()) {
            Err(u) => Err(u),
            Ok((c, keys)) => {
                let c = c.emit(Insn::PushSelf).emit(Insn::GetLocal(subject, 0));
                let all = node.rest matches Some(PatternRest::Splat(_));
                if !all && keys.len() > u32::MAX {
                    code::refused("a hash pattern this wide", span)
                } else {
                    let c = if all {
                        c.emit(Insn::PushNil)
                    } else {
                        push_symbols(c, keys, 0).emit(Insn::NewArray(keys.len() as u32))
                    };
                    let c = c.send("__pattern_deconstruct_keys__"@, 2, true).emit(
                        Insn::Dup,
                    ).emit(Insn::SetLocal(pairs, 0));
                    let fails = fails.push(c.here() as usize);
                    let cache = c.pattern_cache;
                    let c = c.emit(Insn::JumpUnless(0)).with_pattern_cache(None);
                    match lower_pairs(c, node.elements@, 0, keys, pairs, fails) {
                        Err(u) => Err(u),
                        Ok((c, fails)) => match lower_pattern_rest(
                            c,
                            node,
                            keys,
                            pairs,
                            fails,
                            span,
                        ) {
                            Err(u) => Err(u),
                            Ok((c, fails)) => Ok(
                                finish_pattern(
                                    c.with_pattern_cache(cache),
                                    base,
                                    fails,
                                ),
                            ),
                        },
                    }
                }
            },
        },
    }
}

/// Whether a key is there, and what is done where it is not: the form that
/// reports the key records it.
pub open spec fn key_tested(c: Code, key: u32, pairs: u16, fails: Seq<usize>) -> (Code, Seq<usize>) {
    let c = c.emit(Insn::GetLocal(pairs, 0)).emit(Insn::PushSym(key)).send("key?"@, 1, false);
    match c.pattern_key {
        None => (c.emit(Insn::JumpUnless(0)), fails.push(c.here() as usize)),
        Some(slot) => {
            let found = c.here();
            let c = c.emit(Insn::JumpIf(0));
            let missed = c.depth;
            let c = c.emit(Insn::PushSym(key)).emit(Insn::SetLocal(slot, 0));
            (
                c.emit(Insn::Jump(0)).patch_here(found).at_depth(missed),
                fails.push(c.here() as usize),
            )
        },
    }
}

/// The elements of a hash pattern.
pub open spec fn lower_pairs(
    c: Code,
    elements: Seq<HashEntry>,
    from: nat,
    keys: Seq<u32>,
    pairs: u16,
    fails: Seq<usize>,
) -> Result<(Code, Seq<usize>), Unsupported>
    decreases elements, elements.len() - from,
{
    if from >= elements.len() {
        Ok((c, fails))
    } else {
        match elements[from as int].kind {
            HashEntryKind::Pair { key: _, value } => {
                let key = keys[from as int];
                let (c, fails) = key_tested(c, key, pairs, fails);
                let c = c.emit(Insn::GetLocal(pairs, 0)).emit(Insn::PushSym(key)).send(
                    "[]"@,
                    1,
                    false,
                );
                let matched = match value.kind {
                    ExprKind::Implicit(inner) => lower_pattern(c, *inner),
                    _ => lower_pattern(c, value),
                };
                match matched {
                    Ok(c) => lower_pairs(
                        c.emit(Insn::JumpUnless(0)),
                        elements,
                        from + 1,
                        keys,
                        pairs,
                        fails.push(c.here() as usize),
                    ),
                    Err(u) => Err(u),
                }
            },
            HashEntryKind::Splat(_) => Ok((c, fails)),
        }
    }
}

/// What a hash pattern asks of the pairs it does not name.
pub open spec fn lower_pattern_rest(
    c: Code,
    node: HashPattern,
    keys: Seq<u32>,
    pairs: u16,
    fails: Seq<usize>,
    span: Span,
) -> Result<(Code, Seq<usize>), Unsupported> {
    match node.rest {
        Some(PatternRest::Forbidden) => {
            let c = sized(c, pairs, keys.len() as i64);
            Ok((c.emit(Insn::JumpUnless(0)), fails.push(c.here() as usize)))
        },
        Some(PatternRest::Splat(Some(target))) => {
            let c = push_symbols(
                c.emit(Insn::PushSelf).emit(Insn::GetLocal(pairs, 0)),
                keys,
                0,
            ).emit(Insn::NewArray(keys.len() as u32)).send("__pattern_rest__"@, 2, true);
            match names::rest_local(target) {
                Some((name, depth)) => match write_local(c, name, depth, span) {
                    Ok(c) => Ok((c, fails)),
                    Err(u) => Err(u),
                },
                None => Ok((c.emit(Insn::Pop), fails)),
            }
        },
        Some(PatternRest::Splat(None)) => Ok((c, fails)),
        None => if node.elements@.len() == 0 {
            let c = sized(c, pairs, 0);
            Ok((c.emit(Insn::JumpUnless(0)), fails.push(c.here() as usize)))
        } else {
            Ok((c, fails))
        },
    }
}

} // verus!
