//! Assignment.

use vstd::prelude::*;

use crate::ast::{
    Assign, AssignOp, ConstPath, Expr, ExprKind, MultiTarget, Span, Target, TargetKind, VarRef,
};
use crate::bytecode;
use crate::bytecode::{BinOp, ConstScope, Insn};
use crate::compile::code;
use crate::compile::code::{Code, Compiler, Jump, Unsupported};
use crate::compile::expr;
use crate::compile::expr::more;
use crate::compile::lower;
use crate::compile::lower::{Place, WIDEST};
use crate::compile::names;
use crate::text;

verus! {

/// Where an assignment writes.
pub enum Slot {
    /// A slot, with the environments up to it.
    Local(u16, u16),
    Ivar(u32),
    Global(u32),
    /// A pair of calls.
    Send { receiver: u16, args: Vec<u16>, get: String },
}

impl View for Slot {
    type V = Place;

    open spec fn view(&self) -> Place {
        match self {
            Slot::Local(slot, up) => Place::Local(*slot, *up),
            Slot::Ivar(symbol) => Place::Ivar(*symbol),
            Slot::Global(symbol) => Place::Global(*symbol),
            Slot::Send { receiver, args, get } => Place::Send {
                receiver: *receiver,
                args: args@,
                get: get@,
            },
        }
    }
}

/// Several prepared places.
pub open spec fn places(slots: Seq<Option<Slot>>) -> Seq<Option<Place>> {
    slots.map_values(
        |slot: Option<Slot>|
            match slot {
                Some(slot) => Some(slot@),
                None => None,
            },
    )
}

/// The operator with a name.
pub(crate) fn find_operator(name: &str) -> (r: Option<BinOp>)
    ensures
        r == lower::operator(name@),
{
    let found = BinOp::from_name(name);
    proof {
        match found {
            Some(op) => {
                assert(op.text() == name@);
                let other = choose|op: BinOp| #[trigger] op.text() == name@;
                bytecode::law_operator_names_are_distinct(op, other);
            },
            None => {},
        }
    }
    found
}

impl Compiler {
    /// Several locals of this scope, pushed.
    fn push_locals(&mut self, slots: &Vec<u16>)
        ensures
            final(self)@ == lower::push_locals(old(self)@, slots@, 0),
            expr::tidied(old(self)@, final(self)@, true),
    {
        let ghost c = self@;
        let mut i: usize = 0;
        while i < slots.len()
            invariant
                i <= slots.len(),
                expr::tidied(c, self@, true),
                lower::push_locals(self@, slots@, i as nat) == lower::push_locals(c, slots@, 0),
            decreases slots.len() - i,
        {
            self.emit(Insn::GetLocal(slots[i], 0));
            i += 1;
        }
    }

    /// Push what a place holds.
    fn emit_get(&mut self, slot: &Slot)
        ensures
            final(self)@ == lower::read_place(old(self)@, slot@),
            expr::tidied(old(self)@, final(self)@, true),
    {
        match slot {
            Slot::Local(slot, up) => self.emit(Insn::GetLocal(*slot, *up)),
            Slot::Ivar(symbol) => self.emit(Insn::GetIvar(*symbol)),
            Slot::Global(symbol) => self.emit(Insn::GetGlobal(*symbol)),
            Slot::Send { receiver, args, get } => {
                self.emit(Insn::GetLocal(*receiver, 0));
                self.push_locals(args);
                let given: usize = args.len();
                #[verifier::truncate]
                let argc: u16 = given as u16;
                self.emit_send(get.as_str(), argc);
            },
        }
    }

    /// Write what is on top to a place.
    pub(crate) fn emit_set(&mut self, slot: &Slot)
        ensures
            final(self)@ == lower::write_place(old(self)@, slot@),
            expr::tidied(old(self)@, final(self)@, true),
    {
        match slot {
            Slot::Local(slot, up) => self.emit(Insn::SetLocal(*slot, *up)),
            Slot::Ivar(symbol) => self.emit(Insn::SetIvar(*symbol)),
            Slot::Global(symbol) => self.emit(Insn::SetGlobal(*symbol)),
            Slot::Send { receiver, args, get } => {
                let parked = self.hidden_slot("%val");
                self.emit(Insn::SetLocal(parked, 0));
                self.emit(Insn::GetLocal(*receiver, 0));
                self.push_locals(args);
                self.emit(Insn::GetLocal(parked, 0));
                let given: usize = args.len();
                #[verifier::truncate]
                let argc: u16 = given as u16;
                let set = text::join(get.as_str(), "=");
                self.emit_send(set.as_str(), more(argc));
                self.emit(Insn::Pop);
            },
        }
    }

    /// Put an expression away in a hidden local.
    fn park(&mut self, expr: &Expr) -> (r: Result<u16, Unsupported>)
        ensures
            match r {
                Ok(slot) => lower::lower_parked(old(self)@, *expr) == Ok::<
                    (Code, u16),
                    Unsupported,
                >((final(self)@, slot)),
                Err(u) => lower::lower_parked(old(self)@, *expr) == Err::<
                    (Code, u16),
                    Unsupported,
                >(u),
            },
            expr::tidied(old(self)@, final(self)@, r is Ok),
        decreases *expr, 1nat,
    {
        if let Err(u) = self.expr(expr) {
            return Err(u);
        }
        let slot = self.hidden_slot("%idx");
        self.emit(Insn::SetLocal(slot, 0));
        Ok(slot)
    }

    /// Put the arguments of an index away.
    fn park_args(&mut self, args: &Vec<Expr>, span: Span) -> (r: Result<Vec<u16>, Unsupported>)
        ensures
            match r {
                Ok(slots) => lower::lower_parked_args(
                    old(self)@,
                    args@,
                    0,
                    Seq::empty(),
                    span,
                ) == Ok::<(Code, Seq<u16>), Unsupported>((final(self)@, slots@)),
                Err(u) => lower::lower_parked_args(old(self)@, args@, 0, Seq::empty(), span)
                    == Err::<(Code, Seq<u16>), Unsupported>(u),
            },
            expr::tidied(old(self)@, final(self)@, r is Ok),
        decreases *args, 0nat,
    {
        let ghost c = self@;
        let mut slots: Vec<u16> = Vec::new();
        assert(slots@ =~= Seq::empty());
        let mut i: usize = 0;
        while i < args.len()
            invariant
                i <= args.len(),
                c == old(self)@,
                expr::tidied(c, self@, true),
                lower::lower_parked_args(self@, args@, i as nat, slots@, span)
                    == lower::lower_parked_args(c, args@, 0, Seq::empty(), span),
            decreases args.len() - i,
        {
            match &args[i].kind {
                ExprKind::Splat(_) => {
                    return code::refuse("a splat or keyword in an index target", span);
                },
                ExprKind::Hash(_) => {
                    return code::refuse("a splat or keyword in an index target", span);
                },
                _ => {},
            }
            let slot = match self.park(&args[i]) {
                Ok(v) => v,
                Err(u) => {
                    return Err(u);
                },
            };
            slots.push(slot);
            i += 1;
        }
        Ok(slots)
    }

    /// The place a target names, made ready to be written.
    pub(crate) fn target_slot(&mut self, target: &Target) -> (r: Result<Slot, Unsupported>)
        ensures
            match r {
                Ok(slot) => lower::lower_place(old(self)@, *target) == Ok::<
                    (Code, Place),
                    Unsupported,
                >((final(self)@, slot@)),
                Err(u) => lower::lower_place(old(self)@, *target) == Err::<
                    (Code, Place),
                    Unsupported,
                >(u),
            },
            expr::tidied(old(self)@, final(self)@, r is Ok),
        decreases *target, 1nat,
    {
        match &target.kind {
            TargetKind::Var(var) => match var {
                VarRef::Local { name, depth } => {
                    let (slot, up) = match self.outer_slot(name.as_str(), *depth, target.span) {
                        Ok(v) => v,
                        Err(u) => {
                            return Err(u);
                        },
                    };
                    Ok(Slot::Local(slot, up))
                },
                VarRef::Instance(name) => Ok(Slot::Ivar(self.symbol(name.as_str()))),
                VarRef::Class(_) => code::refuse("assigning a class variable", target.span),
                VarRef::Global(name) => {
                    if expr::is_errinfo(name) {
                        return code::refuse("assigning `$!`, which Ruby rejects", target.span);
                    }
                    if names::match_ref(name.as_str()).is_some() {
                        return code::refuse(
                            "assigning this regexp special variable",
                            target.span,
                        );
                    }
                    Ok(Slot::Global(self.symbol(name.as_str())))
                },
                _ => code::refuse("assigning a constant", target.span),
            },
            TargetKind::ConstPath(_) => code::refuse("assigning a constant", target.span),
            TargetKind::Call(call) => {
                if call.safe_nav {
                    return code::refuse("a safe-navigation call", target.span);
                }
                let receiver = match self.park(&call.receiver) {
                    Ok(v) => v,
                    Err(u) => {
                        return Err(u);
                    },
                };
                let args: Vec<u16> = Vec::new();
                assert(args@ =~= Seq::empty());
                Ok(Slot::Send { receiver, args, get: call.name.as_str().to_owned() })
            },
            TargetKind::Index(index) => {
                if index.block {
                    return code::refuse("a block on an index target", target.span);
                }
                if index.args.len() >= u16::MAX as usize {
                    return code::refuse("an index target this wide", target.span);
                }
                let receiver = match self.park(&index.receiver) {
                    Ok(v) => v,
                    Err(u) => {
                        return Err(u);
                    },
                };
                let args = match self.park_args(&index.args, target.span) {
                    Ok(v) => v,
                    Err(u) => {
                        return Err(u);
                    },
                };
                Ok(Slot::Send { receiver, args, get: "[]".to_owned() })
            },
            TargetKind::Multi(_) => code::refuse("a multiple assignment", target.span),
            TargetKind::Splat(_) => code::refuse("a multiple assignment", target.span),
        }
    }

    /// A path to a constant: its symbol, and how it is looked up.
    pub(crate) fn const_path(&mut self, path: &ConstPath, span: Span) -> (r: Result<
        (u32, ConstScope),
        Unsupported,
    >)
        ensures
            match r {
                Ok((symbol, how)) => lower::lower_const_path(old(self)@, *path, span) == Ok::<
                    (Code, u32, ConstScope),
                    Unsupported,
                >((final(self)@, symbol, how)),
                Err(u) => lower::lower_const_path(old(self)@, *path, span) == Err::<
                    (Code, u32, ConstScope),
                    Unsupported,
                >(u),
            },
            expr::tidied(old(self)@, final(self)@, r is Ok),
        decreases *path, 0nat,
    {
        match &path.name {
            None => code::refuse("a syntax error", span),
            Some(name) => match &path.parent {
                Some(parent) => {
                    if let Err(u) = self.expr(parent) {
                        return Err(u);
                    }
                    Ok((self.symbol(name.as_str()), ConstScope::Qualified))
                },
                None => Ok((self.symbol(name.as_str()), ConstScope::Top)),
            },
        }
    }

    /// Whether a target is a constant.
    pub(crate) fn is_const_target(target: &Target) -> (r: bool)
        ensures
            r == lower::names_constant(*target),
    {
        match &target.kind {
            TargetKind::ConstPath(_) => true,
            TargetKind::Var(VarRef::Const(_)) => true,
            _ => false,
        }
    }

    /// A target that is a constant.
    pub(crate) fn const_target(&mut self, target: &Target) -> (r: Result<
        (u32, ConstScope),
        Unsupported,
    >)
        ensures
            match r {
                Ok((symbol, how)) => lower::lower_const_target(old(self)@, *target) == Ok::<
                    (Code, u32, ConstScope),
                    Unsupported,
                >((final(self)@, symbol, how)),
                Err(u) => lower::lower_const_target(old(self)@, *target) == Err::<
                    (Code, u32, ConstScope),
                    Unsupported,
                >(u),
            },
            expr::tidied(old(self)@, final(self)@, r is Ok),
        decreases *target, 1nat,
    {
        match &target.kind {
            TargetKind::Var(VarRef::Const(name)) => Ok(
                (self.symbol(name.as_str()), ConstScope::Lexical),
            ),
            TargetKind::ConstPath(path) => self.const_path(path, target.span),
            _ => code::refuse("a dynamic class name", target.span),
        }
    }

    /// An assignment.
    pub(crate) fn assign(&mut self, assign: &Assign, span: Span) -> (r: Result<(), Unsupported>)
        ensures
            expr::done(r, final(self)@, lower::lower_assign(old(self)@, *assign, span)),
            expr::tidied(old(self)@, final(self)@, r is Ok),
        decreases *assign, 1nat,
    {
        let plain = match &assign.op {
            AssignOp::Assign => true,
            _ => false,
        };
        if Compiler::is_const_target(&assign.target) {
            let (name, how) = match self.const_target(&assign.target) {
                Ok(v) => v,
                Err(u) => {
                    return Err(u);
                },
            };
            if !plain {
                return code::refuse("a compound constant assignment", span);
            }
            if let Err(u) = self.expr(&assign.value) {
                return Err(u);
            }
            self.emit(Insn::SetConst(name, how));
            return Ok(());
        }
        if let TargetKind::Multi(_) = &assign.target.kind {
            if !plain {
                return code::refuse("a compound multiple assignment", span);
            }
            return self.multi_assign(assign, span);
        }
        let slot = match self.target_slot(&assign.target) {
            Ok(v) => v,
            Err(u) => {
                return Err(u);
            },
        };
        match &assign.op {
            AssignOp::Assign => {
                if let Err(u) = self.expr(&assign.value) {
                    return Err(u);
                }
                self.emit(Insn::Dup);
                self.emit_set(&slot);
                Ok(())
            },
            AssignOp::Binary(name) => match find_operator(name.as_str()) {
                None => code::refuse("this compound assignment operator", span),
                Some(op) => {
                    self.emit_get(&slot);
                    if let Err(u) = self.expr(&assign.value) {
                        return Err(u);
                    }
                    self.emit(Insn::BinOp(op));
                    self.emit(Insn::Dup);
                    self.emit_set(&slot);
                    Ok(())
                },
            },
            AssignOp::Or => self.assign_unless(assign, &slot, Jump::IfKeep),
            AssignOp::And => self.assign_unless(assign, &slot, Jump::UnlessKeep),
        }
    }

    /// An assignment that is skipped where the value that is there says so.
    fn assign_unless(&mut self, assign: &Assign, slot: &Slot, keep: Jump) -> (r: Result<
        (),
        Unsupported,
    >)
        ensures
            ({
                let c = lower::read_place(old(self)@, slot@);
                let said = match lower::lower_expr(
                    c.emit(keep.over(0)).emit(Insn::Pop),
                    assign.value,
                ) {
                    Ok(after) => Ok::<Code, Unsupported>(
                        lower::write_place(after.emit(Insn::Dup), slot@).patch_here(c.here()),
                    ),
                    Err(u) => Err::<Code, Unsupported>(u),
                };
                expr::done(r, final(self)@, said)
            }),
            expr::tidied(old(self)@, final(self)@, r is Ok),
        decreases *assign, 0nat,
    {
        self.emit_get(slot);
        let skip = self.emit_jump(keep);
        self.emit(Insn::Pop);
        if let Err(u) = self.expr(&assign.value) {
            return Err(u);
        }
        self.emit(Insn::Dup);
        self.emit_set(slot);
        self.patch_here(skip);
        Ok(())
    }

    /// What is on top, as an array that a multiple assignment takes apart.
    pub(crate) fn masgn_array(&mut self)
        ensures
            final(self)@ == lower::masgn_array(old(self)@),
            expr::tidied(old(self)@, final(self)@, true),
    {
        let slot = self.hidden_slot("%masgn");
        self.emit(Insn::SetLocal(slot, 0));
        self.push_const_name("Array");
        self.emit(Insn::GetLocal(slot, 0));
        self.emit_send("__masgn_array__", 1);
    }

    /// A multiple assignment.
    fn multi_assign(&mut self, assign: &Assign, span: Span) -> (r: Result<(), Unsupported>)
        ensures
            expr::done(r, final(self)@, lower::lower_multi_assign(old(self)@, *assign, span)),
            expr::tidied(old(self)@, final(self)@, r is Ok),
        decreases *assign, 0nat,
    {
        match &assign.target.kind {
            TargetKind::Multi(multi) => {
                let mut prepared: Vec<Option<Slot>> = Vec::new();
                assert(places(prepared@) =~= Seq::empty());
                if let Err(u) = self.prepare_multi(multi, &mut prepared) {
                    return Err(u);
                }
                if let Err(u) = self.expr(&assign.value) {
                    return Err(u);
                }
                self.emit(Insn::Dup);
                match &assign.value.kind {
                    ExprKind::Array(_) => {},
                    _ => self.masgn_array(),
                }
                let _ = match self.spread_into(multi, &prepared, 0, span) {
                    Ok(v) => v,
                    Err(u) => {
                        return Err(u);
                    },
                };
                self.emit(Insn::Pop);
                Ok(())
            },
            _ => Ok(()),
        }
    }

    /// Make the places of a multiple assignment ready.
    pub(crate) fn prepare_multi(&mut self, multi: &MultiTarget, out: &mut Vec<Option<Slot>>) -> (r:
        Result<(), Unsupported>)
        ensures
            match r {
                Ok(_) => lower::lower_prepared(old(self)@, *multi, places(old(out)@)) == Ok::<
                    (Code, Seq<Option<Place>>),
                    Unsupported,
                >((final(self)@, places(final(out)@))),
                Err(u) => lower::lower_prepared(old(self)@, *multi, places(old(out)@)) == Err::<
                    (Code, Seq<Option<Place>>),
                    Unsupported,
                >(u),
            },
            expr::tidied(old(self)@, final(self)@, r is Ok),
        decreases *multi, 1nat,
    {
        if let Err(u) = self.prepare_all(&multi.lefts, out) {
            return Err(u);
        }
        if let Some(rest) = &multi.rest {
            match &rest.kind {
                TargetKind::Splat(Some(inner)) => {
                    if let Err(u) = self.prepare_target(inner, out) {
                        return Err(u);
                    }
                },
                TargetKind::Splat(None) => {},
                _ => {
                    if let Err(u) = self.prepare_target(rest, out) {
                        return Err(u);
                    }
                },
            }
        }
        self.prepare_all(&multi.rights, out)
    }

    /// Make several targets ready.
    fn prepare_all(&mut self, targets: &Vec<Target>, out: &mut Vec<Option<Slot>>) -> (r: Result<
        (),
        Unsupported,
    >)
        ensures
            match r {
                Ok(_) => lower::lower_prepared_all(old(self)@, targets@, 0, places(old(out)@))
                    == Ok::<(Code, Seq<Option<Place>>), Unsupported>(
                    (final(self)@, places(final(out)@)),
                ),
                Err(u) => lower::lower_prepared_all(old(self)@, targets@, 0, places(old(out)@))
                    == Err::<(Code, Seq<Option<Place>>), Unsupported>(u),
            },
            expr::tidied(old(self)@, final(self)@, r is Ok),
        decreases *targets, 0nat,
    {
        let ghost c = self@;
        let ghost was = places(out@);
        let mut i: usize = 0;
        while i < targets.len()
            invariant
                i <= targets.len(),
                c == old(self)@,
                was == places(old(out)@),
                expr::tidied(c, self@, true),
                lower::lower_prepared_all(self@, targets@, i as nat, places(out@))
                    == lower::lower_prepared_all(c, targets@, 0, was),
            decreases targets.len() - i,
        {
            if let Err(u) = self.prepare_target(&targets[i], out) {
                return Err(u);
            }
            i += 1;
        }
        Ok(())
    }

    /// Make a target ready. A constant has nothing to evaluate first.
    fn prepare_target(&mut self, target: &Target, out: &mut Vec<Option<Slot>>) -> (r: Result<
        (),
        Unsupported,
    >)
        ensures
            match r {
                Ok(_) => lower::lower_prepared_one(old(self)@, *target, places(old(out)@)) == Ok::<
                    (Code, Seq<Option<Place>>),
                    Unsupported,
                >((final(self)@, places(final(out)@))),
                Err(u) => lower::lower_prepared_one(old(self)@, *target, places(old(out)@))
                    == Err::<(Code, Seq<Option<Place>>), Unsupported>(u),
            },
            expr::tidied(old(self)@, final(self)@, r is Ok),
        decreases *target, 2nat,
    {
        let ghost was = out@;
        if Compiler::is_const_target(target) {
            out.push(None);
            assert(places(out@) =~= places(was).push(None));
            return Ok(());
        }
        match &target.kind {
            TargetKind::Multi(inner) => {
                out.push(None);
                assert(places(out@) =~= places(was).push(None));
                self.prepare_multi(inner, out)
            },
            _ => {
                let slot = match self.target_slot(target) {
                    Ok(v) => v,
                    Err(u) => {
                        return Err(u);
                    },
                };
                let ghost place = slot@;
                out.push(Some(slot));
                assert(places(out@) =~= places(was).push(Some(place)));
                Ok(())
            },
        }
    }

    /// Take the array on top apart into the targets.
    pub(crate) fn spread_into(
        &mut self,
        multi: &MultiTarget,
        prepared: &Vec<Option<Slot>>,
        used: usize,
        span: Span,
    ) -> (r: Result<usize, Unsupported>)
        requires
            used <= prepared@.len(),
        ensures
            match r {
                Ok(now) => now <= prepared@.len() && lower::lower_spread(
                    old(self)@,
                    *multi,
                    places(prepared@),
                    used as nat,
                    span,
                ) == Ok::<(Code, nat), Unsupported>((final(self)@, now as nat)),
                Err(u) => lower::lower_spread(
                    old(self)@,
                    *multi,
                    places(prepared@),
                    used as nat,
                    span,
                ) == Err::<(Code, nat), Unsupported>(u),
            },
            expr::tidied(old(self)@, final(self)@, r is Ok),
        decreases *multi, 1nat,
    {
        let lefts: usize = multi.lefts.len();
        let rights: usize = multi.rights.len();
        if lefts as u64 > WIDEST || rights as u64 > WIDEST {
            return code::refuse("a multiple assignment this wide", span);
        }
        self.emit(Insn::Dup);
        self.emit(Insn::PushInt(lefts as i64));
        if multi.rest.is_some() {
            self.emit(Insn::PushTrue);
        } else {
            self.emit(Insn::PushFalse);
        }
        self.emit(Insn::PushInt(rights as i64));
        self.emit_send("__masgn_spread__", 3);
        let mut now = match self.spread_all(&multi.lefts, 0, prepared, used, span) {
            Ok(v) => v,
            Err(u) => {
                return Err(u);
            },
        };
        let mut index: i64 = lefts as i64;
        if let Some(rest) = &multi.rest {
            match &rest.kind {
                TargetKind::Splat(Some(inner)) => {
                    now = match self.assign_from_spread(index, inner, prepared, now, span) {
                        Ok(v) => v,
                        Err(u) => {
                            return Err(u);
                        },
                    };
                },
                TargetKind::Splat(None) => {},
                _ => {
                    now = match self.assign_from_spread(index, rest, prepared, now, span) {
                        Ok(v) => v,
                        Err(u) => {
                            return Err(u);
                        },
                    };
                },
            }
            index = index + 1;
        }
        now = match self.spread_all(&multi.rights, index, prepared, now, span) {
            Ok(v) => v,
            Err(u) => {
                return Err(u);
            },
        };
        self.emit(Insn::Pop);
        Ok(now)
    }

    /// Assign several targets, each from its place in the array on top.
    fn spread_all(
        &mut self,
        targets: &Vec<Target>,
        index: i64,
        prepared: &Vec<Option<Slot>>,
        used: usize,
        span: Span,
    ) -> (r: Result<usize, Unsupported>)
        requires
            used <= prepared@.len(),
            targets@.len() <= WIDEST,
            0 <= index <= WIDEST + 1,
        ensures
            match r {
                Ok(now) => now <= prepared@.len() && lower::lower_spread_all(
                    old(self)@,
                    targets@,
                    0,
                    index as int,
                    places(prepared@),
                    used as nat,
                    span,
                ) == Ok::<(Code, nat), Unsupported>((final(self)@, now as nat)),
                Err(u) => lower::lower_spread_all(
                    old(self)@,
                    targets@,
                    0,
                    index as int,
                    places(prepared@),
                    used as nat,
                    span,
                ) == Err::<(Code, nat), Unsupported>(u),
            },
            expr::tidied(old(self)@, final(self)@, r is Ok),
        decreases *targets, 0nat,
    {
        let ghost c = self@;
        let ghost all = places(prepared@);
        let mut now: usize = used;
        let mut at: i64 = index;
        let mut i: usize = 0;
        while i < targets.len()
            invariant
                i <= targets.len(),
                targets@.len() <= WIDEST,
                0 <= index <= WIDEST + 1,
                at == index + i,
                now <= prepared@.len(),
                c == old(self)@,
                all == places(prepared@),
                expr::tidied(c, self@, true),
                lower::lower_spread_all(
                    self@,
                    targets@,
                    i as nat,
                    at as int,
                    all,
                    now as nat,
                    span,
                ) == lower::lower_spread_all(
                    c,
                    targets@,
                    0,
                    index as int,
                    all,
                    used as nat,
                    span,
                ),
            decreases targets.len() - i,
        {
            now = match self.assign_from_spread(at, &targets[i], prepared, now, span) {
                Ok(v) => v,
                Err(u) => {
                    return Err(u);
                },
            };
            i += 1;
            at = at + 1;
        }
        Ok(now)
    }

    /// Assign a target from its place in the array on top.
    fn assign_from_spread(
        &mut self,
        index: i64,
        target: &Target,
        prepared: &Vec<Option<Slot>>,
        used: usize,
        span: Span,
    ) -> (r: Result<usize, Unsupported>)
        requires
            used <= prepared@.len(),
        ensures
            match r {
                Ok(now) => now <= prepared@.len() && lower::lower_spread_one(
                    old(self)@,
                    index as int,
                    *target,
                    places(prepared@),
                    used as nat,
                    span,
                ) == Ok::<(Code, nat), Unsupported>((final(self)@, now as nat)),
                Err(u) => lower::lower_spread_one(
                    old(self)@,
                    index as int,
                    *target,
                    places(prepared@),
                    used as nat,
                    span,
                ) == Err::<(Code, nat), Unsupported>(u),
            },
            expr::tidied(old(self)@, final(self)@, r is Ok),
        decreases *target, 2nat,
    {
        self.emit(Insn::Dup);
        self.emit(Insn::PushInt(index));
        self.emit_send("[]", 1);
        if used >= prepared.len() {
            return code::refuse("a multiple assignment", span);
        }
        if Compiler::is_const_target(target) {
            let (name, how) = match self.const_target(target) {
                Ok(v) => v,
                Err(u) => {
                    return Err(u);
                },
            };
            self.emit(Insn::SetConst(name, how));
            self.emit(Insn::Pop);
            return Ok(used + 1);
        }
        match &target.kind {
            TargetKind::Multi(inner) => {
                self.masgn_array();
                let now = match self.spread_into(inner, prepared, used + 1, span) {
                    Ok(v) => v,
                    Err(u) => {
                        return Err(u);
                    },
                };
                self.emit(Insn::Pop);
                Ok(now)
            },
            _ => match &prepared[used] {
                Some(slot) => {
                    self.emit_set(slot);
                    Ok(used + 1)
                },
                None => code::refuse("a multiple assignment", span),
            },
        }
    }
}

} // verus!
