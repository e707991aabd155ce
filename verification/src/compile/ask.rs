//! `defined?`.

use vstd::prelude::*;

use crate::ast::{Call, Expr, ExprKind, Span, VarRef};
use crate::bytecode::{CatchEntry, CatchKind, ConstScope, Insn, MatchRef};
use crate::compile::code;
use crate::compile::code::{Code, Compiler, Jump, Unsupported};
use crate::compile::expr;
use crate::compile::expr::{above, below};
use crate::compile::lower;
use crate::compile::names;

verus! {

/// A protected range.
pub(crate) fn protected(kind: CatchKind, start: usize, end: usize, target: usize, depth: usize) -> (r:
    CatchEntry)
    ensures
        r == lower::protected(kind, start as nat, end as nat, target as nat, depth as nat),
{
    #[verifier::truncate]
    let start: u32 = start as u32;
    #[verifier::truncate]
    let end: u32 = end as u32;
    #[verifier::truncate]
    let target: u32 = target as u32;
    #[verifier::truncate]
    let stack_depth: u32 = depth as u32;
    CatchEntry { kind, start, end, target, stack_depth }
}

impl Compiler {
    /// `defined?`.
    pub(crate) fn swallowing(&mut self, inner: &Expr, span: Span) -> (r: Result<(), Unsupported>)
        ensures
            expr::done(r, final(self)@, lower::lower_swallowing(old(self)@, *inner, span)),
            expr::tidied(old(self)@, final(self)@, r is Ok),
        decreases *inner, 2nat,
    {
        let base: usize = self.depth();
        let start: usize = self.here();
        if let Err(u) = self.defined(inner, span) {
            return Err(u);
        }
        let done = self.emit_jump(Jump::Always);
        let handler: usize = self.here();
        self.at_depth(above(base));
        self.emit(Insn::Pop);
        self.emit(Insn::PushNil);
        self.patch_here(done);
        self.guard(protected(CatchKind::Rescue, start, done, handler, base));
        Ok(())
    }

    /// What `defined?` answers of an expression.
    fn defined(&mut self, expr: &Expr, span: Span) -> (r: Result<(), Unsupported>)
        ensures
            expr::done(r, final(self)@, lower::lower_defined(old(self)@, *expr, span)),
            expr::tidied(old(self)@, final(self)@, r is Ok),
        decreases *expr, 1nat,
    {
        match &expr.kind {
            ExprKind::Nil => {
                self.push_word("nil");
                Ok(())
            },
            ExprKind::True => {
                self.push_word("true");
                Ok(())
            },
            ExprKind::False => {
                self.push_word("false");
                Ok(())
            },
            ExprKind::SelfExpr => {
                self.push_word("self");
                Ok(())
            },
            ExprKind::Assign(_) => {
                self.push_word("assignment");
                Ok(())
            },
            ExprKind::Parens(inner) => {
                if inner.len() == 1 {
                    self.defined(&inner[0], inner[0].span)
                } else {
                    self.push_word("expression");
                    Ok(())
                }
            },
            ExprKind::Var(var) => self.defined_var(var, span),
            ExprKind::ConstPath(path) => match &path.name {
                None => code::refuse("a syntax error", span),
                Some(name) => {
                    let symbol = self.symbol(name.as_str());
                    match &path.parent {
                        None => {
                            self.emit(Insn::DefinedConst(symbol, ConstScope::Top));
                            Ok(())
                        },
                        Some(parent) => {
                            let mut undefined: Vec<usize> = Vec::new();
                            assert(undefined@ =~= Seq::empty());
                            if let Err(u) = self.guarded(parent, &mut undefined) {
                                return Err(u);
                            }
                            if let Err(u) = self.expr(parent) {
                                return Err(u);
                            }
                            self.emit(Insn::DefinedConst(symbol, ConstScope::Qualified));
                            self.close_guard(&undefined);
                            Ok(())
                        },
                    }
                },
            },
            ExprKind::Yield(_) => {
                self.emit(Insn::DefinedYield);
                Ok(())
            },
            ExprKind::Call(call) => self.defined_call(call, span),
            ExprKind::Array(elements) => {
                let mut undefined: Vec<usize> = Vec::new();
                assert(undefined@ =~= Seq::empty());
                if let Err(u) = self.guarded_all(elements, &mut undefined) {
                    return Err(u);
                }
                self.push_word("expression");
                self.close_guard(&undefined);
                Ok(())
            },
            ExprKind::Super(_) => code::refuse("`defined?` on `super`", span),
            _ => {
                self.push_word("expression");
                Ok(())
            },
        }
    }

    /// What `defined?` answers of a variable.
    fn defined_var(&mut self, var: &VarRef, span: Span) -> (r: Result<(), Unsupported>)
        ensures
            expr::done(r, final(self)@, lower::lower_defined_var(old(self)@, *var, span)),
            expr::tidied(old(self)@, final(self)@, r is Ok),
    {
        match var {
            VarRef::Local { name: _, depth: _ } => {
                self.push_word("local-variable");
                Ok(())
            },
            VarRef::It => {
                self.push_word("local-variable");
                Ok(())
            },
            VarRef::Const(name) => {
                let symbol = self.symbol(name.as_str());
                self.emit(Insn::DefinedConst(symbol, ConstScope::Lexical));
                Ok(())
            },
            VarRef::Instance(name) => {
                let symbol = self.symbol(name.as_str());
                self.emit(Insn::DefinedIvar(symbol));
                Ok(())
            },
            VarRef::Class(_) => code::refuse("`defined?` on a class variable", span),
            VarRef::Global(name) => {
                if expr::is_errinfo(name) {
                    self.push_word("global-variable");
                    return Ok(());
                }
                match names::match_ref(name.as_str()) {
                    Some(MatchRef::Data) => {
                        self.push_word("global-variable");
                        Ok(())
                    },
                    Some(_) => code::refuse("`defined?` on a regexp special variable", span),
                    None => {
                        let symbol = self.symbol(name.as_str());
                        self.emit(Insn::DefinedGlobal(symbol));
                        Ok(())
                    },
                }
            },
            VarRef::BackRef(_) => code::refuse("`defined?` on a regexp special variable", span),
            VarRef::NumberedRef(_) => code::refuse(
                "`defined?` on a regexp special variable",
                span,
            ),
        }
    }

    /// What `defined?` answers of a call.
    fn defined_call(&mut self, call: &Call, span: Span) -> (r: Result<(), Unsupported>)
        ensures
            expr::done(r, final(self)@, lower::lower_defined_call(old(self)@, *call, span)),
            expr::tidied(old(self)@, final(self)@, r is Ok),
        decreases *call, 0nat,
    {
        if call.block.is_some() {
            return code::refuse("`defined?` on a call with a block", span);
        }
        let name = self.symbol(call.name.as_str());
        let mut undefined: Vec<usize> = Vec::new();
        assert(undefined@ =~= Seq::empty());
        if let Some(receiver) = &call.receiver {
            if let Err(u) = self.guarded(receiver, &mut undefined) {
                return Err(u);
            }
        }
        if let Err(u) = self.guarded_all(&call.args, &mut undefined) {
            return Err(u);
        }
        match &call.receiver {
            Some(receiver) => {
                if let Err(u) = self.expr(receiver) {
                    return Err(u);
                }
                self.emit(Insn::DefinedMethod(name));
            },
            None => self.emit(Insn::DefinedSelfMethod(name)),
        }
        self.close_guard(&undefined);
        Ok(())
    }

    /// A part that has to be defined for the whole to be.
    fn guarded(&mut self, guard: &Expr, undefined: &mut Vec<usize>) -> (r: Result<(), Unsupported>)
        ensures
            match r {
                Ok(_) => lower::lower_guard(old(self)@, *guard, old(undefined)@) == Ok::<
                    (Code, Seq<usize>),
                    Unsupported,
                >((final(self)@, final(undefined)@)),
                Err(u) => lower::lower_guard(old(self)@, *guard, old(undefined)@) == Err::<
                    (Code, Seq<usize>),
                    Unsupported,
                >(u),
            },
            expr::tidied(old(self)@, final(self)@, r is Ok),
        decreases *guard, 2nat,
    {
        if let Err(u) = self.defined(guard, guard.span) {
            return Err(u);
        }
        let at = self.emit_jump(Jump::Unless);
        undefined.push(at);
        Ok(())
    }

    /// Several parts that have to be defined.
    fn guarded_all(&mut self, guards: &Vec<Expr>, undefined: &mut Vec<usize>) -> (r: Result<
        (),
        Unsupported,
    >)
        ensures
            match r {
                Ok(_) => lower::lower_guards(old(self)@, guards@, 0, old(undefined)@) == Ok::<
                    (Code, Seq<usize>),
                    Unsupported,
                >((final(self)@, final(undefined)@)),
                Err(u) => lower::lower_guards(old(self)@, guards@, 0, old(undefined)@) == Err::<
                    (Code, Seq<usize>),
                    Unsupported,
                >(u),
            },
            expr::tidied(old(self)@, final(self)@, r is Ok),
        decreases *guards, 0nat,
    {
        let ghost c = self@;
        let ghost was = undefined@;
        let mut i: usize = 0;
        while i < guards.len()
            invariant
                i <= guards.len(),
                c == old(self)@,
                was == old(undefined)@,
                expr::tidied(c, self@, true),
                lower::lower_guards(self@, guards@, i as nat, undefined@)
                    == lower::lower_guards(c, guards@, 0, was),
            decreases guards.len() - i,
        {
            if let Err(u) = self.guarded(&guards[i], undefined) {
                return Err(u);
            }
            i += 1;
        }
        Ok(())
    }

    /// The answer, and `nil` where a part was not defined.
    fn close_guard(&mut self, undefined: &Vec<usize>)
        ensures
            final(self)@ == lower::close_guard(old(self)@, undefined@),
            expr::tidied(old(self)@, final(self)@, true),
    {
        if undefined.len() == 0 {
            return;
        }
        let done = self.emit_jump(Jump::Always);
        let depth: usize = self.depth();
        self.at_depth(below(depth));
        self.patch_all_here(undefined);
        self.emit(Insn::PushNil);
        self.patch_here(done);
    }
}

} // verus!
