//! `begin`, `rescue` and `ensure`.

use vstd::prelude::*;

use crate::ast::{Begin, Expr, ExprKind, Rescue, RescueMod};
use crate::bytecode::{CatchKind, ConstScope, Insn};
use crate::compile::ask::protected;
use crate::compile::code;
use crate::compile::code::{Code, Compiler, Jump, Unsupported};
use crate::compile::expr;
use crate::compile::expr::{above, below};
use crate::compile::lower;

verus! {

impl Compiler {
    /// Put `$!` away, to be put back.
    fn save_errinfo(&mut self) -> (r: u16)
        ensures
            (final(self)@, r) == lower::save_errinfo(old(self)@),
            expr::tidied(old(self)@, final(self)@, true),
    {
        let slot: u16 = self.hidden_slot("%errinfo");
        self.emit(Insn::Errinfo);
        self.emit(Insn::SetLocal(slot, 0));
        slot
    }

    /// The test of a clause that names no class.
    fn standard_error(&mut self)
        ensures
            final(self)@ == lower::standard_error(old(self)@),
            expr::tidied(old(self)@, final(self)@, true),
    {
        let name = self.symbol("StandardError");
        self.emit(Insn::GetConst(name, ConstScope::Top));
        self.emit(Insn::CheckMatch);
    }

    /// `begin` with `rescue`, `else` or `ensure`.
    pub(crate) fn begin_expr(&mut self, node: &Begin) -> (r: Result<(), Unsupported>)
        ensures
            expr::done(r, final(self)@, lower::lower_begin(old(self)@, *node)),
            expr::tidied(old(self)@, final(self)@, r is Ok),
        decreases *node, 0nat,
    {
        let base: usize = self.depth();
        if node.ensure_body.is_some() {
            let outside = self.ensures_open();
            self.owe(above(outside));
        }
        let rescues = node.rescues.len() > 0;
        let errinfo: u16 = if rescues {
            self.save_errinfo()
        } else {
            0
        };
        let body_start: usize = self.here();
        if let Err(u) = self.statements(&node.body, true) {
            return Err(u);
        }
        let body_end: usize = self.here();
        if let Some(body) = &node.else_body {
            self.emit(Insn::Pop);
            if let Err(u) = self.statements(body, true) {
                return Err(u);
            }
        }
        if rescues {
            let first = self.emit_jump(Jump::Always);
            let mut done: Vec<usize> = Vec::new();
            done.push(first);
            assert(done@ =~= seq![first]);
            let rescue_start: usize = self.here();
            self.handle_at(above(base));
            if let Err(u) = self.rescue_clauses(&node.rescues, body_start, base, &mut done) {
                return Err(u);
            }
            self.guard(protected(CatchKind::Rescue, body_start, body_end, rescue_start, base));
            self.patch_all_here(&done);
        }
        self.at_depth(above(base));
        if rescues {
            self.emit(Insn::GetLocal(errinfo, 0));
            self.emit(Insn::SetErrinfo);
        }
        if let Some(body) = &node.ensure_body {
            let inside = self.ensures_open();
            self.owe(below(inside));
            let protected_end: usize = self.here();
            self.emit(Insn::EnterEnsure);
            let ensure_start: usize = self.here();
            if let Err(u) = self.statements(body, true) {
                return Err(u);
            }
            self.emit(Insn::Pop);
            self.emit(Insn::LeaveEnsure);
            self.guard(protected(CatchKind::Ensure, body_start, protected_end, ensure_start, base));
        }
        Ok(())
    }

    /// The clauses of a `rescue`.
    fn rescue_clauses(
        &mut self,
        clauses: &Vec<Rescue>,
        body_start: usize,
        base: usize,
        done: &mut Vec<usize>,
    ) -> (r: Result<(), Unsupported>)
        ensures
            match r {
                Ok(_) => lower::lower_rescues(
                    old(self)@,
                    clauses@,
                    0,
                    body_start as nat,
                    base as nat,
                    old(done)@,
                ) == Ok::<(Code, Seq<usize>), Unsupported>((final(self)@, final(done)@)),
                Err(u) => lower::lower_rescues(
                    old(self)@,
                    clauses@,
                    0,
                    body_start as nat,
                    base as nat,
                    old(done)@,
                ) == Err::<(Code, Seq<usize>), Unsupported>(u),
            },
            expr::tidied(old(self)@, final(self)@, r is Ok),
        decreases *clauses, 0nat,
    {
        let ghost c = self@;
        let ghost was = done@;
        let mut i: usize = 0;
        while i < clauses.len()
            invariant
                i <= clauses.len(),
                c == old(self)@,
                was == old(done)@,
                expr::tidied(c, self@, true),
                lower::lower_rescues(
                    self@,
                    clauses@,
                    i as nat,
                    body_start as nat,
                    base as nat,
                    done@,
                ) == lower::lower_rescues(
                    c,
                    clauses@,
                    0,
                    body_start as nat,
                    base as nat,
                    was,
                ),
            decreases clauses.len() - i,
        {
            if let Err(u) = self.rescue_clause(&clauses[i], body_start, base, done) {
                return Err(u);
            }
            i += 1;
        }
        self.emit(Insn::Raise);
        Ok(())
    }

    /// One clause of a `rescue`.
    fn rescue_clause(
        &mut self,
        clause: &Rescue,
        body_start: usize,
        base: usize,
        done: &mut Vec<usize>,
    ) -> (r: Result<(), Unsupported>)
        ensures
            match r {
                Ok(_) => lower::lower_rescue(
                    old(self)@,
                    *clause,
                    body_start as nat,
                    base as nat,
                    old(done)@,
                ) == Ok::<(Code, Seq<usize>), Unsupported>((final(self)@, final(done)@)),
                Err(u) => lower::lower_rescue(
                    old(self)@,
                    *clause,
                    body_start as nat,
                    base as nat,
                    old(done)@,
                ) == Err::<(Code, Seq<usize>), Unsupported>(u),
            },
            expr::tidied(old(self)@, final(self)@, r is Ok),
        decreases *clause, 0nat,
    {
        let mut hits: Vec<usize> = Vec::new();
        if clause.exceptions.len() == 0 {
            self.standard_error();
            let at = self.emit_jump(Jump::If);
            hits.push(at);
            assert(hits@ =~= seq![at]);
        } else {
            assert(hits@ =~= Seq::empty());
            if let Err(u) = self.exceptions(&clause.exceptions, &mut hits) {
                return Err(u);
            }
        }
        let miss = self.emit_jump(Jump::Always);
        self.patch_all_here(&hits);
        self.at_depth(above(base));
        match &clause.reference {
            Some(target) => {
                let slot = match self.target_slot(target) {
                    Ok(v) => v,
                    Err(u) => {
                        return Err(u);
                    },
                };
                self.emit_set(&slot);
            },
            None => self.emit(Insn::Pop),
        }
        self.push_retry(body_start, base);
        if let Err(u) = self.statements(&clause.body, true) {
            return Err(u);
        }
        self.pop_retry();
        let at = self.emit_jump(Jump::Always);
        done.push(at);
        self.patch_here(miss);
        self.at_depth(above(base));
        Ok(())
    }

    /// The tests of a clause, and the jumps to its body.
    fn exceptions(&mut self, exceptions: &Vec<Expr>, hits: &mut Vec<usize>) -> (r: Result<
        (),
        Unsupported,
    >)
        ensures
            match r {
                Ok(_) => lower::lower_exceptions(old(self)@, exceptions@, 0, old(hits)@) == Ok::<
                    (Code, Seq<usize>),
                    Unsupported,
                >((final(self)@, final(hits)@)),
                Err(u) => lower::lower_exceptions(old(self)@, exceptions@, 0, old(hits)@)
                    == Err::<(Code, Seq<usize>), Unsupported>(u),
            },
            expr::tidied(old(self)@, final(self)@, r is Ok),
        decreases *exceptions, 0nat,
    {
        let ghost c = self@;
        let ghost was = hits@;
        let mut i: usize = 0;
        while i < exceptions.len()
            invariant
                i <= exceptions.len(),
                c == old(self)@,
                was == old(hits)@,
                expr::tidied(c, self@, true),
                lower::lower_exceptions(self@, exceptions@, i as nat, hits@)
                    == lower::lower_exceptions(c, exceptions@, 0, was),
            decreases exceptions.len() - i,
        {
            match &exceptions[i].kind {
                ExprKind::Splat(inner) => match inner {
                    None => {
                        return code::refuse("an anonymous splat", exceptions[i].span);
                    },
                    Some(inner) => {
                        self.emit(Insn::NewArray(0));
                        if let Err(u) = self.expr(inner) {
                            return Err(u);
                        }
                        self.emit_send("__concat_splat__", 1);
                        self.emit(Insn::CheckMatchAny);
                    },
                },
                _ => {
                    if let Err(u) = self.expr(&exceptions[i]) {
                        return Err(u);
                    }
                    self.emit(Insn::CheckMatch);
                },
            }
            let at = self.emit_jump(Jump::If);
            hits.push(at);
            i += 1;
        }
        Ok(())
    }

    /// `a rescue b`.
    pub(crate) fn rescue_mod(&mut self, node: &RescueMod) -> (r: Result<(), Unsupported>)
        ensures
            expr::done(r, final(self)@, lower::lower_rescue_mod(old(self)@, *node)),
            expr::tidied(old(self)@, final(self)@, r is Ok),
        decreases *node, 0nat,
    {
        let base: usize = self.depth();
        let errinfo: u16 = self.save_errinfo();
        let body_start: usize = self.here();
        if let Err(u) = self.expr(&node.value) {
            return Err(u);
        }
        let body_end: usize = self.here();
        let first = self.emit_jump(Jump::Always);
        let rescue_start: usize = self.here();
        self.handle_at(above(base));
        self.standard_error();
        let hit = self.emit_jump(Jump::If);
        let miss = self.emit_jump(Jump::Always);
        self.patch_here(hit);
        self.at_depth(above(base));
        self.emit(Insn::Pop);
        self.push_retry(body_start, base);
        if let Err(u) = self.expr(&node.rescue_value) {
            return Err(u);
        }
        self.pop_retry();
        let second = self.emit_jump(Jump::Always);
        self.patch_here(miss);
        self.at_depth(above(base));
        self.emit(Insn::Raise);
        self.guard(protected(CatchKind::Rescue, body_start, body_end, rescue_start, base));
        self.patch_here(first);
        self.patch_here(second);
        self.at_depth(above(base));
        self.emit(Insn::GetLocal(errinfo, 0));
        self.emit(Insn::SetErrinfo);
        Ok(())
    }
}

} // verus!
