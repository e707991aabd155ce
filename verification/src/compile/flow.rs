//! Loops, `case` and the ways out.

use vstd::prelude::*;

use crate::ast::{Case, CaseBranches, Expr, ExprKind, For, Span, Target, TargetKind, WhenClause, While};
use crate::bytecode::{BlockRef, CallSite, Insn, ParamSpec};
use crate::compile::assign;
use crate::compile::assign::Slot;
use crate::compile::code;
use crate::compile::code::{Code, Compiler, Jump, ParamModel, SiteModel, Unsupported};
use crate::compile::expr;
use crate::compile::expr::{above, below};
use crate::compile::lower;
use crate::compile::lower::FOR_ELEMENT;

verus! {

/// Several lists of jumps.
pub open spec fn jump_lists(all: Seq<Vec<usize>>) -> Seq<Seq<usize>> {
    all.map_values(|jumps: Vec<usize>| jumps@)
}

impl Compiler {
    /// `while` and `until`.
    pub(crate) fn while_expr(&mut self, node: &While) -> (r: Result<(), Unsupported>)
        ensures
            expr::done(r, final(self)@, lower::lower_while(old(self)@, *node)),
            expr::tidied(old(self)@, final(self)@, r is Ok),
        decreases *node, 1nat,
    {
        let top: usize = self.here();
        self.push_loop();
        if let Err(u) = self.while_body(node, top) {
            return Err(u);
        }
        match self.pop_loop() {
            Some(breaks) => {
                self.emit(Insn::PushNil);
                self.patch_all_here(&breaks);
            },
            None => self.emit(Insn::PushNil),
        }
        Ok(())
    }

    /// The test and the body of a loop.
    fn while_body(&mut self, node: &While, top: usize) -> (r: Result<(), Unsupported>)
        ensures
            expr::done(r, final(self)@, lower::lower_while_body(old(self)@, *node, top as nat)),
            expr::tidied(old(self)@, final(self)@, r is Ok),
        decreases *node, 0nat,
    {
        if node.post {
            let body: usize = self.here();
            self.redo_at(body);
            if let Err(u) = self.statements(&node.body, false) {
                return Err(u);
            }
            let predicate: usize = self.here();
            self.next_at(predicate);
            if let Err(u) = self.expr(&node.predicate) {
                return Err(u);
            }
            let back = self.emit_jump(
                if node.until {
                    Jump::Unless
                } else {
                    Jump::If
                },
            );
            self.patch(back, body);
        } else {
            if let Err(u) = self.expr(&node.predicate) {
                return Err(u);
            }
            let out = self.emit_jump(
                if node.until {
                    Jump::If
                } else {
                    Jump::Unless
                },
            );
            let body: usize = self.here();
            self.redo_at(body);
            if let Err(u) = self.statements(&node.body, false) {
                return Err(u);
            }
            let back = self.emit_jump(Jump::Always);
            self.patch(back, top);
            self.patch_here(out);
        }
        Ok(())
    }

    /// How many operands a jump has to drop.
    fn excess(&self, base: usize) -> (r: usize)
        ensures
            r == lower::excess(self@.depth, base),
    {
        let depth: usize = self.depth();
        if depth > base {
            depth - base
        } else {
            0
        }
    }

    /// `break` and `next`.
    pub(crate) fn jump_out(&mut self, value: &Option<Box<Expr>>, is_break: bool, span: Span) -> (r:
        Result<(), Unsupported>)
        ensures
            expr::done(
                r,
                final(self)@,
                lower::lower_jump_out(old(self)@, *value, is_break, span),
            ),
            expr::tidied(old(self)@, final(self)@, r is Ok),
        decreases *value, 1nat,
    {
        let (base, next, _) = match self.innermost() {
            Some(inner) => inner,
            None => {
                if self.is_barrier() {
                    return if is_break {
                        code::refuse("`break` outside a loop or block", span)
                    } else {
                        code::refuse("`next` outside a loop or block", span)
                    };
                }
                if let Err(u) = self.value_or_nil(value) {
                    return Err(u);
                }
                if is_break {
                    self.emit(Insn::Break);
                } else {
                    if self.ensures_open() == 0 {
                        self.emit(Insn::Leave);
                    } else {
                        self.emit(Insn::LeaveThroughEnsure);
                    }
                    self.emit(Insn::PushNil);
                }
                return Ok(());
            },
        };
        let entry: usize = self.depth();
        let dropped = self.excess(base);
        self.pops(dropped);
        if is_break {
            if let Err(u) = self.value_or_nil(value) {
                return Err(u);
            }
            let at = self.emit_goto(base, true);
            self.add_break(at);
            let depth: usize = self.depth();
            self.at_depth(below(depth));
        } else {
            if let Some(value) = value {
                if let Err(u) = self.expr(value) {
                    return Err(u);
                }
                self.emit(Insn::Pop);
            }
            let at = self.emit_goto(base, false);
            self.patch(at, next);
        }
        self.emit(Insn::PushNil);
        self.at_depth(above(entry));
        Ok(())
    }

    /// A jump back to somewhere.
    fn back_to(&mut self, target: usize, base: usize)
        ensures
            final(self)@ == lower::back_to(old(self)@, target as nat, base),
            expr::tidied(old(self)@, final(self)@, true),
    {
        let entry: usize = self.depth();
        let dropped = self.excess(base);
        self.pops(dropped);
        let at = self.emit_goto(base, false);
        self.patch(at, target);
        self.emit(Insn::PushNil);
        self.at_depth(above(entry));
    }

    /// `redo`.
    pub(crate) fn redo_expr(&mut self, span: Span) -> (r: Result<(), Unsupported>)
        ensures
            expr::done(r, final(self)@, lower::lower_redo(old(self)@, span)),
            expr::tidied(old(self)@, final(self)@, r is Ok),
    {
        match self.innermost() {
            Some((base, _, redo)) => {
                self.back_to(redo, base);
                Ok(())
            },
            None => {
                if self.is_barrier() {
                    return code::refuse("`redo` outside a loop or block", span);
                }
                self.back_to(0, 0);
                Ok(())
            },
        }
    }

    /// `retry`.
    pub(crate) fn retry_expr(&mut self, span: Span) -> (r: Result<(), Unsupported>)
        ensures
            expr::done(r, final(self)@, lower::lower_retry(old(self)@, span)),
            expr::tidied(old(self)@, final(self)@, r is Ok),
    {
        match self.last_retry() {
            Some(retry) => {
                self.back_to(retry.body_start, retry.base_depth);
                Ok(())
            },
            None => code::refuse("`retry` outside a rescue clause", span),
        }
    }

    /// `for`.
    pub(crate) fn for_expr(&mut self, node: &For, span: Span) -> (r: Result<(), Unsupported>)
        ensures
            expr::done(r, final(self)@, lower::lower_for(old(self)@, *node, span)),
            expr::tidied(old(self)@, final(self)@, r is Ok),
        decreases *node, 0nat,
    {
        let ghost c = self@;
        let none: Vec<String> = Vec::new();
        assert(crate::bytecode::pool(none@) =~= Seq::empty());
        let mut child = Compiler::nested("block in for", &none, self, false);
        assert(child@.env_synthetic.len() > 0) by {
            reveal(code::nested);
        }
        child.hide_environment();
        child.slot(FOR_ELEMENT);
        let mut params = ParamSpec::default();
        params.required = 1;
        assert(params@ =~= (ParamModel { required: 1, ..code::no_params() }));
        child.set_params(params);
        if let Err(u) = child.assign_element(&node.index, span) {
            return Err(u);
        }
        if let Err(u) = child.statements(&node.body, true) {
            return Err(u);
        }
        let block = self.push_child(child.finish());
        if let Err(u) = self.expr(&node.iterable) {
            return Err(u);
        }
        let ghost ready = self@;
        let name = self.symbol("each");
        let site = CallSite {
            name,
            argc: 0,
            splats: Vec::new(),
            keywords: Vec::new(),
            block: BlockRef::Literal(block),
            implicit_self: false,
        };
        proof {
            assert(site@ =~= (SiteModel {
                name: ready.symbol_at("each"@),
                argc: 0,
                splats: Seq::empty(),
                keywords: Seq::empty(),
                block: BlockRef::Literal(block),
                implicit_self: false,
            }));
        }
        let index = self.push_site(site);
        self.emit(Insn::Send(index));
        Ok(())
    }

    /// The element a `for` body was handed, assigned to its target.
    fn assign_element(&mut self, index: &Target, span: Span) -> (r: Result<(), Unsupported>)
        ensures
            expr::done(r, final(self)@, lower::lower_element(old(self)@, *index, span)),
            expr::tidied(old(self)@, final(self)@, r is Ok),
        decreases *index, 2nat,
    {
        match &index.kind {
            TargetKind::Multi(multi) => {
                let mut prepared: Vec<Option<Slot>> = Vec::new();
                assert(assign::places(prepared@) =~= Seq::empty());
                if let Err(u) = self.prepare_multi(multi, &mut prepared) {
                    return Err(u);
                }
                self.emit(Insn::GetLocal(0, 0));
                self.masgn_array();
                let _ = match self.spread_into(multi, &prepared, 0, span) {
                    Ok(v) => v,
                    Err(u) => {
                        return Err(u);
                    },
                };
                self.emit(Insn::Pop);
                Ok(())
            },
            _ => {
                let slot = match self.target_slot(index) {
                    Ok(v) => v,
                    Err(u) => {
                        return Err(u);
                    },
                };
                self.emit(Insn::GetLocal(0, 0));
                self.emit_set(&slot);
                Ok(())
            },
        }
    }

    /// `case`.
    pub(crate) fn case_expr(&mut self, node: &Case, span: Span) -> (r: Result<(), Unsupported>)
        ensures
            expr::done(r, final(self)@, lower::lower_case(old(self)@, *node, span)),
            expr::tidied(old(self)@, final(self)@, r is Ok),
        decreases *node, 1nat,
    {
        match &node.branches {
            CaseBranches::When(_) => self.case_when(node),
            CaseBranches::In(_) => self.case_in(node, span),
        }
    }

    /// Drop the subject, where there is one.
    fn drop_subject(&mut self, subject: bool)
        ensures
            final(self)@ == lower::drop_subject(old(self)@, subject),
            expr::tidied(old(self)@, final(self)@, true),
    {
        if subject {
            self.emit(Insn::Pop);
        }
    }

    /// `case` and `when`.
    fn case_when(&mut self, node: &Case) -> (r: Result<(), Unsupported>)
        ensures
            expr::done(r, final(self)@, lower::lower_case_when(old(self)@, *node)),
            expr::tidied(old(self)@, final(self)@, r is Ok),
        decreases *node, 0nat,
    {
        match &node.branches {
            CaseBranches::When(clauses) => {
                let subject = node.predicate.is_some();
                if let Some(predicate) = &node.predicate {
                    if let Err(u) = self.expr(predicate) {
                        return Err(u);
                    }
                }
                let tests: usize = self.depth();
                let entries = match self.case_tests(clauses, subject) {
                    Ok(v) => v,
                    Err(u) => {
                        return Err(u);
                    },
                };
                self.drop_subject(subject);
                if let Err(u) = self.body_or_nil(&node.else_body) {
                    return Err(u);
                }
                let end: usize = self.depth();
                let first = self.emit_jump(Jump::Always);
                let mut to_end: Vec<usize> = Vec::new();
                to_end.push(first);
                assert(to_end@ =~= seq![first]);
                if let Err(u) = self.case_bodies(clauses, subject, &entries, tests, &mut to_end) {
                    return Err(u);
                }
                self.patch_all_here(&to_end);
                self.at_depth(end);
                Ok(())
            },
            CaseBranches::In(_) => Ok(()),
        }
    }

    /// The tests of each clause, and the jumps to its body.
    fn case_tests(&mut self, clauses: &Vec<WhenClause>, subject: bool) -> (r: Result<
        Vec<Vec<usize>>,
        Unsupported,
    >)
        ensures
            match r {
                Ok(entries) => entries@.len() == clauses@.len() && lower::lower_tests(
                    old(self)@,
                    clauses@,
                    0,
                    subject,
                    Seq::empty(),
                ) == Ok::<(Code, Seq<Seq<usize>>), Unsupported>(
                    (final(self)@, jump_lists(entries@)),
                ),
                Err(u) => lower::lower_tests(old(self)@, clauses@, 0, subject, Seq::empty())
                    == Err::<(Code, Seq<Seq<usize>>), Unsupported>(u),
            },
            expr::tidied(old(self)@, final(self)@, r is Ok),
        decreases *clauses, 0nat,
    {
        let ghost c = self@;
        let mut entries: Vec<Vec<usize>> = Vec::new();
        assert(jump_lists(entries@) =~= Seq::empty());
        let mut i: usize = 0;
        while i < clauses.len()
            invariant
                i <= clauses.len(),
                entries@.len() == i,
                c == old(self)@,
                expr::tidied(c, self@, true),
                lower::lower_tests(self@, clauses@, i as nat, subject, jump_lists(entries@))
                    == lower::lower_tests(c, clauses@, 0, subject, Seq::empty()),
            decreases clauses.len() - i,
        {
            let jumps = match self.conditions(&clauses[i].conditions, subject) {
                Ok(v) => v,
                Err(u) => {
                    return Err(u);
                },
            };
            let ghost was = entries@;
            let ghost list = jumps@;
            entries.push(jumps);
            assert(jump_lists(entries@) =~= jump_lists(was).push(list));
            i += 1;
        }
        Ok(entries)
    }

    /// The conditions of one clause.
    fn conditions(&mut self, conditions: &Vec<Expr>, subject: bool) -> (r: Result<
        Vec<usize>,
        Unsupported,
    >)
        ensures
            match r {
                Ok(jumps) => lower::lower_conditions(
                    old(self)@,
                    conditions@,
                    0,
                    subject,
                    Seq::empty(),
                ) == Ok::<(Code, Seq<usize>), Unsupported>((final(self)@, jumps@)),
                Err(u) => lower::lower_conditions(
                    old(self)@,
                    conditions@,
                    0,
                    subject,
                    Seq::empty(),
                ) == Err::<(Code, Seq<usize>), Unsupported>(u),
            },
            expr::tidied(old(self)@, final(self)@, r is Ok),
        decreases *conditions, 0nat,
    {
        let ghost c = self@;
        let mut jumps: Vec<usize> = Vec::new();
        assert(jumps@ =~= Seq::empty());
        let mut i: usize = 0;
        while i < conditions.len()
            invariant
                i <= conditions.len(),
                c == old(self)@,
                expr::tidied(c, self@, true),
                lower::lower_conditions(self@, conditions@, i as nat, subject, jumps@)
                    == lower::lower_conditions(c, conditions@, 0, subject, Seq::empty()),
            decreases conditions.len() - i,
        {
            if let ExprKind::Splat(_) = &conditions[i].kind {
                return code::refuse(
                    "a splat in `when`, which needs a compiled loop because `===` is a send",
                    conditions[i].span,
                );
            }
            if subject {
                self.emit(Insn::Dup);
            }
            if let Err(u) = self.expr(&conditions[i]) {
                return Err(u);
            }
            if subject {
                self.emit(Insn::CaseEq);
            }
            let at = self.emit_jump(Jump::If);
            jumps.push(at);
            i += 1;
        }
        Ok(jumps)
    }

    /// The body of each clause, and the jumps to the end.
    fn case_bodies(
        &mut self,
        clauses: &Vec<WhenClause>,
        subject: bool,
        entries: &Vec<Vec<usize>>,
        tests: usize,
        to_end: &mut Vec<usize>,
    ) -> (r: Result<(), Unsupported>)
        requires
            entries@.len() == clauses@.len(),
        ensures
            match r {
                Ok(_) => lower::lower_whens(
                    old(self)@,
                    clauses@,
                    0,
                    subject,
                    jump_lists(entries@),
                    tests as nat,
                    old(to_end)@,
                ) == Ok::<(Code, Seq<usize>), Unsupported>((final(self)@, final(to_end)@)),
                Err(u) => lower::lower_whens(
                    old(self)@,
                    clauses@,
                    0,
                    subject,
                    jump_lists(entries@),
                    tests as nat,
                    old(to_end)@,
                ) == Err::<(Code, Seq<usize>), Unsupported>(u),
            },
            expr::tidied(old(self)@, final(self)@, r is Ok),
        decreases *clauses, 0nat,
    {
        let ghost c = self@;
        let ghost lists = jump_lists(entries@);
        let ghost ends = to_end@;
        let mut i: usize = 0;
        while i < clauses.len()
            invariant
                i <= clauses.len(),
                entries@.len() == clauses@.len(),
                c == old(self)@,
                ends == old(to_end)@,
                lists == jump_lists(entries@),
                expr::tidied(c, self@, true),
                lower::lower_whens(
                    self@,
                    clauses@,
                    i as nat,
                    subject,
                    lists,
                    tests as nat,
                    to_end@,
                ) == lower::lower_whens(c, clauses@, 0, subject, lists, tests as nat, ends),
            decreases clauses.len() - i,
        {
            self.patch_all_here(&entries[i]);
            self.at_depth(tests);
            self.drop_subject(subject);
            if let Err(u) = self.statements(&clauses[i].body, true) {
                return Err(u);
            }
            let at = self.emit_jump(Jump::Always);
            to_end.push(at);
            i += 1;
        }
        Ok(())
    }
}

} // verus!
