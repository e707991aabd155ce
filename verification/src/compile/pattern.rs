//! Pattern matching.

use vstd::prelude::*;

use crate::ast::{
    ArrayPattern, CapturePattern, Case, CaseBranches, Expr, ExprKind, FindPattern, Guard, HashEntry,
    HashEntryKind, HashPattern, InClause, MatchPattern, PatternRest, Span, VarRef,
};
use crate::bytecode::{BinOp, Insn};
use crate::compile::code;
use crate::compile::code::{Code, Compiler, Jump, Unsupported};
use crate::compile::expr;
use crate::compile::expr::{above, below};
use crate::compile::lower;
use crate::compile::lower::WIDEST;
use crate::compile::names;
use crate::text;

verus! {

impl Compiler {
    /// A hidden local of the compound pattern that is open.
    fn pattern_slot(&mut self, what: &str) -> (r: u16)
        ensures
            r == lower::pattern_slot(old(self)@, what@),
            final(self)@ == lower::with_pattern_slot(old(self)@, what@),
            expr::tidied(old(self)@, final(self)@, true),
    {
        let depth: usize = self.pattern_depth();
        let digits = text::number(depth as u64, 10);
        let start = text::join3("pattern ", what, " ");
        let name = text::join(start.as_str(), digits.as_str());
        self.slot(name.as_str())
    }

    /// The local that records a missed key, where the form reports it.
    fn open_pattern_key(&mut self, wanted: bool)
        ensures
            final(self)@ == lower::open_key(old(self)@, wanted),
            expr::tidied(old(self)@, final(self)@, true),
    {
        if wanted {
            let slot: u16 = self.pattern_slot("missing key");
            self.emit(Insn::PushNil);
            self.emit(Insn::SetLocal(slot, 0));
            self.set_pattern_key(Some(slot));
        } else {
            self.set_pattern_key(None);
        }
    }

    /// Raise where no pattern matched.
    fn emit_pattern_failure(&mut self, subject: u16)
        ensures
            final(self)@ == lower::pattern_failure(old(self)@, subject),
            expr::tidied(old(self)@, final(self)@, true),
    {
        match self.pattern_key() {
            None => {
                self.emit(Insn::PushSelf);
                self.emit(Insn::GetLocal(subject, 0));
                self.emit_send_to_self("__pattern_fail__", 1);
            },
            Some(key) => {
                let before: usize = self.depth();
                self.emit(Insn::GetLocal(key, 0));
                let general = self.emit_jump(Jump::Unless);
                self.emit(Insn::PushSelf);
                self.emit(Insn::GetLocal(subject, 0));
                self.emit(Insn::GetLocal(key, 0));
                self.emit_send_to_self("__pattern_key_fail__", 2);
                let to_end = self.emit_jump(Jump::Always);
                self.patch_here(general);
                self.at_depth(before);
                self.emit(Insn::PushSelf);
                self.emit(Insn::GetLocal(subject, 0));
                self.emit_send_to_self("__pattern_fail__", 1);
                self.patch_here(to_end);
            },
        }
    }

    /// `case` and `in`.
    pub(crate) fn case_in(&mut self, node: &Case, span: Span) -> (r: Result<(), Unsupported>)
        ensures
            expr::done(r, final(self)@, lower::lower_case_in(old(self)@, *node, span)),
            expr::tidied(old(self)@, final(self)@, r is Ok),
        decreases *node, 0nat,
    {
        let predicate = match &node.predicate {
            Some(predicate) => predicate,
            None => {
                return code::refuse("`case`/`in` with no subject", span);
            },
        };
        let clauses = match &node.branches {
            CaseBranches::In(clauses) => clauses,
            CaseBranches::When(_) => {
                return code::refuse("`case`/`in` with no subject", span);
            },
        };
        if let Err(u) = self.expr(predicate) {
            return Err(u);
        }
        let subject: u16 = self.pattern_slot("subject");
        self.emit(Insn::SetLocal(subject, 0));
        let cache: u16 = self.pattern_slot("deconstructed");
        self.emit(Insn::PushNil);
        self.emit(Insn::SetLocal(cache, 0));
        let outer_cache = self.pattern_cache();
        let outer_key = self.pattern_key();
        self.set_pattern_cache(Some(cache));
        self.open_pattern_key(clauses.len() == 1);
        let tests: usize = self.depth();
        let entries = match self.in_tests(clauses, subject, tests) {
            Ok(v) => v,
            Err(u) => {
                return Err(u);
            },
        };
        match &node.else_body {
            Some(body) => {
                if let Err(u) = self.statements(body, true) {
                    return Err(u);
                }
            },
            None => self.emit_pattern_failure(subject),
        }
        let end: usize = self.depth();
        let first = self.emit_jump(Jump::Always);
        let mut to_end: Vec<usize> = Vec::new();
        to_end.push(first);
        assert(to_end@ =~= seq![first]);
        if let Err(u) = self.in_bodies(clauses, &entries, tests, &mut to_end) {
            return Err(u);
        }
        self.patch_all_here(&to_end);
        self.at_depth(end);
        self.set_pattern_cache(outer_cache);
        self.set_pattern_key(outer_key);
        Ok(())
    }

    /// The pattern and the guard of each clause, and the jump to its body.
    fn in_tests(&mut self, clauses: &Vec<InClause>, subject: u16, tests: usize) -> (r: Result<
        Vec<usize>,
        Unsupported,
    >)
        ensures
            match r {
                Ok(entries) => entries@.len() == clauses@.len() && lower::lower_in_tests(
                    old(self)@,
                    clauses@,
                    0,
                    subject,
                    tests as nat,
                    Seq::empty(),
                ) == Ok::<(Code, Seq<usize>), Unsupported>((final(self)@, entries@)),
                Err(u) => lower::lower_in_tests(
                    old(self)@,
                    clauses@,
                    0,
                    subject,
                    tests as nat,
                    Seq::empty(),
                ) == Err::<(Code, Seq<usize>), Unsupported>(u),
            },
            expr::tidied(old(self)@, final(self)@, r is Ok),
        decreases *clauses, 0nat,
    {
        let ghost c = self@;
        let mut entries: Vec<usize> = Vec::new();
        assert(entries@ =~= Seq::empty());
        let mut i: usize = 0;
        while i < clauses.len()
            invariant
                i <= clauses.len(),
                entries@.len() == i,
                c == old(self)@,
                expr::tidied(c, self@, true),
                lower::lower_in_tests(
                    self@,
                    clauses@,
                    i as nat,
                    subject,
                    tests as nat,
                    entries@,
                ) == lower::lower_in_tests(
                    c,
                    clauses@,
                    0,
                    subject,
                    tests as nat,
                    Seq::empty(),
                ),
            decreases clauses.len() - i,
        {
            let entry = match self.in_test(&clauses[i], subject, tests) {
                Ok(v) => v,
                Err(u) => {
                    return Err(u);
                },
            };
            entries.push(entry);
            i += 1;
        }
        Ok(entries)
    }

    /// The pattern and the guard of one clause.
    fn in_test(&mut self, clause: &InClause, subject: u16, tests: usize) -> (r: Result<
        usize,
        Unsupported,
    >)
        ensures
            match r {
                Ok(entry) => lower::lower_in_test(old(self)@, *clause, subject, tests as nat)
                    == Ok::<(Code, usize), Unsupported>((final(self)@, entry)),
                Err(u) => lower::lower_in_test(old(self)@, *clause, subject, tests as nat)
                    == Err::<(Code, usize), Unsupported>(u),
            },
            expr::tidied(old(self)@, final(self)@, r is Ok),
        decreases *clause, 0nat,
    {
        self.emit(Insn::GetLocal(subject, 0));
        if let Err(u) = self.pattern(&clause.pattern) {
            return Err(u);
        }
        let entry = self.emit_jump(Jump::If);
        match &clause.guard {
            None => Ok(entry),
            Some(guard) => {
                let skip = self.emit_jump(Jump::Always);
                self.patch_here(entry);
                self.at_depth(tests);
                let taken = match guard {
                    Guard::If(condition) => {
                        if let Err(u) = self.expr(condition) {
                            return Err(u);
                        }
                        self.emit_jump(Jump::If)
                    },
                    Guard::Unless(condition) => {
                        if let Err(u) = self.expr(condition) {
                            return Err(u);
                        }
                        self.emit_jump(Jump::Unless)
                    },
                };
                self.patch_here(skip);
                self.at_depth(tests);
                Ok(taken)
            },
        }
    }

    /// The body of each clause, and the jumps to the end.
    fn in_bodies(
        &mut self,
        clauses: &Vec<InClause>,
        entries: &Vec<usize>,
        tests: usize,
        to_end: &mut Vec<usize>,
    ) -> (r: Result<(), Unsupported>)
        requires
            entries@.len() == clauses@.len(),
        ensures
            match r {
                Ok(_) => lower::lower_ins(
                    old(self)@,
                    clauses@,
                    0,
                    entries@,
                    tests as nat,
                    old(to_end)@,
                ) == Ok::<(Code, Seq<usize>), Unsupported>((final(self)@, final(to_end)@)),
                Err(u) => lower::lower_ins(
                    old(self)@,
                    clauses@,
                    0,
                    entries@,
                    tests as nat,
                    old(to_end)@,
                ) == Err::<(Code, Seq<usize>), Unsupported>(u),
            },
            expr::tidied(old(self)@, final(self)@, r is Ok),
        decreases *clauses, 0nat,
    {
        let ghost c = self@;
        let ghost ends = to_end@;
        let mut i: usize = 0;
        while i < clauses.len()
            invariant
                i <= clauses.len(),
                entries@.len() == clauses@.len(),
                c == old(self)@,
                ends == old(to_end)@,
                expr::tidied(c, self@, true),
                lower::lower_ins(self@, clauses@, i as nat, entries@, tests as nat, to_end@)
                    == lower::lower_ins(c, clauses@, 0, entries@, tests as nat, ends),
            decreases clauses.len() - i,
        {
            self.patch_here(entries[i]);
            self.at_depth(tests);
            if let Err(u) = self.statements(&clauses[i].body, true) {
                return Err(u);
            }
            let at = self.emit_jump(Jump::Always);
            to_end.push(at);
            i += 1;
        }
        Ok(())
    }

    /// `value => pattern` and `value in pattern`.
    pub(crate) fn match_pattern(&mut self, node: &MatchPattern) -> (r: Result<(), Unsupported>)
        ensures
            expr::done(r, final(self)@, lower::lower_match(old(self)@, *node)),
            expr::tidied(old(self)@, final(self)@, r is Ok),
        decreases *node, 0nat,
    {
        if let Err(u) = self.expr(&node.value) {
            return Err(u);
        }
        let outer_key = self.pattern_key();
        if !node.raises {
            self.open_pattern_key(false);
            if let Err(u) = self.pattern(&node.pattern) {
                return Err(u);
            }
            self.set_pattern_key(outer_key);
            return Ok(());
        }
        let subject: u16 = self.pattern_slot("subject");
        self.emit(Insn::SetLocal(subject, 0));
        self.open_pattern_key(true);
        let before: usize = self.depth();
        self.emit(Insn::GetLocal(subject, 0));
        if let Err(u) = self.pattern(&node.pattern) {
            return Err(u);
        }
        let to_ok = self.emit_jump(Jump::If);
        self.emit_pattern_failure(subject);
        self.emit(Insn::Pop);
        self.patch_here(to_ok);
        self.at_depth(before);
        self.set_pattern_key(outer_key);
        self.emit(Insn::PushNil);
        Ok(())
    }

    /// A pattern, matched against what is on top.
    fn pattern(&mut self, pat: &Expr) -> (r: Result<(), Unsupported>)
        ensures
            expr::done(r, final(self)@, lower::lower_pattern(old(self)@, *pat)),
            expr::tidied(old(self)@, final(self)@, r is Ok),
        decreases *pat, 1nat,
    {
        match &pat.kind {
            ExprKind::Var(VarRef::Local { name, depth }) => {
                let (slot, up) = match self.outer_slot(name.as_str(), *depth, pat.span) {
                    Ok(v) => v,
                    Err(u) => {
                        return Err(u);
                    },
                };
                self.emit(Insn::SetLocal(slot, up));
                self.emit(Insn::PushTrue);
                Ok(())
            },
            ExprKind::Pin(inner) => {
                if let Err(u) = self.expr(inner) {
                    return Err(u);
                }
                self.emit(Insn::CaseEq);
                Ok(())
            },
            ExprKind::AltPattern(alt) => {
                self.emit(Insn::Dup);
                if let Err(u) = self.pattern(&alt.left) {
                    return Err(u);
                }
                let to_right = self.emit_jump(Jump::Unless);
                let matched: usize = self.depth();
                self.emit(Insn::Pop);
                self.emit(Insn::PushTrue);
                let to_end = self.emit_jump(Jump::Always);
                self.patch_here(to_right);
                self.at_depth(matched);
                if let Err(u) = self.pattern(&alt.right) {
                    return Err(u);
                }
                self.patch_here(to_end);
                Ok(())
            },
            ExprKind::CapturePattern(capture) => self.capture_pattern(capture),
            ExprKind::ArrayPattern(node) => {
                self.go_deeper();
                if let Err(u) = self.array_pattern(node, pat.span) {
                    return Err(u);
                }
                self.come_back();
                Ok(())
            },
            ExprKind::FindPattern(node) => {
                self.go_deeper();
                if let Err(u) = self.find_pattern(node) {
                    return Err(u);
                }
                self.come_back();
                Ok(())
            },
            ExprKind::HashPattern(node) => {
                self.go_deeper();
                if let Err(u) = self.hash_pattern(node, pat.span) {
                    return Err(u);
                }
                self.come_back();
                Ok(())
            },
            _ => {
                if let Err(u) = self.expr(pat) {
                    return Err(u);
                }
                self.emit(Insn::CaseEq);
                Ok(())
            },
        }
    }

    fn go_deeper(&mut self)
        ensures
            final(self)@ == lower::deeper(old(self)@),
            expr::tidied(old(self)@, final(self)@, true),
    {
        let depth: usize = self.pattern_depth();
        self.set_pattern_depth(above(depth));
    }

    fn come_back(&mut self)
        ensures
            final(self)@ == lower::shallower(old(self)@),
            expr::tidied(old(self)@, final(self)@, true),
    {
        let depth: usize = self.pattern_depth();
        self.set_pattern_depth(below(depth));
    }

    /// `pattern => name`.
    fn capture_pattern(&mut self, capture: &CapturePattern) -> (r: Result<(), Unsupported>)
        ensures
            expr::done(r, final(self)@, lower::lower_capture(old(self)@, *capture)),
            expr::tidied(old(self)@, final(self)@, r is Ok),
        decreases *capture, 0nat,
    {
        self.emit(Insn::Dup);
        if let Err(u) = self.pattern(&capture.value) {
            return Err(u);
        }
        let to_fail = self.emit_jump(Jump::Unless);
        let held: usize = self.depth();
        let slot = match self.target_slot(&capture.target) {
            Ok(v) => v,
            Err(u) => {
                return Err(u);
            },
        };
        self.emit_set(&slot);
        self.emit(Insn::PushTrue);
        let to_end = self.emit_jump(Jump::Always);
        self.patch_here(to_fail);
        self.at_depth(held);
        self.emit(Insn::Pop);
        self.emit(Insn::PushFalse);
        self.patch_here(to_end);
        Ok(())
    }

    /// The class a compound pattern asks for, tested.
    fn pattern_class(&mut self, constant: &Option<Expr>, subject: u16) -> (r: Result<
        Vec<usize>,
        Unsupported,
    >)
        ensures
            match r {
                Ok(fails) => lower::lower_pattern_class(old(self)@, *constant, subject) == Ok::<
                    (Code, Seq<usize>),
                    Unsupported,
                >((final(self)@, fails@)),
                Err(u) => lower::lower_pattern_class(old(self)@, *constant, subject) == Err::<
                    (Code, Seq<usize>),
                    Unsupported,
                >(u),
            },
            expr::tidied(old(self)@, final(self)@, r is Ok),
        decreases *constant, 0nat,
    {
        let mut fails: Vec<usize> = Vec::new();
        assert(fails@ =~= Seq::empty());
        if let Some(constant) = constant {
            self.emit(Insn::GetLocal(subject, 0));
            if let Err(u) = self.expr(constant) {
                return Err(u);
            }
            self.emit(Insn::CaseEq);
            let at = self.emit_jump(Jump::Unless);
            fails.push(at);
            assert(fails@ =~= seq![at]);
        }
        Ok(fails)
    }

    /// What `deconstruct` answers of the subject, in a local and on top.
    fn deconstruct_into(&mut self, parts: u16, subject: u16, cache: Option<u16>)
        ensures
            final(self)@ == lower::deconstructed(old(self)@, parts, subject, cache),
            expr::tidied(old(self)@, final(self)@, true),
    {
        match cache {
            None => {
                self.emit(Insn::PushSelf);
                self.emit(Insn::GetLocal(subject, 0));
                self.emit_send_to_self("__pattern_deconstruct__", 1);
            },
            Some(cache) => {
                let before: usize = self.depth();
                self.emit(Insn::GetLocal(cache, 0));
                let hit = self.emit_jump(Jump::IfKeep);
                self.emit(Insn::Pop);
                self.emit(Insn::PushSelf);
                self.emit(Insn::GetLocal(subject, 0));
                self.emit_send_to_self("__pattern_deconstruct__", 1);
                self.emit(Insn::Dup);
                self.emit(Insn::SetLocal(cache, 0));
                self.patch_here(hit);
                self.at_depth(above(before));
            },
        }
        self.emit(Insn::Dup);
        self.emit(Insn::SetLocal(parts, 0));
    }

    /// How many elements there are, in a local.
    fn measure(&mut self, parts: u16, length: u16)
        ensures
            final(self)@ == lower::measured(old(self)@, parts, length),
            expr::tidied(old(self)@, final(self)@, true),
    {
        self.set_pattern_cache(None);
        self.emit(Insn::GetLocal(parts, 0));
        self.emit_send("size", 0);
        self.emit(Insn::SetLocal(length, 0));
    }

    /// The end of a compound pattern.
    fn finish_pattern(&mut self, base: usize, fails: &Vec<usize>)
        ensures
            final(self)@ == lower::finish_pattern(old(self)@, base as nat, fails@),
            expr::tidied(old(self)@, final(self)@, true),
    {
        self.emit(Insn::PushTrue);
        let to_end = self.emit_jump(Jump::Always);
        self.patch_all_here(fails);
        self.at_depth(base);
        self.emit(Insn::PushFalse);
        self.patch_here(to_end);
    }

    /// `[a, *b, c]`.
    fn array_pattern(&mut self, node: &ArrayPattern, span: Span) -> (r: Result<(), Unsupported>)
        ensures
            expr::done(r, final(self)@, lower::lower_array_pattern(old(self)@, *node, span)),
            expr::tidied(old(self)@, final(self)@, r is Ok),
        decreases *node, 0nat,
    {
        let subject: u16 = self.pattern_slot("subject");
        let parts: u16 = self.pattern_slot("parts");
        let length: u16 = self.pattern_slot("length");
        self.emit(Insn::SetLocal(subject, 0));
        let base: usize = self.depth();
        let mut fails = match self.pattern_class(&node.constant, subject) {
            Ok(v) => v,
            Err(u) => {
                return Err(u);
            },
        };
        let cache = self.pattern_cache();
        self.deconstruct_into(parts, subject, cache);
        let at = self.emit_jump(Jump::Unless);
        fails.push(at);
        self.measure(parts, length);
        let requireds: usize = node.requireds.len();
        let posts: usize = node.posts.len();
        if requireds as u64 > WIDEST || posts as u64 > WIDEST {
            return code::refuse("an array pattern this wide", span);
        }
        let fixed: i64 = requireds as i64 + posts as i64;
        self.emit(Insn::GetLocal(length, 0));
        self.emit(Insn::PushInt(fixed));
        self.emit(
            Insn::BinOp(
                if node.rest.is_some() {
                    BinOp::Ge
                } else {
                    BinOp::Eq
                },
            ),
        );
        let at = self.emit_jump(Jump::Unless);
        fails.push(at);
        if let Err(u) = self.required_patterns(&node.requireds, parts, &mut fails) {
            return Err(u);
        }
        if let Err(u) = self.post_patterns(&node.posts, parts, length, &mut fails) {
            return Err(u);
        }
        if let Some(rest) = &node.rest {
            if let Some((name, depth)) = names::rest_target(rest) {
                self.emit(Insn::GetLocal(parts, 0));
                self.emit(Insn::PushInt(requireds as i64));
                self.emit(Insn::GetLocal(length, 0));
                self.emit(Insn::PushInt(fixed));
                self.emit(Insn::BinOp(BinOp::Sub));
                self.emit_send("__take__", 2);
                let (slot, up) = match self.outer_slot(name.as_str(), depth, span) {
                    Ok(v) => v,
                    Err(u) => {
                        return Err(u);
                    },
                };
                self.emit(Insn::SetLocal(slot, up));
            }
        }
        self.set_pattern_cache(cache);
        self.finish_pattern(base, &fails);
        Ok(())
    }

    /// The elements an array pattern starts with.
    fn required_patterns(&mut self, elements: &Vec<Expr>, parts: u16, fails: &mut Vec<usize>) -> (r:
        Result<(), Unsupported>)
        requires
            elements@.len() <= WIDEST,
        ensures
            match r {
                Ok(_) => lower::lower_requireds(old(self)@, elements@, 0, parts, old(fails)@)
                    == Ok::<(Code, Seq<usize>), Unsupported>((final(self)@, final(fails)@)),
                Err(u) => lower::lower_requireds(old(self)@, elements@, 0, parts, old(fails)@)
                    == Err::<(Code, Seq<usize>), Unsupported>(u),
            },
            expr::tidied(old(self)@, final(self)@, r is Ok),
        decreases *elements, 0nat,
    {
        let ghost c = self@;
        let ghost was = fails@;
        let mut i: usize = 0;
        while i < elements.len()
            invariant
                i <= elements.len(),
                elements@.len() <= WIDEST,
                c == old(self)@,
                was == old(fails)@,
                expr::tidied(c, self@, true),
                lower::lower_requireds(self@, elements@, i as nat, parts, fails@)
                    == lower::lower_requireds(c, elements@, 0, parts, was),
            decreases elements.len() - i,
        {
            self.emit(Insn::GetLocal(parts, 0));
            self.emit(Insn::PushInt(i as i64));
            self.emit_send("[]", 1);
            if let Err(u) = self.pattern(&elements[i]) {
                return Err(u);
            }
            let at = self.emit_jump(Jump::Unless);
            fails.push(at);
            i += 1;
        }
        Ok(())
    }

    /// The elements an array pattern ends with, counted from the end.
    fn post_patterns(
        &mut self,
        elements: &Vec<Expr>,
        parts: u16,
        length: u16,
        fails: &mut Vec<usize>,
    ) -> (r: Result<(), Unsupported>)
        requires
            elements@.len() <= WIDEST,
        ensures
            match r {
                Ok(_) => lower::lower_posts(
                    old(self)@,
                    elements@,
                    0,
                    parts,
                    length,
                    old(fails)@,
                ) == Ok::<(Code, Seq<usize>), Unsupported>((final(self)@, final(fails)@)),
                Err(u) => lower::lower_posts(
                    old(self)@,
                    elements@,
                    0,
                    parts,
                    length,
                    old(fails)@,
                ) == Err::<(Code, Seq<usize>), Unsupported>(u),
            },
            expr::tidied(old(self)@, final(self)@, r is Ok),
        decreases *elements, 0nat,
    {
        let ghost c = self@;
        let ghost was = fails@;
        let mut i: usize = 0;
        while i < elements.len()
            invariant
                i <= elements.len(),
                elements@.len() <= WIDEST,
                c == old(self)@,
                was == old(fails)@,
                expr::tidied(c, self@, true),
                lower::lower_posts(self@, elements@, i as nat, parts, length, fails@)
                    == lower::lower_posts(c, elements@, 0, parts, length, was),
            decreases elements.len() - i,
        {
            let from_end: usize = elements.len() - i;
            self.emit(Insn::GetLocal(parts, 0));
            self.emit(Insn::GetLocal(length, 0));
            self.emit(Insn::PushInt(from_end as i64));
            self.emit(Insn::BinOp(BinOp::Sub));
            self.emit_send("[]", 1);
            if let Err(u) = self.pattern(&elements[i]) {
                return Err(u);
            }
            let at = self.emit_jump(Jump::Unless);
            fails.push(at);
            i += 1;
        }
        Ok(())
    }

    /// The place so far behind the cursor, pushed.
    fn past_cursor(&mut self, cursor: u16, width: i64)
        ensures
            final(self)@ == lower::past_cursor(old(self)@, cursor, width),
            expr::tidied(old(self)@, final(self)@, true),
    {
        self.emit(Insn::GetLocal(cursor, 0));
        self.emit(Insn::PushInt(width));
        self.emit(Insn::BinOp(BinOp::Add));
    }

    /// `[*, a, b, *]`.
    fn find_pattern(&mut self, node: &FindPattern) -> (r: Result<(), Unsupported>)
        ensures
            expr::done(r, final(self)@, lower::lower_find_pattern(old(self)@, *node)),
            expr::tidied(old(self)@, final(self)@, r is Ok),
        decreases *node, 0nat,
    {
        let subject: u16 = self.pattern_slot("subject");
        let parts: u16 = self.pattern_slot("parts");
        let length: u16 = self.pattern_slot("length");
        let cursor: u16 = self.pattern_slot("cursor");
        self.emit(Insn::SetLocal(subject, 0));
        let base: usize = self.depth();
        let mut fails = match self.pattern_class(&node.constant, subject) {
            Ok(v) => v,
            Err(u) => {
                return Err(u);
            },
        };
        let cache = self.pattern_cache();
        self.deconstruct_into(parts, subject, cache);
        let at = self.emit_jump(Jump::Unless);
        fails.push(at);
        self.measure(parts, length);
        let requireds: usize = node.requireds.len();
        #[verifier::truncate]
        let width: i64 = requireds as i64;
        self.emit(Insn::PushInt(0));
        self.emit(Insn::SetLocal(cursor, 0));
        let top: usize = self.here();
        self.past_cursor(cursor, width);
        self.emit(Insn::GetLocal(length, 0));
        self.emit(Insn::BinOp(BinOp::Le));
        let at = self.emit_jump(Jump::Unless);
        fails.push(at);
        let retry = match self.found_patterns(&node.requireds, parts, cursor) {
            Ok(v) => v,
            Err(u) => {
                return Err(u);
            },
        };
        if let Some((name, depth)) = names::rest_target(&node.left) {
            self.emit(Insn::GetLocal(parts, 0));
            self.emit(Insn::PushInt(0));
            self.emit(Insn::GetLocal(cursor, 0));
            self.emit_send("__take__", 2);
            let (slot, up) = match self.outer_slot(name.as_str(), depth, node.left.span) {
                Ok(v) => v,
                Err(u) => {
                    return Err(u);
                },
            };
            self.emit(Insn::SetLocal(slot, up));
        }
        if let Some((name, depth)) = names::rest_target(&node.right) {
            self.emit(Insn::GetLocal(parts, 0));
            self.past_cursor(cursor, width);
            self.emit(Insn::GetLocal(length, 0));
            self.past_cursor(cursor, width);
            self.emit(Insn::BinOp(BinOp::Sub));
            self.emit_send("__take__", 2);
            let (slot, up) = match self.outer_slot(name.as_str(), depth, node.right.span) {
                Ok(v) => v,
                Err(u) => {
                    return Err(u);
                },
            };
            self.emit(Insn::SetLocal(slot, up));
        }
        let matched = self.emit_jump(Jump::Always);
        self.patch_all_here(&retry);
        self.at_depth(base);
        self.past_cursor(cursor, 1);
        self.emit(Insn::SetLocal(cursor, 0));
        let back = self.emit_jump(Jump::Always);
        self.patch(back, top);
        self.patch_here(matched);
        self.at_depth(base);
        self.set_pattern_cache(cache);
        self.finish_pattern(base, &fails);
        Ok(())
    }

    /// The elements a find pattern looks for, at the cursor.
    fn found_patterns(&mut self, elements: &Vec<Expr>, parts: u16, cursor: u16) -> (r: Result<
        Vec<usize>,
        Unsupported,
    >)
        ensures
            match r {
                Ok(retry) => lower::lower_found(
                    old(self)@,
                    elements@,
                    0,
                    parts,
                    cursor,
                    Seq::empty(),
                ) == Ok::<(Code, Seq<usize>), Unsupported>((final(self)@, retry@)),
                Err(u) => lower::lower_found(
                    old(self)@,
                    elements@,
                    0,
                    parts,
                    cursor,
                    Seq::empty(),
                ) == Err::<(Code, Seq<usize>), Unsupported>(u),
            },
            expr::tidied(old(self)@, final(self)@, r is Ok),
        decreases *elements, 0nat,
    {
        let ghost c = self@;
        let mut retry: Vec<usize> = Vec::new();
        assert(retry@ =~= Seq::empty());
        let mut i: usize = 0;
        while i < elements.len()
            invariant
                i <= elements.len(),
                c == old(self)@,
                expr::tidied(c, self@, true),
                lower::lower_found(self@, elements@, i as nat, parts, cursor, retry@)
                    == lower::lower_found(c, elements@, 0, parts, cursor, Seq::empty()),
            decreases elements.len() - i,
        {
            self.emit(Insn::GetLocal(parts, 0));
            #[verifier::truncate]
            let place: i64 = i as i64;
            self.past_cursor(cursor, place);
            self.emit_send("[]", 1);
            if let Err(u) = self.pattern(&elements[i]) {
                return Err(u);
            }
            let at = self.emit_jump(Jump::Unless);
            retry.push(at);
            i += 1;
        }
        Ok(retry)
    }

    /// The key of an element of a hash pattern.
    fn pattern_key_of(entry: &HashEntry) -> (r: Result<String, Unsupported>)
        ensures
            match r {
                Ok(key) => lower::pattern_key_of(*entry) == Ok::<Seq<char>, Unsupported>(key@),
                Err(u) => lower::pattern_key_of(*entry) == Err::<Seq<char>, Unsupported>(u),
            },
    {
        match &entry.kind {
            HashEntryKind::Splat(_) => code::refuse("a splat in a hash pattern", entry.span),
            HashEntryKind::Pair { key, value: _ } => match &key.kind {
                ExprKind::Sym(parts) => match names::flat_bytes(parts) {
                    None => code::refuse("an interpolated key in a pattern", key.span),
                    Some(bytes) => match text::decoded(bytes) {
                        Some(text) => Ok(text),
                        None => code::refuse("a key that is not UTF-8", key.span),
                    },
                },
                _ => code::refuse("a non-symbol key in a pattern", key.span),
            },
        }
    }

    /// The keys of a hash pattern, in the pool.
    fn pattern_keys(&mut self, elements: &Vec<HashEntry>) -> (r: Result<Vec<u32>, Unsupported>)
        ensures
            match r {
                Ok(keys) => keys@.len() == elements@.len() && lower::pattern_keys(
                    old(self)@,
                    elements@,
                    0,
                    Seq::empty(),
                ) == Ok::<(Code, Seq<u32>), Unsupported>((final(self)@, keys@)),
                Err(u) => lower::pattern_keys(old(self)@, elements@, 0, Seq::empty()) == Err::<
                    (Code, Seq<u32>),
                    Unsupported,
                >(u),
            },
            expr::tidied(old(self)@, final(self)@, r is Ok),
    {
        let ghost c = self@;
        let mut keys: Vec<u32> = Vec::new();
        assert(keys@ =~= Seq::empty());
        let mut i: usize = 0;
        while i < elements.len()
            invariant
                i <= elements.len(),
                keys@.len() == i,
                c == old(self)@,
                expr::tidied(c, self@, true),
                lower::pattern_keys(self@, elements@, i as nat, keys@) == lower::pattern_keys(
                    c,
                    elements@,
                    0,
                    Seq::empty(),
                ),
            decreases elements.len() - i,
        {
            let key = match Compiler::pattern_key_of(&elements[i]) {
                Ok(v) => v,
                Err(u) => {
                    return Err(u);
                },
            };
            let symbol = self.symbol(key.as_str());
            keys.push(symbol);
            i += 1;
        }
        Ok(keys)
    }

    /// Several symbols, pushed.
    fn push_symbols(&mut self, symbols: &Vec<u32>)
        ensures
            final(self)@ == lower::push_symbols(old(self)@, symbols@, 0),
            expr::tidied(old(self)@, final(self)@, true),
    {
        let ghost c = self@;
        let mut i: usize = 0;
        while i < symbols.len()
            invariant
                i <= symbols.len(),
                expr::tidied(c, self@, true),
                lower::push_symbols(self@, symbols@, i as nat) == lower::push_symbols(
                    c,
                    symbols@,
                    0,
                ),
            decreases symbols.len() - i,
        {
            self.emit(Insn::PushSym(symbols[i]));
            i += 1;
        }
    }

    /// How many pairs there are, compared.
    fn compare_size(&mut self, pairs: u16, count: i64)
        ensures
            final(self)@ == lower::sized(old(self)@, pairs, count),
            expr::tidied(old(self)@, final(self)@, true),
    {
        self.emit(Insn::GetLocal(pairs, 0));
        self.emit_send("size", 0);
        self.emit(Insn::PushInt(count));
        self.emit(Insn::BinOp(BinOp::Eq));
    }

    /// `{a:, **rest}`.
    fn hash_pattern(&mut self, node: &HashPattern, span: Span) -> (r: Result<(), Unsupported>)
        ensures
            expr::done(r, final(self)@, lower::lower_hash_pattern(old(self)@, *node, span)),
            expr::tidied(old(self)@, final(self)@, r is Ok),
        decreases *node, 0nat,
    {
        let subject: u16 = self.pattern_slot("subject");
        let pairs: u16 = self.pattern_slot("pairs");
        self.emit(Insn::SetLocal(subject, 0));
        let base: usize = self.depth();
        let mut fails = match self.pattern_class(&node.constant, subject) {
            Ok(v) => v,
            Err(u) => {
                return Err(u);
            },
        };
        let keys = match self.pattern_keys(&node.elements) {
            Ok(v) => v,
            Err(u) => {
                return Err(u);
            },
        };
        self.emit(Insn::PushSelf);
        self.emit(Insn::GetLocal(subject, 0));
        let all = match &node.rest {
            Some(PatternRest::Splat(_)) => true,
            _ => false,
        };
        let count: usize = keys.len();
        if all {
            self.emit(Insn::PushNil);
        } else {
            if count > u32::MAX as usize {
                return code::refuse("a hash pattern this wide", span);
            }
            self.push_symbols(&keys);
            self.emit(Insn::NewArray(count as u32));
        }
        self.emit_send_to_self("__pattern_deconstruct_keys__", 2);
        self.emit(Insn::Dup);
        self.emit(Insn::SetLocal(pairs, 0));
        let cache = self.pattern_cache();
        let at = self.emit_jump(Jump::Unless);
        fails.push(at);
        self.set_pattern_cache(None);
        if let Err(u) = self.pair_patterns(&node.elements, &keys, pairs, &mut fails) {
            return Err(u);
        }
        if let Err(u) = self.pattern_rest(node, &keys, pairs, &mut fails, span) {
            return Err(u);
        }
        self.set_pattern_cache(cache);
        self.finish_pattern(base, &fails);
        Ok(())
    }

    /// Whether a key is there.
    fn test_key(&mut self, key: u32, pairs: u16, fails: &mut Vec<usize>)
        ensures
            (final(self)@, final(fails)@) == lower::key_tested(
                old(self)@,
                key,
                pairs,
                old(fails)@,
            ),
            expr::tidied(old(self)@, final(self)@, true),
    {
        self.emit(Insn::GetLocal(pairs, 0));
        self.emit(Insn::PushSym(key));
        self.emit_send("key?", 1);
        match self.pattern_key() {
            None => {
                let at = self.emit_jump(Jump::Unless);
                fails.push(at);
            },
            Some(slot) => {
                let found = self.emit_jump(Jump::If);
                let missed: usize = self.depth();
                self.emit(Insn::PushSym(key));
                self.emit(Insn::SetLocal(slot, 0));
                let at = self.emit_jump(Jump::Always);
                fails.push(at);
                self.patch_here(found);
                self.at_depth(missed);
            },
        }
    }

    /// The elements of a hash pattern.
    fn pair_patterns(
        &mut self,
        elements: &Vec<HashEntry>,
        keys: &Vec<u32>,
        pairs: u16,
        fails: &mut Vec<usize>,
    ) -> (r: Result<(), Unsupported>)
        requires
            keys@.len() == elements@.len(),
        ensures
            match r {
                Ok(_) => lower::lower_pairs(
                    old(self)@,
                    elements@,
                    0,
                    keys@,
                    pairs,
                    old(fails)@,
                ) == Ok::<(Code, Seq<usize>), Unsupported>((final(self)@, final(fails)@)),
                Err(u) => lower::lower_pairs(
                    old(self)@,
                    elements@,
                    0,
                    keys@,
                    pairs,
                    old(fails)@,
                ) == Err::<(Code, Seq<usize>), Unsupported>(u),
            },
            expr::tidied(old(self)@, final(self)@, r is Ok),
        decreases *elements, 0nat,
    {
        let ghost c = self@;
        let ghost was = fails@;
        let mut i: usize = 0;
        while i < elements.len()
            invariant
                i <= elements.len(),
                keys@.len() == elements@.len(),
                c == old(self)@,
                was == old(fails)@,
                expr::tidied(c, self@, true),
                lower::lower_pairs(self@, elements@, i as nat, keys@, pairs, fails@)
                    == lower::lower_pairs(c, elements@, 0, keys@, pairs, was),
            decreases elements.len() - i,
        {
            match &elements[i].kind {
                HashEntryKind::Pair { key: _, value } => {
                    self.test_key(keys[i], pairs, fails);
                    self.emit(Insn::GetLocal(pairs, 0));
                    self.emit(Insn::PushSym(keys[i]));
                    self.emit_send("[]", 1);
                    match &value.kind {
                        ExprKind::Implicit(inner) => {
                            if let Err(u) = self.pattern(inner) {
                                return Err(u);
                            }
                        },
                        _ => {
                            if let Err(u) = self.pattern(value) {
                                return Err(u);
                            }
                        },
                    }
                    let at = self.emit_jump(Jump::Unless);
                    fails.push(at);
                },
                HashEntryKind::Splat(_) => {
                    return Ok(());
                },
            }
            i += 1;
        }
        Ok(())
    }

    /// What a hash pattern asks of the pairs it does not name.
    fn pattern_rest(
        &mut self,
        node: &HashPattern,
        keys: &Vec<u32>,
        pairs: u16,
        fails: &mut Vec<usize>,
        span: Span,
    ) -> (r: Result<(), Unsupported>)
        ensures
            match r {
                Ok(_) => lower::lower_pattern_rest(
                    old(self)@,
                    *node,
                    keys@,
                    pairs,
                    old(fails)@,
                    span,
                ) == Ok::<(Code, Seq<usize>), Unsupported>((final(self)@, final(fails)@)),
                Err(u) => lower::lower_pattern_rest(
                    old(self)@,
                    *node,
                    keys@,
                    pairs,
                    old(fails)@,
                    span,
                ) == Err::<(Code, Seq<usize>), Unsupported>(u),
            },
            expr::tidied(old(self)@, final(self)@, r is Ok),
    {
        let named: usize = keys.len();
        match &node.rest {
            Some(PatternRest::Forbidden) => {
                #[verifier::truncate]
                let count: i64 = named as i64;
                self.compare_size(pairs, count);
                let at = self.emit_jump(Jump::Unless);
                fails.push(at);
                Ok(())
            },
            Some(PatternRest::Splat(Some(target))) => {
                self.emit(Insn::PushSelf);
                self.emit(Insn::GetLocal(pairs, 0));
                self.push_symbols(keys);
                #[verifier::truncate]
                let count: u32 = named as u32;
                self.emit(Insn::NewArray(count));
                self.emit_send_to_self("__pattern_rest__", 2);
                match names::rest_target(target) {
                    Some((name, depth)) => {
                        let (slot, up) = match self.outer_slot(name.as_str(), depth, span) {
                            Ok(v) => v,
                            Err(u) => {
                                return Err(u);
                            },
                        };
                        self.emit(Insn::SetLocal(slot, up));
                    },
                    None => self.emit(Insn::Pop),
                }
                Ok(())
            },
            Some(PatternRest::Splat(None)) => Ok(()),
            None => {
                if node.elements.len() == 0 {
                    self.compare_size(pairs, 0);
                    let at = self.emit_jump(Jump::Unless);
                    fails.push(at);
                }
                Ok(())
            },
        }
    }
}

} // verus!
