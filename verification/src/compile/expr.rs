//! Expressions.

use vstd::prelude::*;

use crate::ast::{
    Alias, Begin, Case, Expr, ExprKind, HashEntryKind, HashLit, If, IntValue,
    Logical, LogicalOp, Name, RangeLit, RegexpLit, Span, StrPart, VarRef,
};
use crate::bytecode::{Insn, Literal, MatchRef};
use crate::compile::code;
use crate::compile::code::{Code, Compiler, Jump, Lowered, Unsupported};
use crate::compile::lower;
use crate::compile::lower::{ERRINFO, IT};
use crate::compile::names;
use crate::text;
use crate::value;
use crate::value::Value;

verus! {

/// Whether a lowering did what it should: it left the code that is said, or
/// refused for the reason that is said.
pub open spec fn done(r: Result<(), Unsupported>, now: Code, said: Lowered) -> bool {
    match r {
        Ok(_) => said == Ok::<Code, Unsupported>(now),
        Err(u) => said == Err::<Code, Unsupported>(u),
    }
}

/// Whether a lowering left the symbols in order.
pub open spec fn tidied(was: Code, now: Code, ok: bool) -> bool {
    ok && was.tidy() ==> now.tidy()
}

/// A number, one higher, where there is room.
pub(crate) fn above(n: usize) -> (r: usize)
    ensures
        r == lower::above(n as nat),
{
    if n == usize::MAX {
        n
    } else {
        n + 1
    }
}

/// A number, one lower, where there is room.
pub(crate) fn below(n: usize) -> (r: usize)
    ensures
        r == lower::below(n as nat),
{
    if n == 0 {
        0
    } else {
        n - 1
    }
}

/// A count of arguments, one higher.
pub(crate) fn more(n: u16) -> (r: u16)
    ensures
        r == lower::more(n),
{
    let up: u32 = n as u32 + 1;
    #[verifier::truncate]
    let r: u16 = up as u16;
    r
}

impl Compiler {
    /// Statements, one behind the other.
    pub(crate) fn statements(&mut self, body: &Vec<Expr>, keep: bool) -> (r: Result<(), Unsupported>)
        ensures
            done(r, final(self)@, lower::lower_body(old(self)@, body@, 0, keep)),
            tidied(old(self)@, final(self)@, r is Ok),
        decreases *body, 0nat,
    {
        let ghost c = self@;
        let len: usize = body.len();
        if len == 0 {
            if keep {
                self.emit(Insn::PushNil);
            }
            return Ok(());
        }
        let mut i: usize = 0;
        while i < len - 1
            invariant
                i <= len - 1,
                len == body@.len(),
                len > 0,
                lower::lower_body(self@, body@, i as nat, keep) == lower::lower_body(
                    c,
                    body@,
                    0,
                    keep,
                ),
                c == old(self)@,
                tidied(c, self@, true),
            decreases len - i,
        {
            if let Err(u) = self.expr(&body[i]) {
                return Err(u);
            }
            self.emit(Insn::Pop);
            i += 1;
        }
        if let Err(u) = self.expr(&body[i]) {
            return Err(u);
        }
        if !keep {
            self.emit(Insn::Pop);
        }
        Ok(())
    }

    /// Statements, or `nil` where there are none.
    pub(crate) fn body_or_nil(&mut self, body: &Option<Vec<Expr>>) -> (r: Result<(), Unsupported>)
        ensures
            done(r, final(self)@, lower::lower_body_or_nil(old(self)@, *body)),
            tidied(old(self)@, final(self)@, r is Ok),
        decreases *body, 0nat,
    {
        match body {
            Some(body) => self.statements(body, true),
            None => {
                self.emit(Insn::PushNil);
                Ok(())
            },
        }
    }

    /// An expression, or `nil` where there is none.
    pub(crate) fn expr_or_nil(&mut self, expr: &Option<Expr>) -> (r: Result<(), Unsupported>)
        ensures
            done(r, final(self)@, lower::lower_or_nil(old(self)@, *expr)),
            tidied(old(self)@, final(self)@, r is Ok),
        decreases *expr, 0nat,
    {
        match expr {
            Some(expr) => self.expr(expr),
            None => {
                self.emit(Insn::PushNil);
                Ok(())
            },
        }
    }

    /// The value of a `break`, a `next` or a `return`.
    pub(crate) fn value_or_nil(&mut self, value: &Option<Box<Expr>>) -> (r: Result<(), Unsupported>)
        ensures
            done(r, final(self)@, lower::lower_value(old(self)@, *value)),
            tidied(old(self)@, final(self)@, r is Ok),
        decreases *value, 0nat,
    {
        match value {
            Some(value) => self.expr(value),
            None => {
                self.emit(Insn::PushNil);
                Ok(())
            },
        }
    }

    /// Several expressions, each value kept.
    pub(crate) fn each(&mut self, exprs: &Vec<Expr>) -> (r: Result<(), Unsupported>)
        ensures
            done(r, final(self)@, lower::lower_each(old(self)@, exprs@, 0)),
            tidied(old(self)@, final(self)@, r is Ok),
        decreases *exprs, 0nat,
    {
        let ghost c = self@;
        let mut i: usize = 0;
        while i < exprs.len()
            invariant
                i <= exprs.len(),
                c == old(self)@,
                lower::lower_each(self@, exprs@, i as nat) == lower::lower_each(c, exprs@, 0),
                tidied(c, self@, true),
            decreases exprs.len() - i,
        {
            if let Err(u) = self.expr(&exprs[i]) {
                return Err(u);
            }
            i += 1;
        }
        Ok(())
    }

    /// An expression.
    #[verifier::spinoff_prover]
    #[verifier::rlimit(100)]
    pub(crate) fn expr(&mut self, expr: &Expr) -> (r: Result<(), Unsupported>)
        ensures
            done(r, final(self)@, lower::lower_expr(old(self)@, *expr)),
            tidied(old(self)@, final(self)@, r is Ok),
        decreases *expr, 0nat,
    {
        let span = expr.span;
        match &expr.kind {
            ExprKind::Nil => {
                self.emit(Insn::PushNil);
                Ok(())
            },
            ExprKind::True => {
                self.emit(Insn::PushTrue);
                Ok(())
            },
            ExprKind::False => {
                self.emit(Insn::PushFalse);
                Ok(())
            },
            ExprKind::SelfExpr => {
                self.emit(Insn::PushSelf);
                Ok(())
            },
            ExprKind::SourceFile(path) => {
                self.push_literal(Literal::Str(names::copy_bytes(path)));
                Ok(())
            },
            ExprKind::SourceLine(line) => {
                self.emit(Insn::PushInt(*line as i64));
                Ok(())
            },
            ExprKind::Int(number) => self.integer(number, span),
            ExprKind::Float(bits) => {
                let literal = match Value::flonum(*bits) {
                    Some(_) => Literal::Float(*bits),
                    None => Literal::BoxedFloat(*bits),
                };
                self.push_literal(literal);
                Ok(())
            },
            ExprKind::Str(parts) => match names::flat_bytes(parts) {
                Some(bytes) => {
                    self.push_literal(Literal::Str(bytes));
                    Ok(())
                },
                None => self.interpolated(parts),
            },
            ExprKind::Regexp(regexp) => self.regexp(regexp, span),
            ExprKind::Sym(parts) => match names::flat_bytes(parts) {
                Some(bytes) => match text::decoded(bytes) {
                    Some(name) => {
                        let index = self.symbol(name.as_str());
                        self.emit(Insn::PushSym(index));
                        Ok(())
                    },
                    None => code::refuse("a symbol that is not UTF-8", span),
                },
                None => {
                    if let Err(u) = self.interpolated(parts) {
                        return Err(u);
                    }
                    self.emit(Insn::Intern);
                    Ok(())
                },
            },
            ExprKind::Array(elements) => self.array_literal(elements, span),
            ExprKind::Hash(hash) => self.hash_literal(hash),
            ExprKind::Range(range) => self.range_literal(range),
            ExprKind::Var(var) => self.var(var, span),
            ExprKind::Alias(alias) => self.alias(alias, span),
            ExprKind::Undef(undefined) => self.undef(undefined, span),
            ExprKind::Assign(assign) => self.assign(assign, span),
            ExprKind::If(node) => self.if_expr(node),
            ExprKind::While(node) => self.while_expr(node),
            ExprKind::For(node) => self.for_expr(node, span),
            ExprKind::Case(node) => self.case_expr(node, span),
            ExprKind::MatchPattern(node) => self.match_pattern(node),
            ExprKind::Logical(node) => self.logical(node),
            ExprKind::Parens(body) => self.statements(body, true),
            ExprKind::Call(call) => self.call(call, span),
            ExprKind::Begin(node) => {
                if node.rescues.len() == 0 && node.else_body.is_none()
                    && node.ensure_body.is_none() {
                    self.statements(&node.body, true)
                } else {
                    self.begin_expr(node)
                }
            },
            ExprKind::RescueMod(node) => self.rescue_mod(node),
            ExprKind::Retry => self.retry_expr(span),
            ExprKind::Redo => self.redo_expr(span),
            ExprKind::Break(value) => self.jump_out(value, true, span),
            ExprKind::Next(value) => self.jump_out(value, false, span),
            ExprKind::ConstPath(path) => {
                let (symbol, how) = match self.const_path(path, span) {
                    Ok(v) => v,
                    Err(u) => {
                        return Err(u);
                    },
                };
                self.emit(Insn::GetConst(symbol, how));
                Ok(())
            },
            ExprKind::Class(class) => self.class_expr(class),
            ExprKind::Module(module) => self.module_expr(module),
            ExprKind::SingletonClass(node) => self.singleton_expr(node),
            ExprKind::Defined(inner) => self.swallowing(inner, span),
            ExprKind::Def(def) => self.def_expr(def, span),
            ExprKind::Yield(args) => self.yield_expr(args),
            ExprKind::Super(node) => self.super_expr(node, span),
            ExprKind::Lambda(block) => self.lambda(block, span),
            ExprKind::Return(value) => {
                if let Err(u) = self.value_or_nil(value) {
                    return Err(u);
                }
                self.emit(Insn::Return);
                Ok(())
            },
            other => code::refuse(names::node_name(other), span),
        }
    }

    /// An integer.
    fn integer(&mut self, number: &IntValue, span: Span) -> (r: Result<(), Unsupported>)
        ensures
            done(r, final(self)@, lower::lower_int(old(self)@, *number, span)),
            tidied(old(self)@, final(self)@, r is Ok),
    {
        match number {
            IntValue::Small(n) => match Value::fixnum(*n) {
                Some(_) => {
                    self.emit(Insn::PushInt(*n));
                    Ok(())
                },
                None => code::refuse("an integer wider than a fixnum", span),
            },
            IntValue::Big(_) => code::refuse("an integer wider than a fixnum", span),
        }
    }

    /// A string with interpolation.
    pub(crate) fn interpolated(&mut self, parts: &Vec<StrPart>) -> (r: Result<(), Unsupported>)
        ensures
            done(r, final(self)@, lower::lower_interpolated(old(self)@, parts@)),
            tidied(old(self)@, final(self)@, r is Ok),
        decreases *parts, 0nat,
    {
        let ghost start = self@;
        let empty: Vec<u8> = Vec::new();
        assert(empty@ =~= Seq::<u8>::empty());
        self.push_literal(Literal::Str(empty));
        let ghost c = self@;
        let mut i: usize = 0;
        while i < parts.len()
            invariant
                i <= parts.len(),
                start == old(self)@,
                start.tidy() ==> self@.tidy(),
                lower::lower_interpolated(start, parts@) == lower::lower_parts(c, parts@, 0),
                lower::lower_parts(self@, parts@, i as nat) == lower::lower_parts(c, parts@, 0),
            decreases parts.len() - i,
        {
            match &parts[i] {
                StrPart::Bytes(bytes) => {
                    self.push_literal(Literal::Str(names::copy_bytes(bytes)));
                },
                StrPart::Interp(body) => {
                    if let Err(u) = self.statements(body, true) {
                        return Err(u);
                    }
                    self.emit_send("to_s", 0);
                },
            }
            self.emit_send("+", 1);
            i += 1;
        }
        Ok(())
    }

    /// A pattern.
    fn regexp(&mut self, regexp: &RegexpLit, span: Span) -> (r: Result<(), Unsupported>)
        ensures
            done(r, final(self)@, lower::lower_regexp(old(self)@, *regexp, span)),
            tidied(old(self)@, final(self)@, r is Ok),
        decreases *regexp, 0nat,
    {
        if regexp.flags.encoding {
            return code::refuse("a regexp encoding modifier", span);
        }
        let options: i64 = names::regexp_options(&regexp.flags);
        match names::flat_bytes(&regexp.parts) {
            Some(bytes) => match text::decoded(bytes) {
                Some(source) => {
                    self.push_literal(Literal::Regexp { source, options });
                    Ok(())
                },
                None => code::refuse("a regexp source that is not UTF-8", span),
            },
            None => {
                if let Err(u) = self.interpolated(&regexp.parts) {
                    return Err(u);
                }
                if regexp.flags.once {
                    let site = self.another_once();
                    self.emit(Insn::NewRegexpOnce(options, site));
                } else {
                    self.emit(Insn::NewRegexp(options));
                }
                Ok(())
            },
        }
    }

    /// An array.
    pub(crate) fn array_literal(&mut self, elements: &Vec<Expr>, span: Span) -> (r: Result<
        (),
        Unsupported,
    >)
        ensures
            done(r, final(self)@, lower::lower_array(old(self)@, elements@, span)),
            tidied(old(self)@, final(self)@, r is Ok),
        decreases *elements, 1nat,
    {
        let len: usize = elements.len();
        let mut splatted = false;
        let mut i: usize = 0;
        while i < len
            invariant
                i <= len,
                len == elements@.len(),
                splatted == (exists|k: int|
                    0 <= k < i && (#[trigger] elements@[k]).kind is Splat),
            decreases len - i,
        {
            if let ExprKind::Splat(_) = &elements[i].kind {
                splatted = true;
            }
            i += 1;
        }
        assert(splatted == lower::has_splat(elements@));
        if splatted {
            return self.splatted_array(elements);
        }
        if let Err(u) = self.each(elements) {
            return Err(u);
        }
        if len > u32::MAX as usize {
            return code::refuse("an array literal this large", span);
        }
        self.emit(Insn::NewArray(len as u32));
        Ok(())
    }

    /// The run of plain elements before a splat, joined to what there is.
    fn close_run(&mut self, open: bool, run: u32)
        ensures
            final(self)@ == lower::close_run(old(self)@, open, run),
            tidied(old(self)@, final(self)@, true),
    {
        if run > 0 || !open {
            self.emit(Insn::NewArray(run));
            if open {
                self.emit_send("__concat_splat__", 1);
            }
        }
    }

    /// An array with splats in it.
    fn splatted_array(&mut self, elements: &Vec<Expr>) -> (r: Result<(), Unsupported>)
        ensures
            done(r, final(self)@, lower::lower_splatted(old(self)@, elements@, 0, false, 0)),
            tidied(old(self)@, final(self)@, r is Ok),
        decreases *elements, 0nat,
    {
        let ghost c = self@;
        let mut open = false;
        let mut run: u32 = 0;
        let mut i: usize = 0;
        while i < elements.len()
            invariant
                i <= elements.len(),
                c == old(self)@,
                tidied(c, self@, true),
                lower::lower_splatted(self@, elements@, i as nat, open, run)
                    == lower::lower_splatted(c, elements@, 0, false, 0),
            decreases elements.len() - i,
        {
            match &elements[i].kind {
                ExprKind::Splat(inner) => {
                    match inner {
                        None => {
                            return code::refuse("an anonymous splat", elements[i].span);
                        },
                        Some(inner) => {
                            self.close_run(open, run);
                            if let Err(u) = self.expr(inner) {
                                return Err(u);
                            }
                            self.emit_send("__concat_splat__", 1);
                            open = true;
                            run = 0;
                        },
                    }
                },
                _ => {
                    if let Err(u) = self.expr(&elements[i]) {
                        return Err(u);
                    }
                    let longer: u64 = run as u64 + 1;
                    #[verifier::truncate]
                    let longer: u32 = longer as u32;
                    run = longer;
                },
            }
            i += 1;
        }
        self.close_run(open, run);
        Ok(())
    }

    /// A hash.
    pub(crate) fn hash_literal(&mut self, hash: &HashLit) -> (r: Result<(), Unsupported>)
        ensures
            done(r, final(self)@, lower::lower_hash(old(self)@, *hash)),
            tidied(old(self)@, final(self)@, r is Ok),
        decreases *hash, 0nat,
    {
        let ghost start = self@;
        self.push_const_name("Hash");
        self.emit_send("__literal__", 0);
        let ghost c = self@;
        let mut i: usize = 0;
        while i < hash.entries.len()
            invariant
                i <= hash.entries.len(),
                start == old(self)@,
                tidied(start, self@, true),
                lower::lower_hash(start, *hash) == lower::lower_entries(c, hash.entries@, 0),
                lower::lower_entries(self@, hash.entries@, i as nat) == lower::lower_entries(
                    c,
                    hash.entries@,
                    0,
                ),
            decreases hash.entries.len() - i,
        {
            match &hash.entries[i].kind {
                HashEntryKind::Pair { key, value } => {
                    self.emit(Insn::Dup);
                    if let Err(u) = self.expr(key) {
                        return Err(u);
                    }
                    if let Err(u) = self.expr(value) {
                        return Err(u);
                    }
                    self.emit_send("[]=", 2);
                    self.emit(Insn::Pop);
                },
                HashEntryKind::Splat(Some(inner)) => {
                    self.emit(Insn::Dup);
                    if let Err(u) = self.expr(inner) {
                        return Err(u);
                    }
                    self.emit_send("__merge_literal__", 1);
                    self.emit(Insn::Pop);
                },
                HashEntryKind::Splat(None) => {},
            }
            i += 1;
        }
        Ok(())
    }

    /// A range.
    fn range_literal(&mut self, range: &RangeLit) -> (r: Result<(), Unsupported>)
        ensures
            done(r, final(self)@, lower::lower_range(old(self)@, *range)),
            tidied(old(self)@, final(self)@, r is Ok),
        decreases *range, 0nat,
    {
        self.push_const_name("Range");
        if let Err(u) = self.expr_or_nil(&range.left) {
            return Err(u);
        }
        if let Err(u) = self.expr_or_nil(&range.right) {
            return Err(u);
        }
        if range.exclude_end {
            self.emit(Insn::PushTrue);
        } else {
            self.emit(Insn::PushFalse);
        }
        self.emit_send("new", 3);
        Ok(())
    }

    /// The name of a method, where it is written out.
    fn method_name(expr: &Expr, span: Span) -> (r: Result<String, Unsupported>)
        ensures
            match r {
                Ok(name) => lower::method_name(*expr, span) == Ok::<Seq<char>, Unsupported>(name@),
                Err(u) => lower::method_name(*expr, span) == Err::<Seq<char>, Unsupported>(u),
            },
    {
        match &expr.kind {
            ExprKind::Sym(parts) => match names::flat_bytes(parts) {
                Some(bytes) => match text::decoded(bytes) {
                    Some(name) => Ok(name),
                    None => code::refuse("a method name that is not UTF-8", span),
                },
                None => code::refuse("an interpolated method name here", span),
            },
            _ => code::refuse("a computed method name here", span),
        }
    }

    /// `alias`.
    fn alias(&mut self, alias: &Alias, span: Span) -> (r: Result<(), Unsupported>)
        ensures
            done(r, final(self)@, lower::lower_alias(old(self)@, *alias, span)),
            tidied(old(self)@, final(self)@, r is Ok),
    {
        if alias.global {
            return code::refuse("`alias` on a global variable", span);
        }
        let new_name = match Compiler::method_name(&alias.new_name, span) {
            Ok(v) => v,
            Err(u) => {
                return Err(u);
            },
        };
        let old_name = match Compiler::method_name(&alias.old_name, span) {
            Ok(v) => v,
            Err(u) => {
                return Err(u);
            },
        };
        let new_symbol = self.symbol(new_name.as_str());
        let old_symbol = self.symbol(old_name.as_str());
        self.emit(Insn::Alias(new_symbol, old_symbol));
        self.emit(Insn::PushNil);
        Ok(())
    }

    /// `undef`.
    fn undef(&mut self, undefined: &Vec<Expr>, span: Span) -> (r: Result<(), Unsupported>)
        ensures
            done(r, final(self)@, lower::lower_undef(old(self)@, undefined@, 0, span)),
            tidied(old(self)@, final(self)@, r is Ok),
    {
        let ghost c = self@;
        let mut i: usize = 0;
        while i < undefined.len()
            invariant
                i <= undefined.len(),
                c == old(self)@,
                tidied(c, self@, true),
                lower::lower_undef(self@, undefined@, i as nat, span) == lower::lower_undef(
                    c,
                    undefined@,
                    0,
                    span,
                ),
            decreases undefined.len() - i,
        {
            let name = match Compiler::method_name(&undefined[i], span) {
                Ok(v) => v,
                Err(u) => {
                    return Err(u);
                },
            };
            let symbol = self.symbol(name.as_str());
            self.emit(Insn::Undef(symbol));
            i += 1;
        }
        self.emit(Insn::PushNil);
        Ok(())
    }

    /// `if` and `unless`.
    fn if_expr(&mut self, node: &If) -> (r: Result<(), Unsupported>)
        ensures
            done(r, final(self)@, lower::lower_if(old(self)@, *node)),
            tidied(old(self)@, final(self)@, r is Ok),
        decreases *node, 0nat,
    {
        if let Err(u) = self.expr(&node.predicate) {
            return Err(u);
        }
        let to_else = self.emit_jump(Jump::Unless);
        let before: usize = self.depth();
        if node.unless {
            if let Err(u) = self.body_or_nil(&node.else_body) {
                return Err(u);
            }
        } else {
            if let Err(u) = self.statements(&node.then_body, true) {
                return Err(u);
            }
        }
        let to_end = self.emit_jump(Jump::Always);
        self.patch_here(to_else);
        self.at_depth(before);
        if node.unless {
            if let Err(u) = self.statements(&node.then_body, true) {
                return Err(u);
            }
        } else {
            if let Err(u) = self.body_or_nil(&node.else_body) {
                return Err(u);
            }
        }
        self.patch_here(to_end);
        Ok(())
    }

    /// `and` and `or`.
    fn logical(&mut self, node: &Logical) -> (r: Result<(), Unsupported>)
        ensures
            done(r, final(self)@, lower::lower_logical(old(self)@, *node)),
            tidied(old(self)@, final(self)@, r is Ok),
        decreases *node, 0nat,
    {
        let keep = match node.op {
            LogicalOp::And => Jump::UnlessKeep,
            LogicalOp::Or => Jump::IfKeep,
        };
        if let Err(u) = self.expr(&node.left) {
            return Err(u);
        }
        let short = self.emit_jump(keep);
        self.emit(Insn::Pop);
        if let Err(u) = self.expr(&node.right) {
            return Err(u);
        }
        self.patch_here(short);
        Ok(())
    }

    /// A variable.
    fn var(&mut self, var: &VarRef, span: Span) -> (r: Result<(), Unsupported>)
        ensures
            done(r, final(self)@, lower::lower_var(old(self)@, *var, span)),
            tidied(old(self)@, final(self)@, r is Ok),
    {
        match var {
            VarRef::Local { name, depth } => {
                let (slot, up) = match self.outer_slot(name.as_str(), *depth, span) {
                    Ok(v) => v,
                    Err(u) => {
                        return Err(u);
                    },
                };
                self.emit(Insn::GetLocal(slot, up));
                Ok(())
            },
            VarRef::Instance(name) => {
                let symbol = self.symbol(name.as_str());
                self.emit(Insn::GetIvar(symbol));
                Ok(())
            },
            VarRef::Class(name) => {
                let symbol = self.symbol(name.as_str());
                self.emit(Insn::GetCvar(symbol));
                Ok(())
            },
            VarRef::Global(name) => {
                if is_errinfo(name) {
                    self.emit(Insn::Errinfo);
                    return Ok(());
                }
                match names::match_ref(name.as_str()) {
                    Some(which) => {
                        self.emit(Insn::LastMatch(which));
                    },
                    None => {
                        let symbol = self.symbol(name.as_str());
                        self.emit(Insn::GetGlobal(symbol));
                    },
                }
                Ok(())
            },
            VarRef::Const(name) => {
                self.push_const_name(name.as_str());
                Ok(())
            },
            VarRef::It => {
                let slot = self.slot(IT);
                self.emit(Insn::GetLocal(slot, 0));
                Ok(())
            },
            VarRef::BackRef(name) => match names::match_ref(name.as_str()) {
                Some(which) => {
                    self.emit(Insn::LastMatch(which));
                    Ok(())
                },
                None => code::refuse("this regexp back-reference", span),
            },
            VarRef::NumberedRef(n) => {
                if *n > u16::MAX as u32 {
                    return code::refuse("a capture group number this wide", span);
                }
                self.emit(Insn::LastMatch(MatchRef::Group(*n as u16)));
                Ok(())
            },
        }
    }

    /// A depth that counts the scopes of the language, as one that counts
    /// environments.
    fn real_depth(&self, name: &str, depth: u32) -> (r: Option<usize>)
        ensures
            match r {
                Some(up) => lower::real_depth(self@, name@, depth) == Some(up as nat),
                None => lower::real_depth(self@, name@, depth) is None,
            },
    {
        let ghost synthetic = self@.env_synthetic;
        if !self.has_synthetic_env() {
            return Some(depth as usize);
        }
        if self.starts_synthetic() && depth == 0 && self.find_slot(name).is_some() {
            return Some(0);
        }
        let len = self.environments();
        let mut left: u32 = depth;
        let mut i: usize = 0;
        while i < len
            invariant
                i <= len,
                len == synthetic.len(),
                synthetic == self@.env_synthetic,
                lower::nth_visible(synthetic, i as nat, left as nat) == lower::nth_visible(
                    synthetic,
                    0,
                    depth as nat,
                ),
                lower::real_depth(self@, name@, depth) == lower::nth_visible(
                    synthetic,
                    0,
                    depth as nat,
                ),
            decreases len - i,
        {
            if !self.is_synthetic(i) {
                if left == 0 {
                    return Some(i);
                }
                left = left - 1;
            }
            i += 1;
        }
        None
    }

    /// The slot of a local, with the environments up to it.
    pub(crate) fn outer_slot(&mut self, name: &str, depth: u32, span: Span) -> (r: Result<
        (u16, u16),
        Unsupported,
    >)
        ensures
            match r {
                Ok((slot, up)) => lower::local_slot(old(self)@, name@, depth, span) == Ok::<
                    (Code, u16, u16),
                    Unsupported,
                >((final(self)@, slot, up)),
                Err(u) => lower::local_slot(old(self)@, name@, depth, span) == Err::<
                    (Code, u16, u16),
                    Unsupported,
                >(u),
            },
            tidied(old(self)@, final(self)@, true),
    {
        let found = match self.real_depth(name, depth) {
            Some(up) => up,
            None => {
                return code::refuse("a local variable from an enclosing scope", span);
            },
        };
        if found == 0 {
            let slot = self.slot(name);
            return Ok((slot, 0));
        }
        let scopes = self.outer_scopes();
        let up: usize = if self.is_flattened() && found > scopes {
            scopes
        } else {
            found
        };
        if up == 0 {
            return match self.find_slot(name) {
                Some(place) => {
                    #[verifier::truncate]
                    let slot: u16 = place as u16;
                    Ok((slot, 0))
                },
                None => self.unresolved_local(span),
            };
        }
        if up > scopes {
            return self.unresolved_local(span);
        }
        match self.find_outer(up - 1, name) {
            Some(place) => {
                #[verifier::truncate]
                let slot: u16 = place as u16;
                #[verifier::truncate]
                let levels: u16 = up as u16;
                Ok((slot, levels))
            },
            None => self.unresolved_local(span),
        }
    }

    /// Why a local is not found.
    fn unresolved_local<T>(&self, span: Span) -> (r: Result<T, Unsupported>)
        ensures
            r == lower::unresolved::<T>(self@, span),
    {
        if self.is_flattened() {
            code::refuse("a local variable from a block the harness did not run", span)
        } else {
            code::refuse("a local variable from an enclosing scope", span)
        }
    }

    /// Push a word of the language, as a frozen string.
    pub(crate) fn push_word(&mut self, word: &'static str)
        ensures
            final(self)@ == lower::push_word(old(self)@, word),
            tidied(old(self)@, final(self)@, true),
    {
        let bytes = word.as_bytes_vec();
        self.push_literal(Literal::FrozenStr(bytes));
    }
}

/// Whether a name is `$!`.
pub(crate) fn is_errinfo(name: &Name) -> (r: bool)
    ensures
        r == (name@ == ERRINFO@),
{
    crate::bytecode::same_text(name, ERRINFO)
}

} // verus!
