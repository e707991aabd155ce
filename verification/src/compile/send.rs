//! Calls.

use vstd::prelude::*;

use crate::ast::{Block, BlockArg, Call, Expr, ExprKind, HashEntryKind, HashLit, Span, Super};
use crate::bytecode;
use crate::bytecode::{BlockRef, CallSite, Insn};
use crate::compile::assign;
use crate::compile::code;
use crate::compile::code::{Code, Compiler, SiteModel, Unsupported};
use crate::compile::expr;
use crate::compile::expr::more;
use crate::compile::lower;
use crate::compile::names;

verus! {

/// A call site without arguments.
fn empty_site(name: u32, implicit_self: bool) -> (r: CallSite)
    ensures
        r@ == (SiteModel {
            name,
            argc: 0,
            splats: Seq::empty(),
            keywords: Seq::empty(),
            block: BlockRef::Absent,
            implicit_self,
        }),
{
    let site = CallSite {
        name,
        argc: 0,
        splats: Vec::new(),
        keywords: Vec::new(),
        block: BlockRef::Absent,
        implicit_self,
    };
    proof {
        assert(site@ =~= (SiteModel {
            name,
            argc: 0,
            splats: Seq::empty(),
            keywords: Seq::empty(),
            block: BlockRef::Absent,
            implicit_self,
        }));
    }
    site
}

impl Compiler {
    /// Whether a call is an operator that has an instruction.
    fn is_operator(call: &Call) -> (r: bool)
        ensures
            r == lower::is_operator(*call),
    {
        if call.receiver.is_none() || call.block.is_some() {
            return false;
        }
        if call.args.len() == 0 {
            return bytecode::same_text(&call.name, "!") || bytecode::same_text(&call.name, "-@")
                || bytecode::same_text(&call.name, "+@");
        }
        if call.args.len() != 1 || assign::find_operator(call.name.as_str()).is_none() {
            return false;
        }
        match &call.args[0].kind {
            ExprKind::Splat(_) => false,
            ExprKind::Hash(_) => false,
            _ => true,
        }
    }

    /// A call.
    pub(crate) fn call(&mut self, call: &Call, span: Span) -> (r: Result<(), Unsupported>)
        ensures
            expr::done(r, final(self)@, lower::lower_call(old(self)@, *call, span)),
            expr::tidied(old(self)@, final(self)@, r is Ok),
        decreases *call, 1nat,
    {
        if call.safe_nav {
            return code::refuse("a safe-navigation call", span);
        }
        if Compiler::is_operator(call) {
            return self.operator(call);
        }
        match &call.receiver {
            Some(receiver) => {
                if let Err(u) = self.expr(receiver) {
                    return Err(u);
                }
            },
            None => self.emit(Insn::PushSelf),
        }
        let passes = names::is_passed(&call.block);
        let site = match self.arguments(call.name.as_str(), &call.args, passes) {
            Ok(v) => v,
            Err(u) => {
                return Err(u);
            },
        };
        let site = match self.attach_block(site, &call.block, span) {
            Ok(v) => v,
            Err(u) => {
                return Err(u);
            },
        };
        let ghost made = site@;
        let site = with_self(site, call.receiver.is_none());
        let index = self.push_site(site);
        if call.attribute_write {
            let slot = self.hidden_slot("%attr");
            self.emit(Insn::Dup);
            self.emit(Insn::SetLocal(slot, 0));
            self.emit(Insn::Send(index));
            self.emit(Insn::Pop);
            self.emit(Insn::GetLocal(slot, 0));
            return Ok(());
        }
        self.emit(Insn::Send(index));
        Ok(())
    }

    /// An operator that has an instruction.
    fn operator(&mut self, call: &Call) -> (r: Result<(), Unsupported>)
        requires
            lower::is_operator(*call),
        ensures
            expr::done(r, final(self)@, lower::lower_operator(old(self)@, *call)),
            expr::tidied(old(self)@, final(self)@, r is Ok),
        decreases *call, 0nat,
    {
        match &call.receiver {
            Some(receiver) => {
                if let Err(u) = self.expr(receiver) {
                    return Err(u);
                }
                if call.args.len() == 0 {
                    if bytecode::same_text(&call.name, "!") {
                        self.emit(Insn::Not);
                    } else if bytecode::same_text(&call.name, "-@") {
                        self.emit(Insn::Neg);
                    }
                    return Ok(());
                }
                if let Err(u) = self.expr(&call.args[0]) {
                    return Err(u);
                }
                if let Some(op) = assign::find_operator(call.name.as_str()) {
                    self.emit(Insn::BinOp(op));
                }
                Ok(())
            },
            None => Ok(()),
        }
    }

    /// The arguments of a call, and the site they make.
    fn arguments(&mut self, name: &str, args: &Vec<Expr>, passes: bool) -> (r: Result<
        CallSite,
        Unsupported,
    >)
        ensures
            match r {
                Ok(site) => lower::lower_arguments(old(self)@, name@, args@, passes) == Ok::<
                    (Code, SiteModel),
                    Unsupported,
                >((final(self)@, site@)),
                Err(u) => lower::lower_arguments(old(self)@, name@, args@, passes) == Err::<
                    (Code, SiteModel),
                    Unsupported,
                >(u),
            },
            expr::tidied(old(self)@, final(self)@, r is Ok),
        decreases *args, 0nat,
    {
        let ghost was = self@;
        let symbol = self.symbol(name);
        let ghost c = self@;
        let mut site = empty_site(symbol, false);
        let ghost start = site@;
        let mut i: usize = 0;
        while i < args.len()
            invariant
                i <= args.len(),
                was == old(self)@,
                expr::tidied(was, self@, true),
                lower::lower_arguments(was, name@, args@, passes) == lower::lower_args(
                    c,
                    args@,
                    0,
                    passes,
                    start,
                ),
                lower::lower_args(self@, args@, i as nat, passes, site@) == lower::lower_args(
                    c,
                    args@,
                    0,
                    passes,
                    start,
                ),
            decreases args.len() - i,
        {
            match &args[i].kind {
                ExprKind::Splat(Some(inner)) => {
                    if let Err(u) = self.expr(inner) {
                        return Err(u);
                    }
                    if site.argc == u16::MAX {
                        return code::refuse("a call this wide", args[i].span);
                    }
                    if names::mutable_after(args, i, passes) {
                        self.emit(Insn::CaptureSplat);
                    }
                    site = with_splat(site);
                },
                ExprKind::Splat(None) => {
                    return code::refuse("argument forwarding", args[i].span);
                },
                ExprKind::ForwardingArgs => {
                    return code::refuse("argument forwarding", args[i].span);
                },
                ExprKind::Hash(hash) => {
                    if hash.braces {
                        if let Err(u) = self.expr(&args[i]) {
                            return Err(u);
                        }
                        if site.argc == u16::MAX {
                            return code::refuse("a call this wide", args[i].span);
                        }
                        site = with_argument(site);
                    } else if names::needs_keyword_hash(hash) {
                        return code::refuse("a keyword splat", args[i].span);
                    } else {
                        site = match self.keywords(hash, site) {
                            Ok(v) => v,
                            Err(u) => {
                                return Err(u);
                            },
                        };
                    }
                },
                _ => {
                    if let Err(u) = self.expr(&args[i]) {
                        return Err(u);
                    }
                    if site.argc == u16::MAX {
                        return code::refuse("a call this wide", args[i].span);
                    }
                    site = with_argument(site);
                },
            }
            i += 1;
        }
        Ok(site)
    }

    /// The keyword arguments of a call.
    fn keywords(&mut self, hash: &HashLit, given: CallSite) -> (r: Result<CallSite, Unsupported>)
        requires
            names::all_keywords(*hash),
        ensures
            match r {
                Ok(now) => lower::lower_keywords(old(self)@, hash.entries@, 0, given@) == Ok::<
                    (Code, SiteModel),
                    Unsupported,
                >((final(self)@, now@)),
                Err(u) => lower::lower_keywords(old(self)@, hash.entries@, 0, given@) == Err::<
                    (Code, SiteModel),
                    Unsupported,
                >(u),
            },
            expr::tidied(old(self)@, final(self)@, r is Ok),
        decreases *hash, 0nat,
    {
        let ghost c = self@;
        let ghost start = given@;
        let mut site = given;
        let mut i: usize = 0;
        while i < hash.entries.len()
            invariant
                i <= hash.entries.len(),
                names::all_keywords(*hash),
                c == old(self)@,
                start == given@,
                expr::tidied(c, self@, true),
                lower::lower_keywords(self@, hash.entries@, i as nat, site@)
                    == lower::lower_keywords(c, hash.entries@, 0, start),
            decreases hash.entries.len() - i,
        {
            assert(names::keyword_of(hash.entries@[i as int]) is Some);
            let name = match names::keyword_name(&hash.entries[i]) {
                Some(name) => name,
                None => {
                    return Ok(site);
                },
            };
            match &hash.entries[i].kind {
                HashEntryKind::Pair { key: _, value } => {
                    let symbol = self.symbol(name.as_str());
                    if let Err(u) = self.expr(value) {
                        return Err(u);
                    }
                    site = with_keyword(site, symbol);
                },
                HashEntryKind::Splat(_) => {
                    return Ok(site);
                },
            }
            i += 1;
        }
        Ok(site)
    }

    /// The block of a call.
    fn attach_block(&mut self, site: CallSite, block: &Option<BlockArg>, span: Span) -> (r: Result<
        CallSite,
        Unsupported,
    >)
        ensures
            match r {
                Ok(now) => lower::lower_block(old(self)@, site@, *block, span) == Ok::<
                    (Code, SiteModel),
                    Unsupported,
                >((final(self)@, now@)),
                Err(u) => lower::lower_block(old(self)@, site@, *block, span) == Err::<
                    (Code, SiteModel),
                    Unsupported,
                >(u),
            },
            expr::tidied(old(self)@, final(self)@, r is Ok),
        decreases *block, 0nat,
    {
        match block {
            None => Ok(site),
            Some(BlockArg::Block(block)) => {
                let mut child = match self.child_head("block in <compiled>", &block.params, &block.locals, false, span) {
                    Ok(v) => v,
                    Err(u) => {
                        return Err(u);
                    },
                };
                if let Err(u) = child.statements(&block.body, true) {
                    return Err(u);
                }
                let index = self.push_child(child.finish());
                Ok(with_block(site, BlockRef::Literal(index)))
            },
            Some(BlockArg::Pass(Some(expr))) => {
                if let Err(u) = self.expr(expr) {
                    return Err(u);
                }
                Ok(with_block(site, BlockRef::Pass))
            },
            Some(BlockArg::Pass(None)) => code::refuse("an anonymous block parameter", span),
        }
    }

    /// `yield`.
    pub(crate) fn yield_expr(&mut self, args: &Vec<Expr>) -> (r: Result<(), Unsupported>)
        ensures
            ({
                let said = match lower::lower_arguments(old(self)@, "yield"@, args@, false) {
                    Ok((c, site)) => Ok::<Code, Unsupported>(
                        c.push_site(SiteModel { implicit_self: true, ..site }).emit(
                            Insn::Yield(c.call_sites.len() as u32),
                        ),
                    ),
                    Err(u) => Err::<Code, Unsupported>(u),
                };
                expr::done(r, final(self)@, said)
            }),
            expr::tidied(old(self)@, final(self)@, r is Ok),
        decreases *args, 1nat,
    {
        let site = match self.arguments("yield", args, false) {
            Ok(v) => v,
            Err(u) => {
                return Err(u);
            },
        };
        let site = with_self(site, true);
        let index = self.push_site(site);
        self.emit(Insn::Yield(index));
        Ok(())
    }

    /// `super`.
    pub(crate) fn super_expr(&mut self, node: &Super, span: Span) -> (r: Result<(), Unsupported>)
        ensures
            expr::done(r, final(self)@, lower::lower_super(old(self)@, *node, span)),
            expr::tidied(old(self)@, final(self)@, r is Ok),
        decreases *node, 0nat,
    {
        let passes = names::is_passed(&node.block);
        let started = match &node.args {
            Some(args) => self.arguments("super", args, passes),
            None => self.zsuper_site(span),
        };
        let site = match started {
            Ok(v) => v,
            Err(u) => {
                return Err(u);
            },
        };
        let site = match self.attach_block(site, &node.block, span) {
            Ok(v) => v,
            Err(u) => {
                return Err(u);
            },
        };
        let site = with_self(site, true);
        let index = self.push_site(site);
        self.emit(Insn::Super(index));
        Ok(())
    }

    /// The enclosing method's own arguments, for a bare `super`.
    fn zsuper_site(&mut self, span: Span) -> (r: Result<CallSite, Unsupported>)
        ensures
            match r {
                Ok(site) => lower::forwarded(old(self)@, span) == Ok::<
                    (Code, SiteModel),
                    Unsupported,
                >((final(self)@, site@)),
                Err(u) => lower::forwarded(old(self)@, span) == Err::<
                    (Code, SiteModel),
                    Unsupported,
                >(u),
            },
            expr::tidied(old(self)@, final(self)@, r is Ok),
    {
        let ghost was = self@;
        let forward = match self.forwarding() {
            Some(forward) => forward,
            None => {
                return code::refuse("`super` outside a method", span);
            },
        };
        let ghost z = forward@;
        if forward.positional.len() > u16::MAX as usize {
            return code::refuse("a call this wide", span);
        }
        let symbol = self.symbol("super");
        let ghost c = self@;
        let mut site = empty_site(symbol, true);
        let ghost start = site@;
        let mut i: usize = 0;
        while i < forward.positional.len()
            invariant
                i <= forward.positional.len(),
                z == forward@,
                expr::tidied(was, self@, true),
                lower::forward_positional(self@, z, i as nat, site@)
                    == lower::forward_positional(c, z, 0, start),
            decreases forward.positional.len() - i,
        {
            let (slot, is_rest): (u16, bool) = forward.positional[i];
            self.emit(Insn::GetLocal(slot, forward.depth));
            site = if is_rest {
                with_splat(site)
            } else {
                with_argument(site)
            };
            i += 1;
        }
        let ghost half = self@;
        let ghost middle = site@;
        let mut k: usize = 0;
        while k < forward.keywords.len()
            invariant
                k <= forward.keywords.len(),
                z == forward@,
                expr::tidied(was, self@, true),
                lower::forward_keywords(self@, z, k as nat, site@) == lower::forward_keywords(
                    half,
                    z,
                    0,
                    middle,
                ),
            decreases forward.keywords.len() - k,
        {
            assert(z.keywords[k as int] == (forward.keywords@[k as int].0@, forward.keywords@[
                k as int
            ].1));
            let slot: u16 = forward.keywords[k].1;
            let name = self.symbol(forward.keywords[k].0.as_str());
            self.emit(Insn::GetLocal(slot, forward.depth));
            site = with_keyword(site, name);
            k += 1;
        }
        Ok(site)
    }

    /// A lambda.
    pub(crate) fn lambda(&mut self, block: &Block, span: Span) -> (r: Result<(), Unsupported>)
        ensures
            ({
                let c = old(self)@;
                let said = match lower::child_head(
                    c,
                    "lambda in <compiled>"@,
                    block.params,
                    bytecode::pool(block.locals@),
                    false,
                    span,
                ) {
                    Ok(head) => match lower::lower_body(head, block.body@, 0, true) {
                        Ok(body) => Ok::<Code, Unsupported>(
                            c.push_child(body.finish()).emit(
                                Insn::MakeProc(c.children.len() as u32, true),
                            ),
                        ),
                        Err(u) => Err::<Code, Unsupported>(u),
                    },
                    Err(u) => Err::<Code, Unsupported>(u),
                };
                expr::done(r, final(self)@, said)
            }),
            expr::tidied(old(self)@, final(self)@, r is Ok),
        decreases *block, 0nat,
    {
        let mut child = match self.child_head("lambda in <compiled>", &block.params, &block.locals, false, span) {
            Ok(v) => v,
            Err(u) => {
                return Err(u);
            },
        };
        if let Err(u) = child.statements(&block.body, true) {
            return Err(u);
        }
        let index = self.push_child(child.finish());
        self.emit(Insn::MakeProc(index, true));
        Ok(())
    }
}

/// The site with another argument.
fn with_argument(site: CallSite) -> (r: CallSite)
    ensures
        r@ == (SiteModel { argc: lower::more(site@.argc), ..site@ }),
{
    let mut r = site;
    r.argc = more(r.argc);
    assert(r@ =~= (SiteModel { argc: lower::more(site@.argc), ..site@ }));
    r
}

/// The site with another argument, which is splatted.
fn with_splat(site: CallSite) -> (r: CallSite)
    ensures
        r@ == (SiteModel {
            splats: site@.splats.push(site@.argc),
            argc: lower::more(site@.argc),
            ..site@
        }),
{
    let mut r = site;
    let argc: u16 = r.argc;
    r.splats.push(argc);
    r.argc = more(argc);
    proof {
        assert(r@ =~= (SiteModel {
            splats: site@.splats.push(site@.argc),
            argc: lower::more(site@.argc),
            ..site@
        }));
    }
    r
}

/// The site with another keyword argument.
fn with_keyword(site: CallSite, name: u32) -> (r: CallSite)
    ensures
        r@ == (SiteModel { keywords: site@.keywords.push(name), ..site@ }),
{
    let mut r = site;
    r.keywords.push(name);
    assert(r@ =~= (SiteModel { keywords: site@.keywords.push(name), ..site@ }));
    r
}

/// The site with a block.
fn with_block(site: CallSite, block: BlockRef) -> (r: CallSite)
    ensures
        r@ == (SiteModel { block, ..site@ }),
{
    let mut r = site;
    r.block = block;
    assert(r@ =~= (SiteModel { block, ..site@ }));
    r
}

/// The site of a call with or without a receiver.
fn with_self(site: CallSite, implicit_self: bool) -> (r: CallSite)
    ensures
        r@ == (SiteModel { implicit_self, ..site@ }),
{
    let mut r = site;
    r.implicit_self = implicit_self;
    assert(r@ =~= (SiteModel { implicit_self, ..site@ }));
    r
}

} // verus!
