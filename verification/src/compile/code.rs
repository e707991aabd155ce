//! The code under construction, and what every lowering is made of.

use std::sync::Arc;

use vstd::prelude::*;

use crate::ast::Span;
use crate::bytecode;
use crate::bytecode::{
    BlockRef, CallSite, CatchEntry, ClassDef, ConstScope, DefKind, Insn, Iseq, Keyword, Literal,
    Optional, ParamSpec,
};
use crate::text;

verus! {

/// A construct that does not compile.
#[derive(Debug, Clone, Copy, PartialEq, Eq)]
pub struct Unsupported {
    /// What it is, as a Ruby programmer would name it.
    pub node: &'static str,
    pub span: Span,
}

impl Unsupported {
    /// What the refusal says.
    pub fn message(&self) -> (r: String)
        ensures
            r@ == self.node@ + " is not compiled yet"@,
    {
        text::join(self.node, " is not compiled yet")
    }
}

// ---------------------------------------------------------------------------
// The models of what a unit holds
// ---------------------------------------------------------------------------

/// A literal.
#[verifier::ext_equal]
pub enum LiteralModel {
    BigInt(Seq<char>),
    BoxedFloat(u64),
    Float(u64),
    Str(Seq<u8>),
    FrozenStr(Seq<u8>),
    Regexp { source: Seq<char>, options: i64 },
}

impl View for Literal {
    type V = LiteralModel;

    open spec fn view(&self) -> LiteralModel {
        match self {
            Literal::BigInt(digits) => LiteralModel::BigInt(digits@),
            Literal::BoxedFloat(bits) => LiteralModel::BoxedFloat(*bits),
            Literal::Float(bits) => LiteralModel::Float(*bits),
            Literal::Str(bytes) => LiteralModel::Str(bytes@),
            Literal::FrozenStr(bytes) => LiteralModel::FrozenStr(bytes@),
            Literal::Regexp { source, options } => LiteralModel::Regexp {
                source: source@,
                options: *options,
            },
        }
    }
}

/// A call site.
#[verifier::ext_equal]
pub struct SiteModel {
    pub name: u32,
    pub argc: u16,
    pub splats: Seq<u16>,
    pub keywords: Seq<u32>,
    pub block: BlockRef,
    pub implicit_self: bool,
}

impl View for CallSite {
    type V = SiteModel;

    open spec fn view(&self) -> SiteModel {
        SiteModel {
            name: self.name,
            argc: self.argc,
            splats: self.splats@,
            keywords: self.keywords@,
            block: self.block,
            implicit_self: self.implicit_self,
        }
    }
}

/// A parameter list.
#[verifier::ext_equal]
pub struct ParamModel {
    pub required: u16,
    pub optional: Seq<Optional>,
    pub rest: Option<u16>,
    pub post: u16,
    pub keywords: Seq<Keyword>,
    pub block: Option<u16>,
    pub kwrest: Option<u16>,
    pub no_keywords: bool,
}

impl View for ParamSpec {
    type V = ParamModel;

    open spec fn view(&self) -> ParamModel {
        ParamModel {
            required: self.required,
            optional: self.optional@,
            rest: self.rest,
            post: self.post,
            keywords: self.keywords@,
            block: self.block,
            kwrest: self.kwrest,
            no_keywords: self.no_keywords,
        }
    }
}

/// No parameters.
pub open spec fn no_params() -> ParamModel {
    ParamModel {
        required: 0,
        optional: Seq::empty(),
        rest: None,
        post: 0,
        keywords: Seq::empty(),
        block: None,
        kwrest: None,
        no_keywords: false,
    }
}

/// A compiled unit.
#[verifier::ext_equal]
pub struct IseqModel {
    pub name: Seq<char>,
    pub insns: Seq<Insn>,
    pub literals: Seq<LiteralModel>,
    pub symbols: Seq<Seq<char>>,
    pub locals: Seq<Seq<char>>,
    pub max_stack: nat,
    pub params: ParamModel,
    pub children: Seq<IseqModel>,
    pub call_sites: Seq<SiteModel>,
    pub definitions: Seq<(u32, u32)>,
    pub class_defs: Seq<ClassDef>,
    pub once_regexps: u32,
    pub catch_table: Seq<CatchEntry>,
    pub scope_barrier: bool,
}

/// A compiled unit, and the ones nested in it.
pub open spec fn unit(iseq: Iseq) -> IseqModel
    decreases iseq,
{
    IseqModel {
        name: iseq.name@,
        insns: iseq.insns@,
        literals: literals(iseq.literals@),
        symbols: bytecode::pool(iseq.symbols@),
        locals: bytecode::pool(iseq.locals@),
        max_stack: iseq.max_stack as nat,
        params: iseq.params@,
        children: units(iseq.children@),
        call_sites: sites(iseq.call_sites@),
        definitions: iseq.definitions@,
        class_defs: iseq.class_defs@,
        once_regexps: iseq.once_regexps,
        catch_table: iseq.catch_table@,
        scope_barrier: iseq.scope_barrier,
    }
}

/// Several compiled units.
pub open spec fn units(all: Seq<Arc<Iseq>>) -> Seq<IseqModel>
    decreases all,
{
    if all.len() == 0 {
        Seq::empty()
    } else {
        units(all.subrange(0, all.len() - 1)).push(unit(*all[all.len() - 1]))
    }
}

/// Several literals.
pub open spec fn literals(all: Seq<Literal>) -> Seq<LiteralModel> {
    all.map_values(|l: Literal| l@)
}

/// Several call sites.
pub open spec fn sites(all: Seq<CallSite>) -> Seq<SiteModel> {
    all.map_values(|s: CallSite| s@)
}

// ---------------------------------------------------------------------------
// The state of a compilation
// ---------------------------------------------------------------------------

/// Where a `break` or a `next` goes.
pub struct Loop {
    /// The stack depth at the top of the loop.
    pub base_depth: usize,
    /// Where `next` goes.
    pub next_target: usize,
    /// Where `redo` goes: the body, without another test.
    pub redo_target: usize,
    /// The jumps of `break`, to be aimed once the end is known.
    pub breaks: Vec<usize>,
}

/// Where a `break` or a `next` goes.
#[verifier::ext_equal]
pub struct LoopModel {
    pub base_depth: usize,
    pub next_target: usize,
    pub redo_target: usize,
    pub breaks: Seq<usize>,
}

impl View for Loop {
    type V = LoopModel;

    open spec fn view(&self) -> LoopModel {
        LoopModel {
            base_depth: self.base_depth,
            next_target: self.next_target,
            redo_target: self.redo_target,
            breaks: self.breaks@,
        }
    }
}

/// A protected body that a `retry` can start again.
#[derive(Debug, Clone, Copy, PartialEq, Eq, Structural)]
pub struct Retry {
    pub body_start: usize,
    pub base_depth: usize,
}

/// The enclosing method's parameters, as a bare `super` forwards them.
pub struct Zsuper {
    /// `(slot, whether it is the rest)`, in the order a call takes them.
    pub positional: Vec<(u16, bool)>,
    /// `(name, slot)` for each keyword.
    pub keywords: Vec<(String, u16)>,
    /// How many scopes up the slots live.
    pub depth: u16,
}

/// The enclosing method's parameters, as a bare `super` forwards them.
#[verifier::ext_equal]
pub struct ZsuperModel {
    pub positional: Seq<(u16, bool)>,
    pub keywords: Seq<(Seq<char>, u16)>,
    pub depth: u16,
}

impl View for Zsuper {
    type V = ZsuperModel;

    open spec fn view(&self) -> ZsuperModel {
        ZsuperModel {
            positional: self.positional@,
            keywords: self.keywords@.map_values(|k: (String, u16)| (k.0@, k.1)),
            depth: self.depth,
        }
    }
}

/// Code under construction.
pub struct Compiler {
    pub(crate) name: String,
    pub(crate) insns: Vec<Insn>,
    pub(crate) literals: Vec<Literal>,
    pub(crate) symbols: Vec<String>,
    pub(crate) locals: Vec<String>,
    pub(crate) loops: Vec<Loop>,
    pub(crate) depth: usize,
    pub(crate) max_stack: usize,
    pub(crate) children: Vec<Arc<Iseq>>,
    pub(crate) call_sites: Vec<CallSite>,
    pub(crate) definitions: Vec<(u32, u32)>,
    pub(crate) class_defs: Vec<ClassDef>,
    pub(crate) once_regexps: u32,
    pub(crate) catch_table: Vec<CatchEntry>,
    pub(crate) retries: Vec<Retry>,
    pub(crate) open_ensures: usize,
    pub(crate) params: ParamSpec,
    pub(crate) scope_barrier: bool,
    pub(crate) outer: Vec<Vec<String>>,
    pub(crate) env_synthetic: Vec<bool>,
    pub(crate) flattened: bool,
    pub(crate) pattern_depth: usize,
    pub(crate) pattern_key: Option<u16>,
    pub(crate) pattern_cache: Option<u16>,
    pub(crate) zsuper: Option<Zsuper>,
}

/// Code under construction.
#[verifier::ext_equal]
pub struct Code {
    pub name: Seq<char>,
    pub insns: Seq<Insn>,
    pub literals: Seq<LiteralModel>,
    /// Names, each once.
    pub symbols: Seq<Seq<char>>,
    /// The scope's own locals, by slot.
    pub locals: Seq<Seq<char>>,
    /// The loops around, innermost last.
    pub loops: Seq<LoopModel>,
    /// How many operands there are here.
    pub depth: nat,
    /// The most there have been.
    pub max_stack: nat,
    pub children: Seq<IseqModel>,
    pub call_sites: Seq<SiteModel>,
    pub definitions: Seq<(u32, u32)>,
    pub class_defs: Seq<ClassDef>,
    /// How many patterns are evaluated once.
    pub once_regexps: u32,
    /// Protected ranges, innermost first.
    pub catch_table: Seq<CatchEntry>,
    /// The bodies a `retry` can start again, innermost last.
    pub retries: Seq<Retry>,
    /// How many `ensure` bodies are owed by code that leaves from here.
    pub open_ensures: nat,
    pub params: ParamModel,
    /// A body that cannot see the locals around it.
    pub scope_barrier: bool,
    /// The locals of the scopes around, innermost first.
    pub outer: Seq<Seq<Seq<char>>>,
    /// Which environments, this scope's first, the language does not see: a
    /// `for` body runs in one.
    pub env_synthetic: Seq<bool>,
    /// Several scopes were merged into this one.
    pub flattened: bool,
    /// How many compound patterns are open.
    pub pattern_depth: nat,
    /// The local that records the key a hash pattern missed.
    pub pattern_key: Option<u16>,
    /// The local that keeps what `deconstruct` answered.
    pub pattern_cache: Option<u16>,
    /// What a bare `super` forwards.
    pub zsuper: Option<ZsuperModel>,
}

impl View for Compiler {
    type V = Code;

    closed spec fn view(&self) -> Code {
        Code {
            name: self.name@,
            insns: self.insns@,
            literals: literals(self.literals@),
            symbols: bytecode::pool(self.symbols@),
            locals: bytecode::pool(self.locals@),
            loops: self.loops@.map_values(|l: Loop| l@),
            depth: self.depth as nat,
            max_stack: self.max_stack as nat,
            children: units(self.children@),
            call_sites: sites(self.call_sites@),
            definitions: self.definitions@,
            class_defs: self.class_defs@,
            once_regexps: self.once_regexps,
            catch_table: self.catch_table@,
            retries: self.retries@,
            open_ensures: self.open_ensures as nat,
            params: self.params@,
            scope_barrier: self.scope_barrier,
            outer: self.outer@.map_values(|names: Vec<String>| bytecode::pool(names@)),
            env_synthetic: self.env_synthetic@,
            flattened: self.flattened,
            pattern_depth: self.pattern_depth as nat,
            pattern_key: self.pattern_key,
            pattern_cache: self.pattern_cache,
            zsuper: match self.zsuper {
                Some(z) => Some(z@),
                None => None,
            },
        }
    }
}

/// What a lowering makes of the code before it.
pub type Lowered = Result<Code, Unsupported>;

/// A refusal.
pub open spec fn refused<T>(node: &'static str, span: Span) -> Result<T, Unsupported> {
    Err(Unsupported { node, span })
}

pub(crate) fn refuse<T>(node: &'static str, span: Span) -> (r: Result<T, Unsupported>)
    ensures
        r == refused::<T>(node, span),
{
    Err(Unsupported { node, span })
}

/// A jump, by its condition.
#[derive(Debug, Clone, Copy, PartialEq, Eq, Structural)]
pub enum Jump {
    Always,
    Unless,
    If,
    UnlessKeep,
    IfKeep,
    UnlessUndef,
}

impl Jump {
    /// The instruction, with a displacement.
    pub open spec fn over(self, displacement: i32) -> Insn {
        match self {
            Jump::Always => Insn::Jump(displacement),
            Jump::Unless => Insn::JumpUnless(displacement),
            Jump::If => Insn::JumpIf(displacement),
            Jump::UnlessKeep => Insn::JumpUnlessKeep(displacement),
            Jump::IfKeep => Insn::JumpIfKeep(displacement),
            Jump::UnlessUndef => Insn::JumpUnlessUndef(displacement),
        }
    }

    fn insn(self) -> (r: Insn)
        ensures
            r == self.over(0),
    {
        match self {
            Jump::Always => Insn::Jump(0),
            Jump::Unless => Insn::JumpUnless(0),
            Jump::If => Insn::JumpIf(0),
            Jump::UnlessKeep => Insn::JumpUnlessKeep(0),
            Jump::IfKeep => Insn::JumpIfKeep(0),
            Jump::UnlessUndef => Insn::JumpUnlessUndef(0),
        }
    }
}

/// A jump aimed elsewhere; another instruction is left alone.
pub open spec fn retargeted(insn: Insn, displacement: i32) -> Insn {
    match insn {
        Insn::Jump(_) => Insn::Jump(displacement),
        Insn::Goto(_, depth) => Insn::Goto(displacement, depth),
        Insn::GotoValue(_, depth) => Insn::GotoValue(displacement, depth),
        Insn::JumpUnless(_) => Insn::JumpUnless(displacement),
        Insn::JumpIf(_) => Insn::JumpIf(displacement),
        Insn::JumpUnlessKeep(_) => Insn::JumpUnlessKeep(displacement),
        Insn::JumpUnlessUndef(_) => Insn::JumpUnlessUndef(displacement),
        Insn::JumpIfKeep(_) => Insn::JumpIfKeep(displacement),
        _ => insn,
    }
}

/// How far a jump at one place has to go to land at another: it counts from
/// the instruction behind it.
pub open spec fn displacement(at: int, target: int) -> i32 {
    (target - at - 1) as i32
}

/// The first place of a name; the number of names where it is not there.
pub open spec fn place_of(names: Seq<Seq<char>>, name: Seq<char>) -> nat
    decreases names.len(),
{
    if names.len() == 0 {
        0
    } else if names[0] == name {
        0
    } else {
        1 + place_of(names.skip(1), name)
    }
}

/// A depth moved by an instruction; it never leaves what a `usize` holds.
pub open spec fn shifted(depth: nat, effect: int) -> nat {
    if depth + effect < 0 {
        0
    } else if depth + effect > usize::MAX {
        usize::MAX as nat
    } else {
        (depth + effect) as nat
    }
}

/// A name the language cannot spell, told apart by a number.
pub open spec fn hidden(prefix: Seq<char>, number: nat) -> Seq<char> {
    prefix + text::digits(number, 10)
}

impl Code {
    /// The place of the next instruction.
    pub open spec fn here(self) -> nat {
        self.insns.len()
    }

    /// How many operands a call site takes.
    #[verifier::opaque]
    pub open spec fn site_operands(self, site: u32, receiver: bool) -> int {
        if site < self.call_sites.len() {
            let site = self.call_sites[site as int];
            (if receiver {
                1int
            } else {
                0
            }) + site.argc + site.keywords.len() + (if site.block is Pass {
                1int
            } else {
                0
            })
        } else {
            0
        }
    }

    /// By how much an instruction changes the number of operands.
    #[verifier::opaque]
    pub open spec fn effect(self, insn: Insn) -> int {
        match insn {
            Insn::PushNil
            | Insn::PushTrue
            | Insn::PushFalse
            | Insn::PushSelf
            | Insn::PushInt(_)
            | Insn::PushLit(_)
            | Insn::PushSym(_)
            | Insn::LastMatch(_)
            | Insn::GetIvar(_)
            | Insn::GetCvar(_)
            | Insn::DefinedIvar(_)
            | Insn::GetGlobal(_)
            | Insn::DefinedGlobal(_)
            | Insn::Errinfo
            | Insn::Dup
            | Insn::GetLocal(_, _)
            | Insn::MakeProc(_, _)
            | Insn::LeaveEnsure
            | Insn::DefineMethod(_)
            | Insn::DefinedSelfMethod(_)
            | Insn::DefinedYield => 1,
            Insn::Pop
            | Insn::SetLocal(_, _)
            | Insn::SetIvar(_)
            | Insn::SetGlobal(_)
            | Insn::SetErrinfo
            | Insn::JumpUnless(_)
            | Insn::JumpIf(_)
            | Insn::JumpUnlessUndef(_)
            | Insn::BinOp(_)
            | Insn::CaseEq
            | Insn::LeaveThroughEnsure
            | Insn::EnterEnsure
            | Insn::Leave => -1,
            Insn::GetConst(_, how) | Insn::DefinedConst(_, how) => if how is Qualified {
                0
            } else {
                1
            },
            Insn::SetConst(_, how) => if how is Qualified {
                -1
            } else {
                0
            },
            Insn::OpenClass(index) => if index < self.class_defs.len() {
                let def = self.class_defs[index as int];
                1 - ((if def.scoped {
                    1int
                } else {
                    0
                }) + (if def.superclass {
                    1int
                } else {
                    0
                }) + (if def.kind is Singleton {
                    1int
                } else {
                    0
                }))
            } else {
                0
            },
            Insn::NewArray(n) => 1 - n,
            Insn::Send(site) => 1 - self.site_operands(site, true),
            Insn::Yield(site) | Insn::Super(site) => 1 - self.site_operands(site, false),
            _ => 0,
        }
    }

    /// Another instruction.
    #[verifier::opaque]
    pub open spec fn emit(self, insn: Insn) -> Code {
        let depth = shifted(self.depth, self.effect(insn));
        Code {
            insns: self.insns.push(insn),
            depth,
            max_stack: if self.max_stack < depth {
                depth
            } else {
                self.max_stack
            },
            ..self
        }
    }

    /// At another depth: code that is reached from elsewhere.
    #[verifier::opaque]
    pub open spec fn at_depth(self, depth: nat) -> Code {
        Code { depth, ..self }
    }

    /// A jump aimed at a place.
    #[verifier::opaque]
    pub open spec fn patch(self, at: nat, target: nat) -> Code {
        if at < self.insns.len() {
            Code {
                insns: self.insns.update(
                    at as int,
                    retargeted(
                        self.insns[at as int],
                        displacement(at as int, target as int),
                    ),
                ),
                ..self
            }
        } else {
            self
        }
    }

    /// A jump aimed at what comes next.
    #[verifier::opaque]
    pub open spec fn patch_here(self, at: nat) -> Code {
        self.patch(at, self.here())
    }

    /// Several jumps aimed at a place.
    #[verifier::opaque]
    pub open spec fn patch_all(self, at: Seq<usize>, target: nat) -> Code
        decreases at.len(),
    {
        if at.len() == 0 {
            self
        } else {
            self.patch(at[0] as nat, target).patch_all(at.skip(1), target)
        }
    }

    /// A jump that leaves an `ensure` on the way, where there is one.
    #[verifier::opaque]
    pub open spec fn goto_insn(self, depth: nat, carries: bool) -> Insn {
        if self.open_ensures == 0 {
            Insn::Jump(0)
        } else if carries {
            Insn::GotoValue(0, depth as u32)
        } else {
            Insn::Goto(0, depth as u32)
        }
    }

    /// So many operands dropped.
    #[verifier::opaque]
    pub open spec fn pops(self, n: nat) -> Code
        decreases n,
    {
        if n == 0 {
            self
        } else {
            self.emit(Insn::Pop).pops((n - 1) as nat)
        }
    }

    /// Another literal.
    #[verifier::opaque]
    pub open spec fn literal(self, literal: LiteralModel) -> Code {
        Code { literals: self.literals.push(literal), ..self }
    }

    /// A literal, pushed.
    #[verifier::opaque]
    pub open spec fn push_literal(self, literal: LiteralModel) -> Code {
        self.literal(literal).emit(Insn::PushLit(self.literals.len() as u32))
    }

    /// A symbol in the pool.
    #[verifier::opaque]
    pub open spec fn symbol(self, name: Seq<char>) -> Code {
        if place_of(self.symbols, name) < self.symbols.len() {
            self
        } else {
            Code { symbols: self.symbols.push(name), ..self }
        }
    }

    /// The place a symbol has, or gets.
    #[verifier::opaque]
    pub open spec fn symbol_at(self, name: Seq<char>) -> u32 {
        place_of(self.symbols, name) as u32
    }

    /// A local of this scope.
    #[verifier::opaque]
    pub open spec fn slot(self, name: Seq<char>) -> Code {
        if place_of(self.locals, name) < self.locals.len() {
            self
        } else {
            Code { locals: self.locals.push(name), ..self }
        }
    }

    /// The slot a local has, or gets.
    #[verifier::opaque]
    pub open spec fn slot_at(self, name: Seq<char>) -> u16 {
        place_of(self.locals, name) as u16
    }

    /// Another call site.
    #[verifier::opaque]
    pub open spec fn push_site(self, site: SiteModel) -> Code {
        Code { call_sites: self.call_sites.push(site), ..self }
    }

    /// A call of a method with only positional arguments.
    #[verifier::opaque]
    pub open spec fn send(self, name: Seq<char>, argc: u16, implicit_self: bool) -> Code {
        let c = self.symbol(name).push_site(
            SiteModel {
                name: self.symbol_at(name),
                argc,
                splats: Seq::empty(),
                keywords: Seq::empty(),
                block: BlockRef::Absent,
                implicit_self,
            },
        );
        c.emit(Insn::Send(self.call_sites.len() as u32))
    }

    /// A constant, pushed.
    #[verifier::opaque]
    pub open spec fn push_const(self, name: Seq<char>) -> Code {
        self.symbol(name).emit(Insn::GetConst(self.symbol_at(name), ConstScope::Lexical))
    }

    /// Another nested body.
    #[verifier::opaque]
    pub open spec fn push_child(self, child: IseqModel) -> Code {
        Code { children: self.children.push(child), ..self }
    }

    /// The finished unit.
    #[verifier::opaque]
    pub open spec fn finish(self) -> IseqModel {
        let c = self.emit(Insn::Leave);
        IseqModel {
            name: c.name,
            insns: c.insns,
            literals: c.literals,
            symbols: c.symbols,
            locals: c.locals,
            max_stack: if c.max_stack < 1 {
                1
            } else {
                c.max_stack
            },
            params: c.params,
            children: c.children,
            call_sites: c.call_sites,
            definitions: c.definitions,
            class_defs: c.class_defs,
            once_regexps: c.once_regexps,
            catch_table: c.catch_table,
            scope_barrier: c.scope_barrier,
        }
    }
}

/// Code with nothing in it yet.
#[verifier::opaque]
pub open spec fn fresh(name: Seq<char>, locals: Seq<Seq<char>>) -> Code {
    Code {
        name,
        insns: Seq::empty(),
        literals: Seq::empty(),
        symbols: Seq::empty(),
        locals,
        loops: Seq::empty(),
        depth: 0,
        max_stack: 0,
        children: Seq::empty(),
        call_sites: Seq::empty(),
        definitions: Seq::empty(),
        class_defs: Seq::empty(),
        once_regexps: 0,
        catch_table: Seq::empty(),
        retries: Seq::empty(),
        open_ensures: 0,
        params: no_params(),
        scope_barrier: true,
        outer: Seq::empty(),
        env_synthetic: seq![false],
        flattened: false,
        pattern_depth: 0,
        pattern_key: None,
        pattern_cache: None,
        zsuper: None,
    }
}

/// The code of a body nested in another. One that is no barrier sees the
/// locals around it, and forwards the same arguments from one scope further
/// in.
#[verifier::opaque]
pub open spec fn nested(name: Seq<char>, locals: Seq<Seq<char>>, parent: Code, barrier: bool) -> Code {
    if barrier {
        fresh(name, locals)
    } else {
        Code {
            scope_barrier: false,
            outer: seq![parent.locals] + parent.outer,
            env_synthetic: seq![false] + parent.env_synthetic,
            flattened: parent.flattened,
            zsuper: match parent.zsuper {
                Some(z) => Some(ZsuperModel { depth: (z.depth + 1) as u16, ..z }),
                None => None,
            },
            ..fresh(name, locals)
        }
    }
}

// ---------------------------------------------------------------------------
// The operations
// ---------------------------------------------------------------------------

/// Whether every name of a pool is in it once.
pub open spec fn distinct(names: Seq<Seq<char>>) -> bool {
    forall|i: int, j: int| 0 <= i < j < names.len() ==> #[trigger] names[i] != #[trigger] names[j]
}

impl Code {
    /// The symbols are stored by name, each once.
    #[verifier::opaque]
    pub open spec fn tidy(self) -> bool {
        distinct(self.symbols)
    }

    /// What [`Code::slot`] and the order of the parameters make of a
    /// parameter's name: it is moved to the slot the binder writes.
    #[verifier::opaque]
    pub open spec fn param_slot(self, name: Seq<char>, at: nat) -> Code {
        let c = self.slot(name);
        let slot = self.slot_at(name);
        if slot == at {
            c
        } else if slot > at {
            Code {
                locals: c.locals.update(at as int, c.locals[slot as int]).update(
                    slot as int,
                    c.locals[at as int],
                ),
                ..c
            }
        } else {
            c.slot(name + " ("@ + text::digits(at, 10) + ")"@)
        }
    }

    /// The slot it gets.
    #[verifier::opaque]
    pub open spec fn param_slot_at(self, name: Seq<char>, at: nat) -> u16 {
        let c = self.slot(name);
        let slot = self.slot_at(name);
        if slot == at {
            slot
        } else if slot > at {
            at as u16
        } else {
            c.slot_at(name + " ("@ + text::digits(at, 10) + ")"@)
        }
    }
}

/// A name has a place where it is in the list, and nowhere else.
pub proof fn lemma_place(names: Seq<Seq<char>>, name: Seq<char>)
    ensures
        place_of(names, name) <= names.len(),
        place_of(names, name) < names.len() ==> names[place_of(names, name) as int] == name,
        forall|i: int| 0 <= i < place_of(names, name) ==> #[trigger] names[i] != name,
    decreases names.len(),
{
    if names.len() > 0 && names[0] != name {
        lemma_place(names.skip(1), name);
        assert forall|i: int| 0 <= i < place_of(names, name) implies #[trigger] names[i]
            != name by {
            if i > 0 {
                assert(names.skip(1)[i - 1] == names[i]);
            }
        }
    }
}

/// The first place that holds a name is its place.
proof fn lemma_first_place(names: Seq<Seq<char>>, name: Seq<char>, at: int)
    requires
        0 <= at <= names.len(),
        at < names.len() ==> names[at] == name,
        forall|i: int| 0 <= i < at ==> #[trigger] names[i] != name,
    ensures
        place_of(names, name) == at,
{
    lemma_place(names, name);
}

/// The code behind other instructions.
pub open spec fn behind(before: Seq<Insn>, c: Code) -> Code {
    Code { insns: before + c.insns, ..c }
}

/// A jump is written as how far it goes, so it says the same wherever the code
/// stands, and it lands where it was aimed.
pub proof fn law_a_jump_is_relative(at: int, target: int, moved: int)
    ensures
        displacement(at + moved, target + moved) == displacement(at, target),
        i32::MIN <= target - at - 1 <= i32::MAX ==> at + 1 + displacement(at, target) == target,
{
}

/// Emitting an instruction and aiming a jump do the same to code that stands
/// behind other code.
pub proof fn law_code_does_not_depend_on_its_place(
    before: Seq<Insn>,
    c: Code,
    insn: Insn,
    at: nat,
    target: nat,
)
    ensures
        behind(before, c).emit(insn) == behind(before, c.emit(insn)),
        behind(before, c).patch(at + before.len(), target + before.len()) == behind(
            before,
            c.patch(at, target),
        ),
{
    reveal(Code::emit);
    reveal(Code::effect);
    reveal(Code::site_operands);
    reveal(Code::patch);
    assert(behind(before, c).emit(insn).insns =~= before + c.insns.push(insn));
    if at < c.insns.len() {
        let aimed = retargeted(c.insns[at as int], displacement(at as int, target as int));
        assert((before + c.insns).update((at + before.len()) as int, aimed) =~= before + c.insns.update(
            at as int,
            aimed,
        ));
    }
}

/// A symbol that is asked for is stored once.
pub proof fn law_symbols_are_stored_once(c: Code, name: Seq<char>)
    requires
        c.tidy(),
    ensures
        c.symbol(name).tidy(),
        c.symbol(name).symbols.contains(name),
        c.symbol(name).symbol(name) == c.symbol(name),
        c.symbol(name).symbol_at(name) == c.symbol_at(name),
        c.symbols.is_prefix_of(c.symbol(name).symbols),
{
    reveal(Code::tidy);
    reveal(Code::symbol);
    reveal(Code::symbol_at);
    lemma_place(c.symbols, name);
    let place = place_of(c.symbols, name);
    let after = c.symbol(name);
    assert(after.symbols[place as int] == name);
    lemma_first_place(after.symbols, name, place as int);
}

/// The place of a name in a list.
fn find_name(names: &Vec<String>, name: &str) -> (r: usize)
    ensures
        r == place_of(bytecode::pool(names@), name@),
        r <= names@.len(),
{
    let ghost pool = bytecode::pool(names@);
    let mut i: usize = 0;
    while i < names.len()
        invariant
            i <= names.len(),
            pool == bytecode::pool(names@),
            forall|k: int| 0 <= k < i ==> #[trigger] pool[k] != name@,
        decreases names.len() - i,
    {
        if bytecode::same_text(&names[i], name) {
            proof {
                assert(pool[i as int] == name@);
                lemma_first_place(pool, name@, i as int);
            }
            return i;
        }
        assert(pool[i as int] != name@);
        i += 1;
    }
    proof {
        lemma_first_place(pool, name@, i as int);
    }
    i
}

/// A copy of a list of names.
pub(crate) fn copy_names(names: &Vec<String>) -> (r: Vec<String>)
    ensures
        bytecode::pool(r@) == bytecode::pool(names@),
{
    let mut out: Vec<String> = Vec::new();
    let mut i: usize = 0;
    while i < names.len()
        invariant
            i <= names.len(),
            out@.len() == i,
            forall|k: int| 0 <= k < i ==> (#[trigger] out@[k])@ == names@[k]@,
        decreases names.len() - i,
    {
        out.push(names[i].as_str().to_owned());
        i += 1;
    }
    assert(bytecode::pool(out@) =~= bytecode::pool(names@));
    out
}

/// A name told apart by a number.
pub(crate) fn hidden_name(prefix: &str, number: usize) -> (r: String)
    ensures
        r@ == hidden(prefix@, number as nat),
{
    let digits = text::number(number as u64, 10);
    text::join(prefix, digits.as_str())
}

impl Compiler {
    pub(crate) fn new(name: &str, locals: &Vec<String>) -> (r: Compiler)
        ensures
            r@.tidy(),
            r@ == fresh(name@, bytecode::pool(locals@)),
    {
        proof {
            reveal(Code::tidy);
            reveal(fresh);
        }
        let locals = copy_names(locals);
        let mut env_synthetic: Vec<bool> = Vec::new();
        env_synthetic.push(false);
        let r = Compiler {
            name: name.to_owned(),
            insns: Vec::new(),
            literals: Vec::new(),
            symbols: Vec::new(),
            locals,
            loops: Vec::new(),
            depth: 0,
            max_stack: 0,
            children: Vec::new(),
            call_sites: Vec::new(),
            definitions: Vec::new(),
            class_defs: Vec::new(),
            once_regexps: 0,
            catch_table: Vec::new(),
            retries: Vec::new(),
            open_ensures: 0,
            params: ParamSpec::default(),
            scope_barrier: true,
            outer: Vec::new(),
            env_synthetic,
            flattened: false,
            pattern_depth: 0,
            pattern_key: None,
            pattern_cache: None,
            zsuper: None,
        };
        assert(r@ =~= fresh(name@, bytecode::pool(locals@)));
        r
    }

    /// The compiler of a body nested in another.
    pub(crate) fn nested(name: &str, locals: &Vec<String>, parent: &Compiler, barrier: bool) -> (r:
        Compiler)
        ensures
            r@.tidy(),
            r@ == nested(name@, bytecode::pool(locals@), parent@, barrier),
    {
        proof {
            reveal(Code::tidy);
            reveal(fresh);
            reveal(nested);
        }
        let mut r = Compiler::new(name, locals);
        if barrier {
            return r;
        }
        let ghost start = r@;
        r.scope_barrier = false;
        let mut outer: Vec<Vec<String>> = Vec::new();
        outer.push(copy_names(&parent.locals));
        let mut i: usize = 0;
        while i < parent.outer.len()
            invariant
                i <= parent.outer.len(),
                outer@.len() == i + 1,
                bytecode::pool(outer@[0]@) == parent@.locals,
                forall|k: int|
                    0 <= k < i ==> bytecode::pool((#[trigger] outer@[k + 1])@) == bytecode::pool(
                        parent.outer@[k]@,
                    ),
            decreases parent.outer.len() - i,
        {
            outer.push(copy_names(&parent.outer[i]));
            i += 1;
        }
        let ghost scopes = outer@.map_values(|names: Vec<String>| bytecode::pool(names@));
        proof {
            assert(scopes =~= seq![parent@.locals] + parent@.outer) by {
                assert forall|k: int| 0 <= k < scopes.len() implies #[trigger] scopes[k] == (seq![
                    parent@.locals,
                ] + parent@.outer)[k] by {
                    if k > 0 {
                        assert(bytecode::pool(outer@[(k - 1) + 1]@) == bytecode::pool(
                            parent.outer@[k - 1]@,
                        ));
                    }
                }
            }
        }
        r.outer = outer;
        let mut env: Vec<bool> = Vec::new();
        env.push(false);
        let mut j: usize = 0;
        while j < parent.env_synthetic.len()
            invariant
                j <= parent.env_synthetic.len(),
                env@ == seq![false] + parent.env_synthetic@.take(j as int),
            decreases parent.env_synthetic.len() - j,
        {
            env.push(parent.env_synthetic[j]);
            j += 1;
            assert(env@ =~= seq![false] + parent.env_synthetic@.take(j as int));
        }
        assert(parent.env_synthetic@.take(j as int) =~= parent.env_synthetic@);
        r.env_synthetic = env;
        r.flattened = parent.flattened;
        r.zsuper = match &parent.zsuper {
            Some(z) => Some(z.further()),
            None => None,
        };
        assert(r@ =~= nested(name@, bytecode::pool(locals@), parent@, barrier));
        r
    }

    /// The finished unit.
    pub(crate) fn finish(self) -> (r: Iseq)
        ensures
            self@.tidy() ==> distinct(bytecode::pool(r.symbols@)),
            unit(r) == self@.finish(),
    {
        proof {
            reveal(Code::finish);
            reveal(Code::tidy);
        }
        let mut c = self;
        c.emit(Insn::Leave);
        let max_stack: usize = if c.max_stack < 1 {
            1
        } else {
            c.max_stack
        };
        let ghost m = c@;
        let r = Iseq {
            name: c.name,
            insns: c.insns,
            literals: c.literals,
            symbols: c.symbols,
            locals: c.locals,
            max_stack,
            params: c.params,
            children: c.children,
            call_sites: c.call_sites,
            definitions: c.definitions,
            class_defs: c.class_defs,
            once_regexps: c.once_regexps,
            catch_table: c.catch_table,
            scope_barrier: c.scope_barrier,
        };
        assert(unit(r) =~= self@.finish());
        r
    }

    /// How many operands a call site takes.
    fn site_operands(&self, site: u32, receiver: bool) -> (r: i128)
        ensures
            r == self@.site_operands(site, receiver),
            0 <= r <= 0x2_0000_0000_0000_0000,
    {
        proof {
            reveal(Code::site_operands);
        }
        let at: usize = site as usize;
        if at >= self.call_sites.len() {
            return 0;
        }
        let site = &self.call_sites[at];
        let keywords: usize = site.keywords.len();
        let mut n: i128 = site.argc as i128 + keywords as i128;
        if receiver {
            n = n + 1;
        }
        if let BlockRef::Pass = site.block {
            n = n + 1;
        }
        n
    }

    /// By how much an instruction changes the number of operands.
    pub(crate) fn effect(&self, insn: Insn) -> (r: i128)
        ensures
            r == self@.effect(insn),
            -0x2_0000_0000_0000_0000 <= r <= 1,
    {
        proof {
            reveal(Code::effect);
        }
        match insn {
            Insn::PushNil
            | Insn::PushTrue
            | Insn::PushFalse
            | Insn::PushSelf
            | Insn::PushInt(_)
            | Insn::PushLit(_)
            | Insn::PushSym(_)
            | Insn::LastMatch(_)
            | Insn::GetIvar(_)
            | Insn::GetCvar(_)
            | Insn::DefinedIvar(_)
            | Insn::GetGlobal(_)
            | Insn::DefinedGlobal(_)
            | Insn::Errinfo
            | Insn::Dup
            | Insn::GetLocal(_, _)
            | Insn::MakeProc(_, _)
            | Insn::LeaveEnsure
            | Insn::DefineMethod(_)
            | Insn::DefinedSelfMethod(_)
            | Insn::DefinedYield => 1,
            Insn::Pop
            | Insn::SetLocal(_, _)
            | Insn::SetIvar(_)
            | Insn::SetGlobal(_)
            | Insn::SetErrinfo
            | Insn::JumpUnless(_)
            | Insn::JumpIf(_)
            | Insn::JumpUnlessUndef(_)
            | Insn::BinOp(_)
            | Insn::CaseEq
            | Insn::LeaveThroughEnsure
            | Insn::EnterEnsure
            | Insn::Leave => -1,
            Insn::GetConst(_, how) | Insn::DefinedConst(_, how) => match how {
                ConstScope::Qualified => 0,
                _ => 1,
            },
            Insn::SetConst(_, how) => match how {
                ConstScope::Qualified => -1,
                _ => 0,
            },
            Insn::OpenClass(index) => {
                let at: usize = index as usize;
                if at >= self.class_defs.len() {
                    return 0;
                }
                let def: ClassDef = self.class_defs[at];
                let mut n: i128 = 1;
                if def.scoped {
                    n = n - 1;
                }
                if def.superclass {
                    n = n - 1;
                }
                if let DefKind::Singleton = def.kind {
                    n = n - 1;
                }
                n
            },
            Insn::NewArray(n) => 1 - n as i128,
            Insn::Send(site) => 1 - self.site_operands(site, true),
            Insn::Yield(site) => 1 - self.site_operands(site, false),
            Insn::Super(site) => 1 - self.site_operands(site, false),
            _ => 0,
        }
    }

    /// Another instruction.
    pub(crate) fn emit(&mut self, insn: Insn)
        ensures
            old(self)@.tidy() ==> final(self)@.tidy(),
            final(self)@ == old(self)@.emit(insn),
    {
        proof {
            reveal(Code::emit);
            reveal(Code::tidy);
        }
        let ghost c = self@;
        let depth: i128 = self.depth as i128 + self.effect(insn);
        self.depth = if depth < 0 {
            0
        } else if depth > usize::MAX as i128 {
            usize::MAX
        } else {
            depth as usize
        };
        if self.max_stack < self.depth {
            self.max_stack = self.depth;
        }
        self.insns.push(insn);
        assert(self@ =~= c.emit(insn));
    }

    /// The place of the next instruction.
    pub(crate) fn here(&self) -> (r: usize)
        ensures
            r == self@.here(),
    {
        self.insns.len()
    }

    pub(crate) fn depth(&self) -> (r: usize)
        ensures
            r == self@.depth,
    {
        self.depth
    }

    /// Go on at another depth.
    pub(crate) fn at_depth(&mut self, depth: usize)
        ensures
            old(self)@.tidy() ==> final(self)@.tidy(),
            final(self)@ == old(self)@.at_depth(depth as nat),
    {
        proof {
            reveal(Code::at_depth);
            reveal(Code::tidy);
        }
        let ghost c = self@;
        self.depth = depth;
        assert(self@ =~= c.at_depth(depth as nat));
    }

    /// A jump, to be aimed later.
    pub(crate) fn emit_jump(&mut self, jump: Jump) -> (r: usize)
        ensures
            old(self)@.tidy() ==> final(self)@.tidy(),
            r == old(self)@.here(),
            final(self)@ == old(self)@.emit(jump.over(0)),
    {
        let at: usize = self.here();
        self.emit(jump.insn());
        at
    }

    /// Aim a jump.
    pub(crate) fn patch(&mut self, at: usize, target: usize)
        ensures
            old(self)@.tidy() ==> final(self)@.tidy(),
            final(self)@ == old(self)@.patch(at as nat, target as nat),
    {
        proof {
            reveal(Code::patch);
            reveal(Code::tidy);
        }
        let ghost c = self@;
        if at >= self.insns.len() {
            return;
        }
        let distance: i128 = target as i128 - at as i128 - 1;
        #[verifier::truncate]
        let d: i32 = distance as i32;
        let insn: Insn = self.insns[at];
        let aimed = match insn {
            Insn::Jump(_) => Insn::Jump(d),
            Insn::Goto(_, depth) => Insn::Goto(d, depth),
            Insn::GotoValue(_, depth) => Insn::GotoValue(d, depth),
            Insn::JumpUnless(_) => Insn::JumpUnless(d),
            Insn::JumpIf(_) => Insn::JumpIf(d),
            Insn::JumpUnlessKeep(_) => Insn::JumpUnlessKeep(d),
            Insn::JumpUnlessUndef(_) => Insn::JumpUnlessUndef(d),
            Insn::JumpIfKeep(_) => Insn::JumpIfKeep(d),
            _ => insn,
        };
        self.insns.set(at, aimed);
        assert(self@ =~= c.patch(at as nat, target as nat));
    }

    /// Aim a jump at what comes next.
    pub(crate) fn patch_here(&mut self, at: usize)
        ensures
            old(self)@.tidy() ==> final(self)@.tidy(),
            final(self)@ == old(self)@.patch_here(at as nat),
    {
        proof {
            reveal(Code::patch_here);
        }
        let target: usize = self.here();
        self.patch(at, target);
    }

    /// Aim several jumps.
    pub(crate) fn patch_all(&mut self, at: &Vec<usize>, target: usize)
        ensures
            old(self)@.tidy() ==> final(self)@.tidy(),
            final(self)@ == old(self)@.patch_all(at@, target as nat),
    {
        proof {
            reveal(Code::patch_all);
            reveal(Code::tidy);
        }
        let ghost c = self@;
        let mut i: usize = 0;
        assert(at@.skip(0) =~= at@);
        while i < at.len()
            invariant
                i <= at.len(),
                c.tidy() ==> self@.tidy(),
                self@.patch_all(at@.skip(i as int), target as nat) == c.patch_all(
                    at@,
                    target as nat,
                ),
            decreases at.len() - i,
        {
            reveal(Code::patch_all);
            let ghost rest = at@.skip(i as int);
            self.patch(at[i], target);
            i += 1;
            assert(rest.skip(1) =~= at@.skip(i as int));
        }
    }

    /// Aim several jumps at what comes next.
    pub(crate) fn patch_all_here(&mut self, at: &Vec<usize>)
        ensures
            old(self)@.tidy() ==> final(self)@.tidy(),
            final(self)@ == old(self)@.patch_all(at@, old(self)@.here()),
    {
        let target: usize = self.here();
        self.patch_all(at, target);
    }

    /// A jump that leaves an `ensure` on the way, where there is one.
    pub(crate) fn emit_goto(&mut self, depth: usize, carries: bool) -> (r: usize)
        ensures
            old(self)@.tidy() ==> final(self)@.tidy(),
            r == old(self)@.here(),
            final(self)@ == old(self)@.emit(old(self)@.goto_insn(depth as nat, carries)),
    {
        proof {
            reveal(Code::goto_insn);
        }
        let at: usize = self.here();
        #[verifier::truncate]
        let to: u32 = depth as u32;
        let insn = if self.open_ensures == 0 {
            Insn::Jump(0)
        } else if carries {
            Insn::GotoValue(0, to)
        } else {
            Insn::Goto(0, to)
        };
        self.emit(insn);
        at
    }

    /// Drop so many operands.
    pub(crate) fn pops(&mut self, n: usize)
        ensures
            old(self)@.tidy() ==> final(self)@.tidy(),
            final(self)@ == old(self)@.pops(n as nat),
    {
        proof {
            reveal(Code::pops);
            reveal(Code::tidy);
        }
        let ghost c = self@;
        let mut left: usize = n;
        while left > 0
            invariant
                left <= n,
                c.tidy() ==> self@.tidy(),
                self@.pops(left as nat) == c.pops(n as nat),
            decreases left,
        {
            reveal(Code::pops);
            self.emit(Insn::Pop);
            left = left - 1;
        }
    }

    /// Push a literal.
    pub(crate) fn push_literal(&mut self, literal: Literal)
        ensures
            old(self)@.tidy() ==> final(self)@.tidy(),
            final(self)@ == old(self)@.push_literal(literal@),
    {
        proof {
            reveal(Code::push_literal);
            reveal(Code::tidy);
            reveal(Code::literal);
        }
        let ghost c = self@;
        let place: usize = self.literals.len();
        #[verifier::truncate]
        let index: u32 = place as u32;
        self.literals.push(literal);
        assert(self@ =~= c.literal(literal@));
        self.emit(Insn::PushLit(index));
    }

    /// The place of a symbol in the pool.
    pub(crate) fn symbol(&mut self, name: &str) -> (r: u32)
        ensures
            r == old(self)@.symbol_at(name@),
            final(self)@ == old(self)@.symbol(name@),
            old(self)@.tidy() ==> final(self)@.tidy(),
    {
        proof {
            reveal(Code::symbol);
            reveal(Code::symbol_at);
            reveal(Code::tidy);
        }
        let ghost c = self@;
        let place = find_name(&self.symbols, name);
        #[verifier::truncate]
        let index: u32 = place as u32;
        if place == self.symbols.len() {
            self.symbols.push(name.to_owned());
        }
        proof {
            assert(self@ =~= c.symbol(name@));
            if c.tidy() {
                law_symbols_are_stored_once(c, name@);
            }
        }
        index
    }

    /// The slot of a local of this scope.
    pub(crate) fn slot(&mut self, name: &str) -> (r: u16)
        ensures
            old(self)@.tidy() ==> final(self)@.tidy(),
            r == old(self)@.slot_at(name@),
            final(self)@ == old(self)@.slot(name@),
    {
        proof {
            reveal(Code::slot);
            reveal(Code::slot_at);
            reveal(Code::tidy);
        }
        let ghost c = self@;
        let place = find_name(&self.locals, name);
        #[verifier::truncate]
        let index: u16 = place as u16;
        if place == self.locals.len() {
            self.locals.push(name.to_owned());
        }
        assert(self@ =~= c.slot(name@));
        index
    }

    /// A hidden local of this scope, told apart by the place it is made at.
    pub(crate) fn hidden_slot(&mut self, prefix: &str) -> (r: u16)
        ensures
            old(self)@.tidy() ==> final(self)@.tidy(),
            r == old(self)@.slot_at(hidden(prefix@, old(self)@.here())),
            final(self)@ == old(self)@.slot(hidden(prefix@, old(self)@.here())),
    {
        let name = hidden_name(prefix, self.here());
        self.slot(name.as_str())
    }

    /// The slot of a local, where it has one.
    pub(crate) fn find_slot(&self, name: &str) -> (r: Option<usize>)
        ensures
            match r {
                Some(place) => place == place_of(self@.locals, name@) && place
                    < self@.locals.len(),
                None => place_of(self@.locals, name@) >= self@.locals.len(),
            },
    {
        let place = find_name(&self.locals, name);
        if place < self.locals.len() {
            Some(place)
        } else {
            None
        }
    }

    /// The slot of a local of a scope around, where it has one.
    pub(crate) fn find_outer(&self, scope: usize, name: &str) -> (r: Option<usize>)
        requires
            scope < self@.outer.len(),
        ensures
            match r {
                Some(place) => place == place_of(self@.outer[scope as int], name@) && place
                    < self@.outer[scope as int].len(),
                None => place_of(self@.outer[scope as int], name@)
                    >= self@.outer[scope as int].len(),
            },
    {
        let place = find_name(&self.outer[scope], name);
        if place < self.outer[scope].len() {
            Some(place)
        } else {
            None
        }
    }

    /// The slot of a parameter, moved to where the binder writes it.
    pub(crate) fn param_slot(&mut self, name: &str, at: usize) -> (r: u16)
        ensures
            old(self)@.tidy() ==> final(self)@.tidy(),
            r == old(self)@.param_slot_at(name@, at as nat),
            final(self)@ == old(self)@.param_slot(name@, at as nat),
    {
        proof {
            reveal(Code::tidy);
            reveal(Code::param_slot);
            reveal(Code::param_slot_at);
            reveal(Code::slot);
            reveal(Code::slot_at);
        }
        let ghost c = self@;
        proof {
            lemma_place(c.locals, name@);
        }
        let slot: u16 = self.slot(name);
        let ghost mid = self@;
        if slot as usize == at {
            return slot;
        }
        if slot as usize > at {
            let from: usize = slot as usize;
            assert(from < self.locals@.len());
            let first = self.locals[at].as_str().to_owned();
            let second = self.locals[from].as_str().to_owned();
            self.locals.set(at, second);
            self.locals.set(from, first);
            assert(self@ =~= c.param_slot(name@, at as nat));
            return at as u16;
        }
        let digits = text::number(at as u64, 10);
        let start = text::join3(name, " (", digits.as_str());
        let spelled = text::join(start.as_str(), ")");
        self.slot(spelled.as_str())
    }

    /// Another call site.
    pub(crate) fn push_site(&mut self, site: CallSite) -> (r: u32)
        ensures
            old(self)@.tidy() ==> final(self)@.tidy(),
            r == old(self)@.call_sites.len() as u32,
            final(self)@ == old(self)@.push_site(site@),
    {
        proof {
            reveal(Code::push_site);
            reveal(Code::tidy);
        }
        let ghost c = self@;
        let place: usize = self.call_sites.len();
        #[verifier::truncate]
        let index: u32 = place as u32;
        self.call_sites.push(site);
        assert(self@ =~= c.push_site(site@));
        index
    }

    /// A call of a method with only positional arguments.
    pub(crate) fn send(&mut self, name: &str, argc: u16, implicit_self: bool)
        ensures
            final(self)@ == old(self)@.send(name@, argc, implicit_self),
            old(self)@.tidy() ==> final(self)@.tidy(),
    {
        proof {
            reveal(Code::symbol);
            reveal(Code::send);
            reveal(Code::tidy);
        }
        let ghost c = self@;
        let symbol = self.symbol(name);
        let site = CallSite {
            name: symbol,
            argc,
            splats: Vec::new(),
            keywords: Vec::new(),
            block: BlockRef::Absent,
            implicit_self,
        };
        proof {
            assert(site@ =~= (SiteModel {
                name: c.symbol_at(name@),
                argc,
                splats: Seq::empty(),
                keywords: Seq::empty(),
                block: BlockRef::Absent,
                implicit_self,
            }));
        }
        let index = self.push_site(site);
        self.emit(Insn::Send(index));
    }

    /// A call on what was pushed.
    pub(crate) fn emit_send(&mut self, name: &str, argc: u16)
        ensures
            final(self)@ == old(self)@.send(name@, argc, false),
            old(self)@.tidy() ==> final(self)@.tidy(),
    {
        self.send(name, argc, false)
    }

    /// A call on the frame's `self`, which was pushed.
    pub(crate) fn emit_send_to_self(&mut self, name: &str, argc: u16)
        ensures
            final(self)@ == old(self)@.send(name@, argc, true),
            old(self)@.tidy() ==> final(self)@.tidy(),
    {
        self.send(name, argc, true)
    }

    /// Push a constant.
    pub(crate) fn push_const_name(&mut self, name: &str)
        ensures
            final(self)@ == old(self)@.push_const(name@),
            old(self)@.tidy() ==> final(self)@.tidy(),
    {
        proof {
            reveal(Code::push_const);
        }
        let symbol = self.symbol(name);
        self.emit(Insn::GetConst(symbol, ConstScope::Lexical));
    }

    /// Another nested body.
    pub(crate) fn push_child(&mut self, child: Iseq) -> (r: u32)
        ensures
            old(self)@.tidy() ==> final(self)@.tidy(),
            r == old(self)@.children.len() as u32,
            final(self)@ == old(self)@.push_child(unit(child)),
    {
        proof {
            reveal(Code::push_child);
            reveal(Code::tidy);
        }
        let ghost c = self@;
        let ghost was = self.children@;
        proof {
            lemma_units(was);
        }
        let place: usize = self.children.len();
        #[verifier::truncate]
        let index: u32 = place as u32;
        let shared = Arc::new(child);
        self.children.push(shared);
        proof {
            let all = self.children@;
            assert(all.subrange(0, all.len() - 1) =~= was);
            assert(units(all) == units(was).push(unit(child)));
            assert(self@ =~= c.push_child(unit(child)));
        }
        index
    }
}

/// There are as many models as units.
proof fn lemma_units(all: Seq<Arc<Iseq>>)
    ensures
        units(all).len() == all.len(),
    decreases all.len(),
{
    if all.len() > 0 {
        lemma_units(all.subrange(0, all.len() - 1));
    }
}

impl Zsuper {
    /// The same arguments, from one scope further in.
    fn further(&self) -> (r: Zsuper)
        ensures
            r@ == (ZsuperModel { depth: (self@.depth + 1) as u16, ..self@ }),
    {
        let up: u32 = self.depth as u32 + 1;
        #[verifier::truncate]
        let depth: u16 = up as u16;
        self.copied(depth)
    }

    /// The same arguments, from so many scopes up.
    fn copied(&self, depth: u16) -> (r: Zsuper)
        ensures
            r@ == (ZsuperModel { depth, ..self@ }),
    {
        let mut positional: Vec<(u16, bool)> = Vec::new();
        let mut i: usize = 0;
        while i < self.positional.len()
            invariant
                i <= self.positional.len(),
                positional@ == self.positional@.take(i as int),
            decreases self.positional.len() - i,
        {
            positional.push(self.positional[i]);
            i += 1;
            assert(positional@ =~= self.positional@.take(i as int));
        }
        let mut keywords: Vec<(String, u16)> = Vec::new();
        let mut k: usize = 0;
        while k < self.keywords.len()
            invariant
                k <= self.keywords.len(),
                keywords@.len() == k,
                forall|j: int|
                    0 <= j < k ==> (#[trigger] keywords@[j]).0@ == self.keywords@[j].0@
                        && keywords@[j].1 == self.keywords@[j].1,
            decreases self.keywords.len() - k,
        {
            keywords.push((self.keywords[k].0.as_str().to_owned(), self.keywords[k].1));
            k += 1;
        }
        let r = Zsuper { positional, keywords, depth };
        proof {
            assert(self.positional@.take(i as int) =~= self.positional@);
            assert(r@.keywords =~= self@.keywords);
        }
        r
    }
}

// ---------------------------------------------------------------------------
// The surroundings
// ---------------------------------------------------------------------------

impl Code {
    /// The code with this scope's own environment hidden from the language.
    #[verifier::opaque]
    pub open spec fn hide_environment(self) -> Code {
        Code { env_synthetic: self.env_synthetic.update(0, true), ..self }
    }

    /// The code with its locals taken to be those of several scopes.
    #[verifier::opaque]
    pub open spec fn flatten(self) -> Code {
        Code { flattened: true, ..self }
    }

    /// The code with another pattern that is evaluated once.
    #[verifier::opaque]
    pub open spec fn another_once(self) -> Code {
        Code { once_regexps: (self.once_regexps + 1) as u32, ..self }
    }

    /// The code with another definition.
    #[verifier::opaque]
    pub open spec fn push_definition(self, name: u32, child: u32) -> Code {
        Code { definitions: self.definitions.push((name, child)), ..self }
    }

    /// The code with another class that is opened.
    #[verifier::opaque]
    pub open spec fn push_class_def(self, def: ClassDef) -> Code {
        Code { class_defs: self.class_defs.push(def), ..self }
    }

    /// The code with another protected range.
    #[verifier::opaque]
    pub open spec fn guard(self, entry: CatchEntry) -> Code {
        Code { catch_table: self.catch_table.push(entry), ..self }
    }

    /// The code as deep as a handler finds it.
    #[verifier::opaque]
    pub open spec fn handle_at(self, depth: nat) -> Code {
        Code {
            depth,
            max_stack: if self.max_stack < depth {
                depth
            } else {
                self.max_stack
            },
            ..self
        }
    }

    /// The code inside another loop, which starts here.
    #[verifier::opaque]
    pub open spec fn push_loop(self) -> Code {
        Code {
            loops: self.loops.push(
                LoopModel {
                    base_depth: self.depth as usize,
                    next_target: self.here() as usize,
                    redo_target: self.here() as usize,
                    breaks: Seq::empty(),
                },
            ),
            ..self
        }
    }

    /// The code behind the innermost loop.
    #[verifier::opaque]
    pub open spec fn pop_loop(self) -> Code {
        if self.loops.len() == 0 {
            self
        } else {
            Code { loops: self.loops.drop_last(), ..self }
        }
    }

    /// The code with the innermost loop's `next` somewhere.
    #[verifier::opaque]
    pub open spec fn next_at(self, target: nat) -> Code {
        if self.loops.len() == 0 {
            self
        } else {
            Code {
                loops: self.loops.update(
                    self.loops.len() - 1,
                    LoopModel { next_target: target as usize, ..self.loops.last() },
                ),
                ..self
            }
        }
    }

    /// The code with the innermost loop's `redo` somewhere.
    #[verifier::opaque]
    pub open spec fn redo_at(self, target: nat) -> Code {
        if self.loops.len() == 0 {
            self
        } else {
            Code {
                loops: self.loops.update(
                    self.loops.len() - 1,
                    LoopModel { redo_target: target as usize, ..self.loops.last() },
                ),
                ..self
            }
        }
    }

    /// The code with another `break` out of the innermost loop.
    #[verifier::opaque]
    pub open spec fn add_break(self, at: nat) -> Code {
        if self.loops.len() == 0 {
            self
        } else {
            Code {
                loops: self.loops.update(
                    self.loops.len() - 1,
                    LoopModel { breaks: self.loops.last().breaks.push(at as usize), ..self.loops.last() },
                ),
                ..self
            }
        }
    }

    /// The code of a body in which a `retry` can be written.
    #[verifier::opaque]
    pub open spec fn push_retry(self, body_start: nat, base: nat) -> Code {
        Code {
            retries: self.retries.push(
                Retry { body_start: body_start as usize, base_depth: base as usize },
            ),
            ..self
        }
    }

    /// The code behind such a body.
    #[verifier::opaque]
    pub open spec fn pop_retry(self) -> Code {
        Code {
            retries: if self.retries.len() == 0 {
                self.retries
            } else {
                self.retries.drop_last()
            },
            ..self
        }
    }

    /// The code from which so many `ensure` bodies are owed.
    #[verifier::opaque]
    pub open spec fn owe(self, owed: nat) -> Code {
        Code { open_ensures: owed, ..self }
    }

    /// The code inside so many compound patterns.
    #[verifier::opaque]
    pub open spec fn at_pattern_depth(self, depth: nat) -> Code {
        Code { pattern_depth: depth, ..self }
    }

    /// The code with a missed key recorded somewhere.
    #[verifier::opaque]
    pub open spec fn with_pattern_key(self, key: Option<u16>) -> Code {
        Code { pattern_key: key, ..self }
    }

    /// The code with what `deconstruct` answers kept somewhere.
    #[verifier::opaque]
    pub open spec fn with_pattern_cache(self, cache: Option<u16>) -> Code {
        Code { pattern_cache: cache, ..self }
    }

    /// The code of a body with parameters.
    #[verifier::opaque]
    pub open spec fn with_params(self, params: ParamModel) -> Code {
        Code { params, ..self }
    }

    /// The code of a body in which a bare `super` forwards something.
    #[verifier::opaque]
    pub open spec fn with_zsuper(self, zsuper: ZsuperModel) -> Code {
        Code { zsuper: Some(zsuper), ..self }
    }
}

impl Compiler {
    /// Whether an environment around is one the language does not see.
    pub(crate) fn has_synthetic_env(&self) -> (r: bool)
        ensures
            r == self@.env_synthetic.contains(true),
    {
        let mut i: usize = 0;
        while i < self.env_synthetic.len()
            invariant
                i <= self.env_synthetic.len(),
                forall|k: int| 0 <= k < i ==> !#[trigger] self.env_synthetic@[k],
            decreases self.env_synthetic.len() - i,
        {
            if self.env_synthetic[i] {
                assert(self.env_synthetic@[i as int] == true);
                return true;
            }
            i += 1;
        }
        false
    }

    /// Whether this scope's own environment is.
    pub(crate) fn starts_synthetic(&self) -> (r: bool)
        requires
            self@.env_synthetic.len() > 0,
        ensures
            r == self@.env_synthetic[0],
    {
        self.env_synthetic[0]
    }

    pub(crate) fn environments(&self) -> (r: usize)
        ensures
            r == self@.env_synthetic.len(),
    {
        self.env_synthetic.len()
    }

    pub(crate) fn is_synthetic(&self, at: usize) -> (r: bool)
        requires
            at < self@.env_synthetic.len(),
        ensures
            r == self@.env_synthetic[at as int],
    {
        self.env_synthetic[at]
    }

    /// Hide this scope's own environment from the language.
    pub(crate) fn hide_environment(&mut self)
        requires
            old(self)@.env_synthetic.len() > 0,
        ensures
            old(self)@.tidy() ==> final(self)@.tidy(),
            final(self)@ == old(self)@.hide_environment(),
    {
        proof {
            reveal(Code::hide_environment);
            reveal(Code::tidy);
        }
        let ghost c = self@;
        self.env_synthetic.set(0, true);
        assert(self@ =~= (Code { env_synthetic: c.env_synthetic.update(0, true), ..c }));
    }

    pub(crate) fn outer_scopes(&self) -> (r: usize)
        ensures
            r == self@.outer.len(),
    {
        self.outer.len()
    }

    pub(crate) fn is_flattened(&self) -> (r: bool)
        ensures
            r == self@.flattened,
    {
        self.flattened
    }

    /// Take the locals to be those of several scopes.
    pub(crate) fn flatten(&mut self)
        ensures
            old(self)@.tidy() ==> final(self)@.tidy(),
            final(self)@ == old(self)@.flatten(),
    {
        proof {
            reveal(Code::flatten);
            reveal(Code::tidy);
        }
        let ghost c = self@;
        self.flattened = true;
        assert(self@ =~= (Code { flattened: true, ..c }));
    }

    pub(crate) fn is_barrier(&self) -> (r: bool)
        ensures
            r == self@.scope_barrier,
    {
        self.scope_barrier
    }

    /// Another pattern that is evaluated once.
    pub(crate) fn another_once(&mut self) -> (r: u32)
        ensures
            old(self)@.tidy() ==> final(self)@.tidy(),
            r == old(self)@.once_regexps,
            final(self)@ == old(self)@.another_once(),
    {
        proof {
            reveal(Code::another_once);
            reveal(Code::tidy);
        }
        let ghost c = self@;
        let site: u32 = self.once_regexps;
        let next: u64 = site as u64 + 1;
        #[verifier::truncate]
        let next: u32 = next as u32;
        self.once_regexps = next;
        assert(self@ =~= (Code { once_regexps: (c.once_regexps + 1) as u32, ..c }));
        site
    }

    /// Another definition.
    pub(crate) fn push_definition(&mut self, name: u32, child: u32) -> (r: u32)
        ensures
            old(self)@.tidy() ==> final(self)@.tidy(),
            r == old(self)@.definitions.len() as u32,
            final(self)@ == old(self)@.push_definition(name, child),
    {
        proof {
            reveal(Code::push_definition);
            reveal(Code::tidy);
        }
        let ghost c = self@;
        let place: usize = self.definitions.len();
        #[verifier::truncate]
        let index: u32 = place as u32;
        self.definitions.push((name, child));
        assert(self@ =~= (Code { definitions: c.definitions.push((name, child)), ..c }));
        index
    }

    /// Another class that is opened.
    pub(crate) fn push_class_def(&mut self, def: ClassDef) -> (r: u32)
        ensures
            old(self)@.tidy() ==> final(self)@.tidy(),
            r == old(self)@.class_defs.len() as u32,
            final(self)@ == old(self)@.push_class_def(def),
    {
        proof {
            reveal(Code::push_class_def);
            reveal(Code::tidy);
        }
        let ghost c = self@;
        let place: usize = self.class_defs.len();
        #[verifier::truncate]
        let index: u32 = place as u32;
        self.class_defs.push(def);
        assert(self@ =~= (Code { class_defs: c.class_defs.push(def), ..c }));
        index
    }

    /// Another protected range.
    pub(crate) fn guard(&mut self, entry: CatchEntry)
        ensures
            old(self)@.tidy() ==> final(self)@.tidy(),
            final(self)@ == old(self)@.guard(entry),
    {
        proof {
            reveal(Code::guard);
            reveal(Code::tidy);
        }
        let ghost c = self@;
        self.catch_table.push(entry);
        assert(self@ =~= (Code { catch_table: c.catch_table.push(entry), ..c }));
    }

    /// Go on at the depth a handler finds.
    pub(crate) fn handle_at(&mut self, depth: usize)
        ensures
            old(self)@.tidy() ==> final(self)@.tidy(),
            final(self)@ == old(self)@.handle_at(depth as nat),
    {
        proof {
            reveal(Code::handle_at);
            reveal(Code::tidy);
        }
        let ghost c = self@;
        self.depth = depth;
        if self.max_stack < depth {
            self.max_stack = depth;
        }
        assert(self@ =~= (Code { depth: depth as nat, max_stack: self@.max_stack, ..c }));
    }

    /// Enter a loop.
    pub(crate) fn push_loop(&mut self)
        ensures
            old(self)@.tidy() ==> final(self)@.tidy(),
            final(self)@ == old(self)@.push_loop(),
    {
        proof {
            reveal(Code::push_loop);
            reveal(Code::tidy);
        }
        let ghost c = self@;
        let top: usize = self.here();
        let inner = Loop {
            base_depth: self.depth,
            next_target: top,
            redo_target: top,
            breaks: Vec::new(),
        };
        let ghost model = inner@;
        proof {
            assert(model =~= (LoopModel {
                base_depth: c.depth as usize,
                next_target: c.here() as usize,
                redo_target: c.here() as usize,
                breaks: Seq::empty(),
            }));
        }
        self.loops.push(inner);
        assert(self@ =~= (Code { loops: c.loops.push(model), ..c }));
    }

    /// Leave a loop; the jumps of its `break`s come back.
    pub(crate) fn pop_loop(&mut self) -> (r: Option<Vec<usize>>)
        ensures
            old(self)@.tidy() ==> final(self)@.tidy(),
            match r {
                Some(breaks) => old(self)@.loops.len() > 0 && breaks@ == old(
                    self,
                )@.loops.last().breaks,
                None => old(self)@.loops.len() == 0,
            },
            final(self)@ == old(self)@.pop_loop(),
    {
        proof {
            reveal(Code::pop_loop);
            reveal(Code::tidy);
        }
        let ghost c = self@;
        match self.loops.pop() {
            Some(inner) => {
                assert(self@ =~= (Code { loops: c.loops.drop_last(), ..c }));
                Some(inner.breaks)
            },
            None => {
                assert(self@ =~= c);
                None
            },
        }
    }

    /// The innermost loop: its depth, and where `next` and `redo` go.
    pub(crate) fn innermost(&self) -> (r: Option<(usize, usize, usize)>)
        ensures
            match r {
                Some((base, next, redo)) => self@.loops.len() > 0 && base
                    == self@.loops.last().base_depth && next == self@.loops.last().next_target
                    && redo == self@.loops.last().redo_target,
                None => self@.loops.len() == 0,
            },
    {
        let len: usize = self.loops.len();
        if len == 0 {
            None
        } else {
            let inner = &self.loops[len - 1];
            Some((inner.base_depth, inner.next_target, inner.redo_target))
        }
    }

    /// Send `next` somewhere.
    pub(crate) fn next_at(&mut self, target: usize)
        ensures
            old(self)@.tidy() ==> final(self)@.tidy(),
            final(self)@ == old(self)@.next_at(target as nat),
    {
        proof {
            reveal(Code::next_at);
            reveal(Code::tidy);
        }
        let ghost c = self@;
        let len: usize = self.loops.len();
        if len > 0 {
            self.loops[len - 1].next_target = target;
            assert(self@ =~= (Code {
                loops: c.loops.update(
                    len - 1,
                    LoopModel { next_target: target, ..c.loops.last() },
                ),
                ..c
            }));
        }
    }

    /// Send `redo` somewhere.
    pub(crate) fn redo_at(&mut self, target: usize)
        ensures
            old(self)@.tidy() ==> final(self)@.tidy(),
            final(self)@ == old(self)@.redo_at(target as nat),
    {
        proof {
            reveal(Code::redo_at);
            reveal(Code::tidy);
        }
        let ghost c = self@;
        let len: usize = self.loops.len();
        if len > 0 {
            self.loops[len - 1].redo_target = target;
            assert(self@ =~= (Code {
                loops: c.loops.update(
                    len - 1,
                    LoopModel { redo_target: target, ..c.loops.last() },
                ),
                ..c
            }));
        }
    }

    /// Another jump of a `break`.
    pub(crate) fn add_break(&mut self, at: usize)
        ensures
            old(self)@.tidy() ==> final(self)@.tidy(),
            final(self)@ == old(self)@.add_break(at as nat),
    {
        proof {
            reveal(Code::add_break);
            reveal(Code::tidy);
        }
        let ghost c = self@;
        let len: usize = self.loops.len();
        if len > 0 {
            self.loops[len - 1].breaks.push(at);
            assert(self@ =~= (Code {
                loops: c.loops.update(
                    len - 1,
                    LoopModel { breaks: c.loops.last().breaks.push(at), ..c.loops.last() },
                ),
                ..c
            }));
        }
    }

    /// Enter what a `retry` can be written in.
    pub(crate) fn push_retry(&mut self, body_start: usize, base_depth: usize)
        ensures
            old(self)@.tidy() ==> final(self)@.tidy(),
            final(self)@ == old(self)@.push_retry(body_start as nat, base_depth as nat),
    {
        proof {
            reveal(Code::push_retry);
            reveal(Code::tidy);
        }
        let ghost c = self@;
        let retry = Retry { body_start, base_depth };
        self.retries.push(retry);
        assert(self@ =~= (Code { retries: c.retries.push(retry), ..c }));
    }

    /// Leave it.
    pub(crate) fn pop_retry(&mut self)
        ensures
            old(self)@.tidy() ==> final(self)@.tidy(),
            final(self)@ == old(self)@.pop_retry(),
    {
        proof {
            reveal(Code::pop_retry);
            reveal(Code::tidy);
        }
        let ghost c = self@;
        if self.retries.len() > 0 {
            self.retries.pop();
            assert(self@ =~= (Code { retries: c.retries.drop_last(), ..c }));
        }
    }

    /// What a `retry` starts again.
    pub(crate) fn last_retry(&self) -> (r: Option<Retry>)
        ensures
            match r {
                Some(retry) => self@.retries.len() > 0 && retry == self@.retries.last(),
                None => self@.retries.len() == 0,
            },
    {
        let len: usize = self.retries.len();
        if len == 0 {
            None
        } else {
            Some(self.retries[len - 1])
        }
    }

    pub(crate) fn ensures_open(&self) -> (r: usize)
        ensures
            r == self@.open_ensures,
    {
        self.open_ensures
    }

    /// Set how many `ensure` bodies are owed.
    pub(crate) fn owe(&mut self, owed: usize)
        ensures
            old(self)@.tidy() ==> final(self)@.tidy(),
            final(self)@ == old(self)@.owe(owed as nat),
    {
        proof {
            reveal(Code::owe);
            reveal(Code::tidy);
        }
        let ghost c = self@;
        self.open_ensures = owed;
        assert(self@ =~= (Code { open_ensures: owed as nat, ..c }));
    }

    pub(crate) fn pattern_depth(&self) -> (r: usize)
        ensures
            r == self@.pattern_depth,
    {
        self.pattern_depth
    }

    pub(crate) fn set_pattern_depth(&mut self, depth: usize)
        ensures
            old(self)@.tidy() ==> final(self)@.tidy(),
            final(self)@ == old(self)@.at_pattern_depth(depth as nat),
    {
        proof {
            reveal(Code::at_pattern_depth);
            reveal(Code::tidy);
        }
        let ghost c = self@;
        self.pattern_depth = depth;
        assert(self@ =~= (Code { pattern_depth: depth as nat, ..c }));
    }

    pub(crate) fn pattern_key(&self) -> (r: Option<u16>)
        ensures
            r == self@.pattern_key,
    {
        self.pattern_key
    }

    pub(crate) fn set_pattern_key(&mut self, key: Option<u16>)
        ensures
            old(self)@.tidy() ==> final(self)@.tidy(),
            final(self)@ == old(self)@.with_pattern_key(key),
    {
        proof {
            reveal(Code::with_pattern_key);
            reveal(Code::tidy);
        }
        let ghost c = self@;
        self.pattern_key = key;
        assert(self@ =~= (Code { pattern_key: key, ..c }));
    }

    pub(crate) fn pattern_cache(&self) -> (r: Option<u16>)
        ensures
            r == self@.pattern_cache,
    {
        self.pattern_cache
    }

    pub(crate) fn set_pattern_cache(&mut self, cache: Option<u16>)
        ensures
            old(self)@.tidy() ==> final(self)@.tidy(),
            final(self)@ == old(self)@.with_pattern_cache(cache),
    {
        proof {
            reveal(Code::with_pattern_cache);
            reveal(Code::tidy);
        }
        let ghost c = self@;
        self.pattern_cache = cache;
        assert(self@ =~= (Code { pattern_cache: cache, ..c }));
    }

    pub(crate) fn set_params(&mut self, params: ParamSpec)
        ensures
            old(self)@.tidy() ==> final(self)@.tidy(),
            final(self)@ == old(self)@.with_params(params@),
    {
        proof {
            reveal(Code::with_params);
            reveal(Code::tidy);
        }
        let ghost c = self@;
        self.params = params;
        assert(self@ =~= (Code { params: params@, ..c }));
    }

    pub(crate) fn set_zsuper(&mut self, zsuper: Zsuper)
        ensures
            old(self)@.tidy() ==> final(self)@.tidy(),
            final(self)@ == old(self)@.with_zsuper(zsuper@),
    {
        proof {
            reveal(Code::with_zsuper);
            reveal(Code::tidy);
        }
        let ghost c = self@;
        self.zsuper = Some(zsuper);
        assert(self@ =~= (Code { zsuper: Some(zsuper@), ..c }));
    }

    /// What a bare `super` forwards.
    pub(crate) fn forwarding(&self) -> (r: Option<Zsuper>)
        ensures
            match r {
                Some(z) => self@.zsuper == Some(z@),
                None => self@.zsuper is None,
            },
    {
        match &self.zsuper {
            Some(z) => Some(z.copied(z.depth)),
            None => None,
        }
    }

    /// The slot of a `**kw`.
    pub(crate) fn kwrest(&self) -> (r: Option<u16>)
        ensures
            r == self@.params.kwrest,
    {
        self.params.kwrest
    }
}

} // verus!
