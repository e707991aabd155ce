//! The bytecode: what the compiler emits and the interpreter runs.
//!
//! An [`Iseq`] is position independent. Jumps are relative, symbols are names
//! until [`Iseq::link`] turns them into ids, and a [`Literal`] describes a
//! value rather than being one.

use std::sync::Arc;

use vstd::prelude::*;

use crate::shared::symbols;
use crate::shared::symbols::Symbols;
use crate::value::SymbolId;

verus! {

/// One instruction.
#[derive(Debug, Clone, Copy, PartialEq, Eq, Structural)]
pub enum Insn {
    PushNil,
    PushTrue,
    PushFalse,
    PushSelf,
    /// An integer that fits a fixnum.
    PushInt(i64),
    /// Index into [`Iseq::literals`].
    PushLit(u32),
    /// Index into [`Iseq::symbols`].
    PushSym(u32),
    Pop,
    Dup,
    /// `(slot, depth)`, `depth` scopes up.
    GetLocal(u16, u16),
    /// Pops.
    SetLocal(u16, u16),
    /// Relative to the instruction after this one.
    Jump(i32),
    /// Pops; jumps when the value is falsy.
    JumpUnless(i32),
    /// Pops; jumps when the value is truthy.
    JumpIf(i32),
    /// Peeks; jumps when the value is falsy.
    JumpUnlessKeep(i32),
    /// Peeks; jumps when the value is truthy.
    JumpIfKeep(i32),
    /// Pops; jumps unless the value says that no argument was supplied.
    JumpUnlessUndef(i32),
    /// Pops two operands and pushes the result.
    BinOp(BinOp),
    /// `-@`
    Neg,
    /// `!`
    Not,
    /// Pops `n` values into a new `Array`.
    NewArray(u32),
    /// Pops the condition and the subject beneath it; pushes
    /// `condition === subject`.
    CaseEq,
    /// Index into [`Iseq::call_sites`].
    Send(u32),
    /// Index into [`Iseq::call_sites`]; calls the frame's block.
    Yield(u32),
    /// Index into [`Iseq::call_sites`]; calls the method this one overrides.
    Super(u32),
    /// Index into [`Iseq::children`]; the flag is set for a lambda.
    MakeProc(u32, bool),
    /// Index into [`Iseq::definitions`]; defines on the lexical scope.
    DefineMethod(u32),
    /// Index into [`Iseq::definitions`]; pops the receiver.
    DefineSingleton(u32),
    /// Index into [`Iseq::symbols`]; a qualified one pops the module.
    GetConst(u32, ConstScope),
    /// Pops the value, then for a qualified one the module; leaves the value.
    SetConst(u32, ConstScope),
    /// `defined?(A)`.
    DefinedConst(u32, ConstScope),
    /// Index into [`Iseq::class_defs`].
    OpenClass(u32),
    /// `defined?(recv.m)`; pops the receiver.
    DefinedMethod(u32),
    /// `defined?(m)` on the frame's `self`.
    DefinedSelfMethod(u32),
    /// `defined?(yield)`.
    DefinedYield,
    /// Return the top of the stack from this frame.
    Leave,
    /// [`Insn::Leave`] that runs the `ensure` bodies it is leaving.
    LeaveThroughEnsure,
    /// `return`: leaves the method the code was written in.
    Return,
    /// `break` out of a block.
    Break,
    /// Pops an exception and unwinds with it.
    Raise,
    /// Pops a class and peeks the exception beneath it; pushes whether it
    /// matches.
    CheckMatch,
    /// [`Insn::CheckMatch`] over an `Array` of classes.
    CheckMatchAny,
    /// A jump that runs the `ensure` bodies it leaves; the second operand is
    /// the stack depth to land at.
    Goto(i32, u32),
    /// [`Insn::Goto`] carrying a value.
    GotoValue(i32, u32),
    /// Park the protected body's value and fall into the `ensure` body.
    EnterEnsure,
    /// Unpark the value, or resume the unwind.
    LeaveEnsure,
    /// Index into [`Iseq::symbols`].
    GetIvar(u32),
    /// Pops.
    SetIvar(u32),
    /// `defined?(@a)`.
    DefinedIvar(u32),
    /// Index into [`Iseq::symbols`].
    GetGlobal(u32),
    /// Pops.
    SetGlobal(u32),
    /// `defined?($a)`.
    DefinedGlobal(u32),
    /// Index into [`Iseq::symbols`].
    GetCvar(u32),
    /// A regexp special variable.
    LastMatch(MatchRef),
    /// `$!`.
    Errinfo,
    /// Pops into `$!`.
    SetErrinfo,
    /// Replace the `Array` on top by a copy of it.
    CaptureSplat,
    /// Pops a source and pushes the pattern, with these options.
    NewRegexp(i64),
    /// [`Insn::NewRegexp`] evaluated once per site.
    NewRegexpOnce(i64, u32),
    /// Pops a string and pushes the symbol it names.
    Intern,
    /// `alias new old`, as two indexes into [`Iseq::symbols`].
    Alias(u32, u32),
    /// `undef m`.
    Undef(u32),
}

/// Which part of the last regexp match a special variable reads.
#[derive(Debug, Clone, Copy, PartialEq, Eq, Structural)]
pub enum MatchRef {
    /// `$~`
    Data,
    /// `$&`
    Whole,
    /// `` $` ``
    Pre,
    /// `$'`
    Post,
    /// `$+`
    LastGroup,
    /// `$1` and up.
    Group(u16),
}

/// The binary operators with an instruction of their own.
#[derive(Debug, Clone, Copy, PartialEq, Eq, Structural)]
pub enum BinOp {
    Add,
    Sub,
    Mul,
    Div,
    Mod,
    Eq,
    Neq,
    Lt,
    Le,
    Gt,
    Ge,
}

impl BinOp {
    /// The operator as Ruby spells it.
    pub open spec fn text(self) -> Seq<char> {
        match self {
            BinOp::Add => "+"@,
            BinOp::Sub => "-"@,
            BinOp::Mul => "*"@,
            BinOp::Div => "/"@,
            BinOp::Mod => "%"@,
            BinOp::Eq => "=="@,
            BinOp::Neq => "!="@,
            BinOp::Lt => "<"@,
            BinOp::Le => "<="@,
            BinOp::Gt => ">"@,
            BinOp::Ge => ">="@,
        }
    }

    /// The operator as Ruby spells it.
    pub fn name(self) -> (r: &'static str)
        ensures
            r@ == self.text(),
    {
        match self {
            BinOp::Add => "+",
            BinOp::Sub => "-",
            BinOp::Mul => "*",
            BinOp::Div => "/",
            BinOp::Mod => "%",
            BinOp::Eq => "==",
            BinOp::Neq => "!=",
            BinOp::Lt => "<",
            BinOp::Le => "<=",
            BinOp::Gt => ">",
            BinOp::Ge => ">=",
        }
    }

    /// The operator a method name means, if it has an instruction.
    pub fn from_name(name: &str) -> (r: Option<BinOp>)
        ensures
            match r {
                Some(op) => op.text() == name@,
                None => forall|op: BinOp| #[trigger] op.text() != name@,
            },
    {
        let wanted: String = name.to_owned();
        if same_text(&wanted, "+") {
            return Some(BinOp::Add);
        }
        if same_text(&wanted, "-") {
            return Some(BinOp::Sub);
        }
        if same_text(&wanted, "*") {
            return Some(BinOp::Mul);
        }
        if same_text(&wanted, "/") {
            return Some(BinOp::Div);
        }
        if same_text(&wanted, "%") {
            return Some(BinOp::Mod);
        }
        if same_text(&wanted, "==") {
            return Some(BinOp::Eq);
        }
        if same_text(&wanted, "!=") {
            return Some(BinOp::Neq);
        }
        if same_text(&wanted, "<") {
            return Some(BinOp::Lt);
        }
        if same_text(&wanted, "<=") {
            return Some(BinOp::Le);
        }
        if same_text(&wanted, ">") {
            return Some(BinOp::Gt);
        }
        if same_text(&wanted, ">=") {
            return Some(BinOp::Ge);
        }
        None
    }
}

/// Whether a name is spelled like this.
pub fn same_text(name: &String, text: &str) -> (r: bool)
    ensures
        r == (name@ == text@),
{
    let other: String = text.to_owned();
    *name == other
}

/// An operator's name belongs to it alone, so it is found by it.
pub proof fn law_operator_names_are_distinct(one: BinOp, other: BinOp)
    requires
        one.text() == other.text(),
    ensures
        one == other,
{
    reveal_strlit("+");
    reveal_strlit("-");
    reveal_strlit("*");
    reveal_strlit("/");
    reveal_strlit("%");
    reveal_strlit("==");
    reveal_strlit("!=");
    reveal_strlit("<");
    reveal_strlit("<=");
    reveal_strlit(">");
    reveal_strlit(">=");
    let a = one.text();
    let b = other.text();
    assert(a.len() == b.len());
    assert(a[0] == b[0]);
    assert(a.len() == 2 ==> a[1] == b[1]);
}

/// Which of Ruby's three constant lookups a reference is.
#[derive(Debug, Clone, Copy, PartialEq, Eq, Structural)]
pub enum ConstScope {
    /// A bare `X`.
    Lexical,
    /// `A::X`. The module is on the stack.
    Qualified,
    /// `::X`.
    Top,
}

/// What kind of body [`Insn::OpenClass`] opens.
#[derive(Debug, Clone, Copy, PartialEq, Eq, Structural)]
pub enum DefKind {
    Class,
    Module,
    /// `class << obj`.
    Singleton,
}

/// What `class`, `module` and `class <<` need beyond an instruction.
#[derive(Debug, Clone, Copy, PartialEq, Eq, Structural)]
pub struct ClassDef {
    /// Index into [`Iseq::symbols`].
    pub name: u32,
    /// Index into [`Iseq::children`].
    pub body: u32,
    pub kind: DefKind,
    /// The module to define in is on the stack, under the superclass.
    pub scoped: bool,
    /// The superclass is on top of the stack.
    pub superclass: bool,
}

/// A literal, described rather than built.
#[derive(Debug, Clone, PartialEq, Eq)]
pub enum Literal {
    /// The digits of an integer outside fixnum range.
    BigInt(String),
    /// The bits of a double outside flonum range.
    BoxedFloat(u64),
    /// The bits of a double that fits an immediate.
    Float(u64),
    /// A fresh string for each evaluation.
    Str(Vec<u8>),
    /// A frozen string.
    FrozenStr(Vec<u8>),
    Regexp { source: String, options: i64 },
}

/// What a [`CatchEntry`] does when control leaves its range abnormally.
#[derive(Debug, Clone, Copy, PartialEq, Eq, Structural)]
pub enum CatchKind {
    /// Entered by an exception.
    Rescue,
    /// Entered by every abnormal exit.
    Ensure,
}

/// One protected range of instructions.
#[derive(Debug, Clone, Copy, PartialEq, Eq, Structural)]
pub struct CatchEntry {
    pub kind: CatchKind,
    /// First protected instruction.
    pub start: u32,
    /// One past the last protected instruction.
    pub end: u32,
    /// Where the handler starts.
    pub target: u32,
    /// What the operand stack is cut back to before the handler runs.
    pub stack_depth: u32,
}

impl CatchEntry {
    /// Whether `pc` is inside the protected range.
    #[verifier::allow_in_spec]
    pub fn covers(&self, pc: u32) -> bool
        returns
            self.start <= pc && pc < self.end,
    {
        self.start <= pc && pc < self.end
    }
}

/// What a call site passes as a block.
#[derive(Debug, Clone, Copy, PartialEq, Eq, Structural)]
pub enum BlockRef {
    /// No block.
    Absent,
    /// Index into [`Iseq::children`].
    Literal(u32),
    /// `&blk`. The value is on the stack above the arguments.
    Pass,
}

/// What a call needs beyond an instruction.
#[derive(Debug, Clone, PartialEq, Eq)]
pub struct CallSite {
    /// Index into [`Iseq::symbols`].
    pub name: u32,
    /// Positional arguments pushed. A splat counts as one.
    pub argc: u16,
    /// Which of them are splats.
    pub splats: Vec<u16>,
    /// Keyword names, in the order their values were pushed.
    pub keywords: Vec<u32>,
    pub block: BlockRef,
    /// A receiverless call.
    pub implicit_self: bool,
}

/// An optional parameter. Its default is code at the top of the body.
#[derive(Debug, Clone, Copy, PartialEq, Eq, Structural)]
pub struct Optional {
    pub slot: u16,
}

/// A keyword parameter.
#[derive(Debug, Clone, Copy, PartialEq, Eq, Structural)]
pub struct Keyword {
    /// Index into [`Iseq::symbols`].
    pub name: u32,
    pub slot: u16,
    pub required: bool,
}

/// How an [`Iseq`] takes its arguments.
#[derive(Debug, Clone, PartialEq, Eq)]
pub struct ParamSpec {
    /// Leading required parameters, in slots `0..required`.
    pub required: u16,
    pub optional: Vec<Optional>,
    /// `*rest`.
    pub rest: Option<u16>,
    /// Required parameters after the optional ones and the rest.
    pub post: u16,
    pub keywords: Vec<Keyword>,
    /// `&blk`.
    pub block: Option<u16>,
    /// `**kw`.
    pub kwrest: Option<u16>,
    /// `**nil`.
    pub no_keywords: bool,
}

impl ParamSpec {
    /// The fewest positional arguments a strict call accepts.
    pub open spec fn min(&self) -> int {
        self.required + self.post
    }

    /// The most, where there is a most.
    pub open spec fn max(&self) -> Option<int> {
        if self.rest is Some {
            None
        } else {
            Some(self.min() + self.optional@.len())
        }
    }

    /// Whether a strict call may pass `given` arguments.
    pub open spec fn accepts(&self, given: int) -> bool {
        &&& given >= self.min()
        &&& self.max() matches Some(max) ==> given <= max
    }

    /// How many slots the parameters occupy.
    pub open spec fn width(&self) -> int {
        self.required + self.optional@.len() + (if self.rest is Some {
            1int
        } else {
            0
        }) + self.post + self.keywords@.len() + (if self.kwrest is Some {
            1int
        } else {
            0
        }) + (if self.block is Some {
            1int
        } else {
            0
        })
    }

    /// Whether there are required parameters alone, and a block at most.
    pub open spec fn simple(&self) -> bool {
        self.optional@.len() == 0 && self.rest is None && self.post == 0 && self.keywords@.len()
            == 0 && self.kwrest is None
    }

    /// Ruby's `Proc#arity`.
    pub open spec fn arity_value(&self) -> int {
        if self.rest is Some || self.optional@.len() > 0 {
            -(self.min() + 1)
        } else {
            self.min()
        }
    }

    /// Simple parameters are those that take no slot beside the required ones
    /// and the block, and their arity is how many are required.
    pub proof fn law_simple_parameters(&self)
        ensures
            self.simple() <==> self.width() == self.required + (if self.block is Some {
                1int
            } else {
                0
            }),
            self.simple() ==> self.arity_value() == self.required,
    {
    }

    /// How many slots the parameters occupy.
    pub fn slots(&self) -> (r: usize)
        requires
            self.required + self.optional@.len() + self.post + self.keywords@.len() + 3
                <= usize::MAX,
        ensures
            r == self.width(),
    {
        let mut total: usize = self.required as usize + self.optional.len();
        if self.rest.is_some() {
            total += 1;
        }
        total += self.post as usize;
        total += self.keywords.len();
        if self.kwrest.is_some() {
            total += 1;
        }
        if self.block.is_some() {
            total += 1;
        }
        total
    }

    /// The fewest positional arguments a strict call accepts.
    pub fn min_positional(&self) -> (r: usize)
        ensures
            r == self.min(),
    {
        self.required as usize + self.post as usize
    }

    /// The most accepted, or `None` when a splat makes it unbounded.
    pub fn max_positional(&self) -> (r: Option<usize>)
        requires
            self.min() + self.optional@.len() <= usize::MAX,
        ensures
            match r {
                Some(n) => self.max() == Some(n as int),
                None => self.max() is None,
            },
    {
        if self.rest.is_some() {
            None
        } else {
            Some(self.min_positional() + self.optional.len())
        }
    }

    /// Whether there are only required parameters before any splat.
    pub fn is_simple(&self) -> (r: bool)
        ensures
            r == self.simple(),
    {
        self.optional.len() == 0 && self.rest.is_none() && self.post == 0 && self.keywords.len()
            == 0 && self.kwrest.is_none()
    }

    /// Ruby's `Proc#arity`.
    pub fn arity(&self) -> (r: i64)
        ensures
            r == self.arity_value(),
    {
        let required: i64 = self.required as i64 + self.post as i64;
        if self.rest.is_some() || self.optional.len() > 0 {
            -(required + 1)
        } else {
            required
        }
    }
}

impl Default for ParamSpec {
    fn default() -> (r: ParamSpec)
        ensures
            r.required == 0,
            r.optional@.len() == 0,
            r.rest is None,
            r.post == 0,
            r.keywords@.len() == 0,
            r.block is None,
            r.kwrest is None,
            !r.no_keywords,
    {
        ParamSpec {
            required: 0,
            optional: Vec::new(),
            rest: None,
            post: 0,
            keywords: Vec::new(),
            block: None,
            kwrest: None,
            no_keywords: false,
        }
    }
}

/// One compiled unit: a script, a method or a block body.
#[derive(Debug, Clone, PartialEq)]
pub struct Iseq {
    pub name: String,
    pub insns: Vec<Insn>,
    pub literals: Vec<Literal>,
    /// Symbols by name.
    pub symbols: Vec<String>,
    /// Slot index to name.
    pub locals: Vec<String>,
    /// The deepest the value stack gets.
    pub max_stack: usize,
    pub params: ParamSpec,
    /// Nested bodies.
    pub children: Vec<Arc<Iseq>>,
    pub call_sites: Vec<CallSite>,
    /// `(symbol index, child index)` for each definition.
    pub definitions: Vec<(u32, u32)>,
    pub class_defs: Vec<ClassDef>,
    /// How many patterns are evaluated once.
    pub once_regexps: u32,
    /// Protected ranges, innermost first.
    pub catch_table: Vec<CatchEntry>,
    /// A method body, which cannot see the locals around it.
    pub scope_barrier: bool,
}

/// Another handle to the same unit.
///
/// Calls `std::sync::Arc::clone`, of which it is claimed that the new handle
/// refers to the same value.
#[verifier::external_body]
pub(crate) fn share(iseq: &Arc<Iseq>) -> (r: Arc<Iseq>)
    ensures
        r == *iseq,
{
    Arc::clone(iseq)
}

/// The names in a pool.
pub open spec fn pool(symbols: Seq<String>) -> Seq<Seq<char>> {
    Seq::new(symbols.len(), |i: int| symbols[i]@)
}

/// The table after interning the first `n` names of a pool.
pub open spec fn linked_table(table: Seq<Seq<char>>, pool: Seq<Seq<char>>, n: int) -> Seq<
    Seq<char>,
>
    decreases n,
{
    if n <= 0 {
        table
    } else {
        symbols::interned(linked_table(table, pool, n - 1), pool[n - 1])
    }
}

/// Interning a pool only adds to a table.
pub proof fn lemma_linked_table(table: Seq<Seq<char>>, pool: Seq<Seq<char>>, n: int)
    requires
        0 <= n,
    ensures
        table.is_prefix_of(linked_table(table, pool, n)),
        linked_table(table, pool, n).len() <= table.len() + n,
    decreases n,
{
    if n > 0 {
        lemma_linked_table(table, pool, n - 1);
        symbols::law_the_table_only_grows(linked_table(table, pool, n - 1), pool[n - 1]);
        let before = linked_table(table, pool, n - 1);
        let after = linked_table(table, pool, n);
        assert forall|i: int| 0 <= i < table.len() implies table[i] == after[i] by {
            assert(table[i] == before[i]);
        }
    }
}

impl Iseq {
    /// The ids of this pool's names, interned into `table`.
    ///
    /// A name means the same symbol whatever place it has in a pool, so two
    /// units that share a name link it to one id.
    pub fn link(&self, table: &mut Symbols) -> (r: Vec<SymbolId>)
        requires
            old(table).wf(),
            old(table)@.len() + self.symbols@.len() <= u32::MAX,
        ensures
            final(table).wf(),
            final(table)@ == linked_table(
                old(table)@,
                pool(self.symbols@),
                self.symbols@.len() as int,
            ),
            r@.len() == self.symbols@.len(),
            forall|i: int|
                0 <= i < r@.len() ==> (#[trigger] r@[i]).0 < final(table)@.len()
                    && final(table)@[r@[i].0 as int] == self.symbols@[i]@,
    {
        let ghost names = pool(self.symbols@);
        let mut out: Vec<SymbolId> = Vec::new();
        let mut i: usize = 0;
        while i < self.symbols.len()
            invariant
                i <= self.symbols.len(),
                out@.len() == i,
                names == pool(self.symbols@),
                table.wf(),
                old(table)@.len() + self.symbols@.len() <= u32::MAX,
                table@ == linked_table(old(table)@, names, i as int),
                table@.len() <= old(table)@.len() + i,
                forall|k: int|
                    0 <= k < i ==> (#[trigger] out@[k]).0 < table@.len() && table@[out@[k].0 as int]
                        == self.symbols@[k]@,
            decreases self.symbols.len() - i,
        {
            let ghost before = table@;
            let id = table.intern(self.symbols[i].as_str());
            proof {
                symbols::law_the_table_only_grows(before, names[i as int]);
                assert(names[i as int] == self.symbols@[i as int]@);
            }
            out.push(id);
            i += 1;
        }
        out
    }

    /// How many instructions there are.
    pub fn len(&self) -> (r: usize)
        ensures
            r == self.insns@.len(),
    {
        self.insns.len()
    }

    /// Whether there are none.
    pub fn is_empty(&self) -> (r: bool)
        ensures
            r == (self.insns@.len() == 0),
    {
        self.insns.len() == 0
    }
}

impl Default for Iseq {
    fn default() -> (r: Iseq)
        ensures
            r.name@ == Seq::<char>::empty(),
            r.insns@.len() == 0,
            r.literals@.len() == 0,
            r.symbols@.len() == 0,
            r.locals@.len() == 0,
            r.max_stack == 0,
            r.params.required == 0,
            r.params.optional@.len() == 0,
            r.params.rest is None,
            r.params.post == 0,
            r.params.keywords@.len() == 0,
            r.params.block is None,
            r.params.kwrest is None,
            !r.params.no_keywords,
            r.children@.len() == 0,
            r.call_sites@.len() == 0,
            r.definitions@.len() == 0,
            r.class_defs@.len() == 0,
            r.once_regexps == 0,
            r.catch_table@.len() == 0,
            !r.scope_barrier,
    {
        Iseq {
            name: String::new(),
            insns: Vec::new(),
            literals: Vec::new(),
            symbols: Vec::new(),
            locals: Vec::new(),
            max_stack: 0,
            params: ParamSpec::default(),
            children: Vec::new(),
            call_sites: Vec::new(),
            definitions: Vec::new(),
            class_defs: Vec::new(),
            once_regexps: 0,
            catch_table: Vec::new(),
            scope_barrier: false,
        }
    }
}

} // verus!
