//! The syntax tree the compiler reads.
//!
//! Which bare word is a local and how many scopes up it lives is already
//! decided here: a local read is a [`VarRef::Local`], anything else is a
//! [`Call`].

use vstd::prelude::*;

verus! {

/// A stretch of the source, in bytes.
#[derive(Debug, Clone, Copy, PartialEq, Eq, Structural)]
pub struct Span {
    pub start: u32,
    pub end: u32,
}

/// A name, as it is written.
pub type Name = String;

#[derive(Debug)]
pub struct Expr {
    pub span: Span,
    pub kind: ExprKind,
}

/// A file.
#[derive(Debug)]
pub struct Program {
    pub locals: Vec<Name>,
    pub body: Vec<Expr>,
}

#[derive(Debug)]
pub enum IntValue {
    Small(i64),
    /// The decimal digits.
    Big(String),
}

/// A piece of a string, a symbol or a pattern.
#[derive(Debug)]
pub enum StrPart {
    Bytes(Vec<u8>),
    Interp(Vec<Expr>),
}

#[derive(Debug, Clone, Copy, PartialEq, Eq, Structural)]
pub struct RegexpFlags {
    pub ignore_case: bool,
    pub extended: bool,
    pub multi_line: bool,
    /// Evaluated once.
    pub once: bool,
    /// An encoding was asked for.
    pub encoding: bool,
}

#[derive(Debug)]
pub struct RegexpLit {
    pub parts: Vec<StrPart>,
    pub flags: RegexpFlags,
}

#[derive(Debug)]
pub enum VarRef {
    /// A local, this many scopes up.
    Local { name: Name, depth: u32 },
    /// `@a`
    Instance(Name),
    /// `@@a`
    Class(Name),
    /// `$a`, with the sigil.
    Global(Name),
    Const(Name),
    /// The implicit block parameter.
    It,
    /// `$&` and the like, with the sigil.
    BackRef(Name),
    /// `$1` and up.
    NumberedRef(u32),
}

#[derive(Debug)]
pub enum HashEntryKind {
    Pair { key: Expr, value: Expr },
    Splat(Option<Expr>),
}

#[derive(Debug)]
pub struct HashEntry {
    pub span: Span,
    pub kind: HashEntryKind,
}

#[derive(Debug)]
pub struct HashLit {
    /// Written with braces; keyword arguments are not.
    pub braces: bool,
    pub entries: Vec<HashEntry>,
}

#[derive(Debug)]
pub struct RangeLit {
    pub left: Option<Expr>,
    pub right: Option<Expr>,
    pub exclude_end: bool,
}

#[derive(Debug)]
pub struct Alias {
    pub global: bool,
    pub new_name: Expr,
    pub old_name: Expr,
}

#[derive(Debug)]
pub enum AssignOp {
    Assign,
    /// `+=` and the like, by the operator's name.
    Binary(Name),
    Or,
    And,
}

#[derive(Debug)]
pub struct Assign {
    pub target: Target,
    pub op: AssignOp,
    pub value: Expr,
}

#[derive(Debug)]
pub struct Target {
    pub span: Span,
    pub kind: TargetKind,
}

#[derive(Debug)]
pub enum TargetKind {
    Var(VarRef),
    ConstPath(Box<ConstPath>),
    /// `a.b = `
    Call(Box<CallTarget>),
    /// `a[i] = `
    Index(Box<IndexTarget>),
    Multi(Box<MultiTarget>),
    Splat(Option<Box<Target>>),
}

#[derive(Debug)]
pub struct CallTarget {
    pub receiver: Expr,
    pub name: Name,
    pub safe_nav: bool,
}

#[derive(Debug)]
pub struct IndexTarget {
    pub receiver: Expr,
    pub args: Vec<Expr>,
    /// Whether a block was passed.
    pub block: bool,
}

#[derive(Debug)]
pub struct MultiTarget {
    pub lefts: Vec<Target>,
    pub rest: Option<Target>,
    pub rights: Vec<Target>,
}

#[derive(Debug)]
pub struct If {
    pub predicate: Expr,
    pub then_body: Vec<Expr>,
    pub else_body: Option<Vec<Expr>>,
    pub unless: bool,
}

#[derive(Debug)]
pub struct While {
    pub predicate: Expr,
    pub body: Vec<Expr>,
    pub until: bool,
    /// `begin ... end while`, which runs its body first.
    pub post: bool,
}

#[derive(Debug)]
pub struct For {
    pub index: Target,
    pub iterable: Expr,
    pub body: Vec<Expr>,
}

#[derive(Debug)]
pub struct WhenClause {
    pub conditions: Vec<Expr>,
    pub body: Vec<Expr>,
}

#[derive(Debug)]
pub enum Guard {
    If(Expr),
    Unless(Expr),
}

#[derive(Debug)]
pub struct InClause {
    pub pattern: Expr,
    pub guard: Option<Guard>,
    pub body: Vec<Expr>,
}

#[derive(Debug)]
pub enum CaseBranches {
    When(Vec<WhenClause>),
    In(Vec<InClause>),
}

#[derive(Debug)]
pub struct Case {
    pub predicate: Option<Expr>,
    pub branches: CaseBranches,
    pub else_body: Option<Vec<Expr>>,
}

#[derive(Debug, Clone, Copy, PartialEq, Eq, Structural)]
pub enum LogicalOp {
    And,
    Or,
}

#[derive(Debug)]
pub struct Logical {
    pub op: LogicalOp,
    pub left: Expr,
    pub right: Expr,
}

#[derive(Debug)]
pub struct Block {
    pub params: Params,
    pub locals: Vec<Name>,
    pub body: Vec<Expr>,
}

#[derive(Debug)]
pub enum BlockArg {
    Block(Block),
    /// `&blk`, or a bare `&`.
    Pass(Option<Expr>),
}

#[derive(Debug)]
pub struct Call {
    pub receiver: Option<Expr>,
    pub name: Name,
    pub args: Vec<Expr>,
    pub block: Option<BlockArg>,
    pub safe_nav: bool,
    /// `a.b = v` or `a[k] = v`.
    pub attribute_write: bool,
}

#[derive(Debug)]
pub struct Super {
    /// `None` forwards the method's own arguments.
    pub args: Option<Vec<Expr>>,
    pub block: Option<BlockArg>,
}

#[derive(Debug)]
pub struct Rescue {
    pub span: Span,
    pub exceptions: Vec<Expr>,
    pub reference: Option<Target>,
    pub body: Vec<Expr>,
}

#[derive(Debug)]
pub struct Begin {
    pub body: Vec<Expr>,
    pub rescues: Vec<Rescue>,
    pub else_body: Option<Vec<Expr>>,
    pub ensure_body: Option<Vec<Expr>>,
}

#[derive(Debug)]
pub struct RescueMod {
    pub value: Expr,
    pub rescue_value: Expr,
}

#[derive(Debug)]
pub struct ConstPath {
    /// `None` for `::A`.
    pub parent: Option<Expr>,
    /// `None` where the name is missing.
    pub name: Option<Name>,
}

#[derive(Debug)]
pub struct Class {
    pub path: Target,
    pub superclass: Option<Expr>,
    pub locals: Vec<Name>,
    pub body: Vec<Expr>,
}

#[derive(Debug)]
pub struct Module {
    pub path: Target,
    pub locals: Vec<Name>,
    pub body: Vec<Expr>,
}

#[derive(Debug)]
pub struct SingletonClass {
    pub expression: Expr,
    pub locals: Vec<Name>,
    pub body: Vec<Expr>,
}

#[derive(Debug)]
pub struct Def {
    pub receiver: Option<Expr>,
    pub name: Name,
    pub params: Params,
    pub locals: Vec<Name>,
    pub body: Vec<Expr>,
}

#[derive(Debug)]
pub enum RequiredParam {
    Named(Name),
    Destructure(Box<MultiTarget>),
}

#[derive(Debug)]
pub struct OptionalParam {
    pub name: Name,
    pub default: Expr,
}

#[derive(Debug)]
pub struct RestParam {
    /// `None` for a bare `*`.
    pub name: Option<Name>,
    /// `|a,|`. Kept for readers of the tree: the compiler does not ask, and
    /// gives the trailing comma the slot of a bare `*`.
    pub implicit: bool,
}

#[derive(Debug)]
pub struct KeywordParam {
    pub name: Name,
    pub default: Option<Expr>,
}

#[derive(Debug)]
pub enum KeywordRest {
    /// `**kw`, or a bare `**`.
    Named(Option<Name>),
    /// `**nil`
    Forbidden,
    /// `...`
    Forwarding,
}

#[derive(Debug)]
pub struct BlockParam {
    /// `None` for a bare `&`.
    pub name: Option<Name>,
}

#[derive(Debug)]
pub struct ParamList {
    pub required: Vec<RequiredParam>,
    pub optional: Vec<OptionalParam>,
    pub rest: Option<RestParam>,
    pub posts: Vec<RequiredParam>,
    pub keywords: Vec<KeywordParam>,
    pub keyword_rest: Option<KeywordRest>,
    pub block: Option<BlockParam>,
    /// Block-local names.
    pub locals: Vec<Name>,
}

#[derive(Debug)]
pub enum Params {
    Absent,
    Explicit(ParamList),
    /// `_1` and up, by the highest.
    Numbered(u8),
    It,
}

#[derive(Debug)]
pub struct MatchPattern {
    pub value: Expr,
    pub pattern: Expr,
    /// `=>`, which raises where nothing matches; `in` answers.
    pub raises: bool,
}

#[derive(Debug)]
pub struct AltPattern {
    pub left: Expr,
    pub right: Expr,
}

#[derive(Debug)]
pub struct CapturePattern {
    pub value: Expr,
    pub target: Target,
}

#[derive(Debug)]
pub struct ArrayPattern {
    pub constant: Option<Expr>,
    pub requireds: Vec<Expr>,
    pub rest: Option<Expr>,
    pub posts: Vec<Expr>,
}

#[derive(Debug)]
pub struct FindPattern {
    pub constant: Option<Expr>,
    pub left: Expr,
    pub requireds: Vec<Expr>,
    pub right: Expr,
}

#[derive(Debug)]
pub enum PatternRest {
    /// `**nil`
    Forbidden,
    /// `**rest`, or a bare `**`.
    Splat(Option<Expr>),
}

#[derive(Debug)]
pub struct HashPattern {
    pub constant: Option<Expr>,
    pub elements: Vec<HashEntry>,
    pub rest: Option<PatternRest>,
}

#[derive(Debug)]
pub enum ExprKind {
    Nil,
    True,
    False,
    SelfExpr,
    /// `__FILE__`
    SourceFile(Vec<u8>),
    /// `__LINE__`
    SourceLine(u32),
    /// `__ENCODING__`
    SourceEncoding,
    Int(IntValue),
    /// The bits of a double.
    Float(u64),
    Rational,
    Imaginary,
    Str(Vec<StrPart>),
    /// A backtick command.
    XStr,
    Regexp(RegexpLit),
    Sym(Vec<StrPart>),
    Array(Vec<Expr>),
    Hash(HashLit),
    Range(Box<RangeLit>),
    Var(VarRef),
    Alias(Box<Alias>),
    Undef(Vec<Expr>),
    Assign(Box<Assign>),
    If(Box<If>),
    While(Box<While>),
    For(Box<For>),
    Case(Box<Case>),
    Logical(Box<Logical>),
    Parens(Vec<Expr>),
    Call(Box<Call>),
    Begin(Box<Begin>),
    RescueMod(Box<RescueMod>),
    Retry,
    Redo,
    Break(Option<Box<Expr>>),
    Next(Option<Box<Expr>>),
    Return(Option<Box<Expr>>),
    ConstPath(Box<ConstPath>),
    Class(Box<Class>),
    Module(Box<Module>),
    SingletonClass(Box<SingletonClass>),
    Defined(Box<Expr>),
    Def(Box<Def>),
    Yield(Vec<Expr>),
    Super(Box<Super>),
    Lambda(Box<Block>),
    Splat(Option<Box<Expr>>),
    /// `...` as an argument.
    ForwardingArgs,
    /// The value of `{a:}`.
    Implicit(Box<Expr>),
    /// A regexp in condition position.
    MatchLastLine,
    /// A regexp that writes its named captures to locals.
    MatchWrite,
    MatchPattern(Box<MatchPattern>),
    ArrayPattern(Box<ArrayPattern>),
    FindPattern(Box<FindPattern>),
    HashPattern(Box<HashPattern>),
    AltPattern(Box<AltPattern>),
    CapturePattern(Box<CapturePattern>),
    /// `^expr`
    Pin(Box<Expr>),
    FlipFlop,
    /// `BEGIN` and `END`.
    Exec,
    /// A shareable-constant comment.
    ShareableConstant,
    /// What a syntax error left.
    Missing,
}

} // verus!
