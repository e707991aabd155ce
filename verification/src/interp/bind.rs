//! How a callee's parameters take a call's arguments.
//!
//! A method or lambda insists on the count and takes an array whole. A block
//! pads or drops, and spreads a lone array where it has room for more than
//! one value.

use vstd::prelude::*;
use vstd::string::*;

use crate::bytecode::{Keyword, ParamSpec};
use crate::class;
use crate::class::{ClassId, CrefId, Method};
use crate::heap;
use crate::heap::{HandleScope, HeapModel, Object};
use crate::interp::error;
use crate::interp::error::Error;
use crate::interp::machine;
use crate::interp::make;
use crate::interp::object;
use crate::text;
use crate::value::{SymbolId, Unpacked, Value};

verus! {

broadcast use Value::law_pack;

/// The most optional parameters code can have.
pub const MAX_OPTIONALS: usize = 65536;

/// How a callee takes its arguments.
#[derive(Debug, Clone, Copy, PartialEq, Eq, Structural)]
pub enum Binding {
    /// A method or a lambda.
    Strict,
    /// A block or a proc.
    Loose,
}

/// What a call runs.
#[derive(Debug, Clone, Copy, PartialEq, Eq, Structural)]
pub enum Target {
    /// What the name means on the receiver's class.
    Method,
    /// A block.
    Block(Value),
}

/// A call, taken off the stack and not yet dispatched.
pub struct Pending {
    pub name: SymbolId,
    pub receiver: Value,
    pub args: Vec<Value>,
    pub keywords: Vec<(SymbolId, Value)>,
    /// The block it passes, or `nil`.
    pub block: Value,
    /// Whether the block was written at the call.
    pub block_is_literal: bool,
    /// The lexical scope of the callee.
    pub cref: CrefId,
    pub target: Target,
}

/// A call, taken off the stack and not yet dispatched.
#[verifier::ext_equal]
pub struct PendingModel {
    pub name: SymbolId,
    pub receiver: Value,
    pub args: Seq<Value>,
    pub keywords: Seq<(SymbolId, Value)>,
    pub block: Value,
    pub block_is_literal: bool,
    pub cref: CrefId,
    pub target: Target,
}

impl View for Pending {
    type V = PendingModel;

    open spec fn view(&self) -> PendingModel {
        PendingModel {
            name: self.name,
            receiver: self.receiver,
            args: self.args@,
            keywords: self.keywords@,
            block: self.block,
            block_is_literal: self.block_is_literal,
            cref: self.cref,
            target: self.target,
        }
    }
}

/// Whether what a call carries is rooted.
pub open spec fn pending_held(m: HeapModel, call: PendingModel) -> bool {
    &&& machine::held(m, call.receiver)
    &&& machine::all_held(m, call.args)
    &&& forall|i: int| 0 <= i < call.keywords.len() ==> machine::held(m, (#[trigger] call.keywords[i]).1)
    &&& machine::held(m, call.block)
    &&& call.target matches Target::Block(v) ==> machine::held(m, v)
}

// ---------------------------------------------------------------------------
// The rules
// ---------------------------------------------------------------------------

/// Whether a block spreads a lone array: it has room for more than one value,
/// or for one and a splat.
pub open spec fn spreading(spec: ParamSpec) -> bool {
    let places = spec.required + spec.optional@.len() + spec.post;
    places > 1 || spec.rest is Some && places > 0
}

/// Whether a block spreads a lone array.
pub fn spreads(spec: &ParamSpec) -> (r: bool)
    ensures
        r == spreading(*spec),
{
    let fixed: u32 = spec.required as u32 + spec.post as u32;
    let some: bool = fixed > 0 || spec.optional.len() > 0;
    let several: bool = fixed > 1 || spec.optional.len() > 1 || (fixed == 1
        && spec.optional.len() == 1);
    several || (spec.rest.is_some() && some)
}

/// What a method with this name a class has or inherits.
pub open spec fn method_named(m: HeapModel, id: ClassId, name: Seq<char>) -> Option<Method> {
    if m.symbols@.contains(name) {
        class::lookup_of(
            m.classes.table(),
            id.0 as int,
            SymbolId(m.symbols@.index_of(name) as u32),
        )
    } else {
        None
    }
}

/// What a method with this name a class has or inherits.
pub fn find_method(scope: &HandleScope, id: ClassId, name: &str) -> (r: Option<Method>)
    requires
        scope.wf(),
        scope@.classes.has(id),
    ensures
        r == method_named(scope@, id, name@),
{
    match scope.symbols().find(name) {
        Some(symbol) => {
            proof {
                let names = scope@.symbols@;
                scope@.symbols.law_table();
                assert(names[names.index_of(name@)] == name@);
                assert(names.index_of(name@) == symbol.0);
            }
            scope.classes().lookup_uncached(id, symbol)
        },
        None => None,
    }
}

/// Whether a value's class defines `to_ary`.
pub open spec fn has_to_ary(m: HeapModel, v: Value) -> bool {
    object::class_of_value(m, v) matches Some(id) && method_named(m, id, "to_ary"@) is Some
}

/// Whether a value's class defines `to_ary`.
pub fn defines_to_ary(scope: &HandleScope, value: Value) -> (r: bool)
    requires
        scope.wf(),
        scope@.live(value),
        object::kernel_in(scope@),
    ensures
        r == has_to_ary(scope@, value),
{
    match object::class_of(scope, value) {
        Some(id) => find_method(scope, id, "to_ary").is_some(),
        None => false,
    }
}

/// Whether a block has a lone argument that it would spread.
pub open spec fn may_spread(spec: ParamSpec, args: Seq<Value>, strict: bool) -> bool {
    !strict && args.len() == 1 && spreading(spec)
}

/// The arguments once a block has spread a lone array.
pub open spec fn spread_args(
    m: HeapModel,
    spec: ParamSpec,
    args: Seq<Value>,
    strict: bool,
) -> Seq<Value> {
    if may_spread(spec, args, strict) {
        match object::elements_in(m, args[0]) {
            Some(elements) => elements,
            None => args,
        }
    } else {
        args
    }
}

/// Whether spreading would have to call `to_ary`.
pub open spec fn spread_calls(
    m: HeapModel,
    spec: ParamSpec,
    args: Seq<Value>,
    strict: bool,
) -> bool {
    &&& may_spread(spec, args, strict)
    &&& object::elements_in(m, args[0]) is None
    &&& has_to_ary(m, args[0])
}

/// How many counts a strict call may pass, as Ruby says it.
pub open spec fn expected_text(spec: ParamSpec) -> Seq<char> {
    match spec.max() {
        None => text::digits(spec.min() as nat, 10) + "+"@,
        Some(max) => if max == spec.min() {
            text::digits(spec.min() as nat, 10)
        } else {
            text::digits(spec.min() as nat, 10) + ".."@ + text::digits(max as nat, 10)
        },
    }
}

/// What Ruby says of a wrong count.
pub open spec fn arity_text(spec: ParamSpec, given: nat) -> Seq<char> {
    "wrong number of arguments (given "@ + text::digits(given, 10) + ", expected "@
        + expected_text(spec) + ")"@
}

/// Refuse a count that the parameters do not accept.
pub fn check_arity(spec: &ParamSpec, given: usize) -> (r: Result<(), Error>)
    requires
        spec.min() + spec.optional@.len() <= usize::MAX,
    ensures
        spec.accepts(given as int) ==> r is Ok,
        !spec.accepts(given as int) ==> (r matches Err(e) && error::raises(
            e,
            "ArgumentError"@,
            arity_text(*spec, given as nat),
        )),
{
    let min: usize = spec.min_positional();
    let max = spec.max_positional();
    let within = match max {
        Some(max) => given <= max,
        None => true,
    };
    if given >= min && within {
        return Ok(());
    }
    let low = text::number(min as u64, 10);
    let expected: String = match max {
        None => text::join(low.as_str(), "+"),
        Some(max) => if max == min {
            low
        } else {
            let high = text::number(max as u64, 10);
            text::join3(low.as_str(), "..", high.as_str())
        },
    };
    let count = text::number(given as u64, 10);
    let mut out: String = "wrong number of arguments (given ".to_owned();
    out.append(count.as_str());
    out.append(", expected ");
    out.append(expected.as_str());
    out.append(")");
    Err(Error::raise_text("ArgumentError", out))
}

/// A local and what it is set to.
pub type Write = (int, Value);

/// How many arguments the leading parameters take.
pub open spec fn leading(spec: ParamSpec, given: int) -> int {
    if spec.required <= given {
        spec.required as int
    } else {
        given
    }
}

/// How many arguments the trailing parameters take.
pub open spec fn trailing(spec: ParamSpec, given: int) -> int {
    let after = given - leading(spec, given);
    if spec.post <= after {
        spec.post as int
    } else {
        after
    }
}

/// How many arguments the optional parameters take.
pub open spec fn taken(spec: ParamSpec, given: int) -> int {
    let between = given - leading(spec, given) - trailing(spec, given);
    if spec.optional@.len() <= between {
        spec.optional@.len() as int
    } else {
        between
    }
}

/// What the splat gathers: what the others leave in between.
pub open spec fn rest_args(spec: ParamSpec, args: Seq<Value>) -> Seq<Value> {
    let given = args.len() as int;
    args.subrange(
        leading(spec, given) + taken(spec, given),
        given - trailing(spec, given),
    )
}

/// Where the trailing parameters' arguments start.
pub open spec fn post_from(spec: ParamSpec, given: int) -> int {
    if spec.rest is Some {
        given - trailing(spec, given)
    } else {
        leading(spec, given) + taken(spec, given)
    }
}

/// The leading parameters: from the left, `nil` where nothing is left.
pub open spec fn required_writes(spec: ParamSpec, args: Seq<Value>) -> Seq<Write> {
    Seq::new(
        spec.required as nat,
        |i: int|
            (
                i,
                if i < leading(spec, args.len() as int) {
                    args[i]
                } else {
                    Value::pack(Unpacked::Nil)
                },
            ),
    )
}

/// The optional parameters: from what is left in between, and unset where
/// nothing is, for the body to fill in.
pub open spec fn optional_writes(spec: ParamSpec, args: Seq<Value>) -> Seq<Write> {
    let given = args.len() as int;
    Seq::new(
        spec.optional@.len(),
        |i: int|
            (
                spec.optional@[i].slot as int,
                if i < taken(spec, given) {
                    args[leading(spec, given) + i]
                } else {
                    Value::pack(Unpacked::Undef)
                },
            ),
    )
}

/// The splat.
pub open spec fn rest_writes(spec: ParamSpec, rest: Value) -> Seq<Write> {
    match spec.rest {
        Some(slot) => seq![(slot as int, rest)],
        None => Seq::empty(),
    }
}

/// The slot of the first trailing parameter.
pub open spec fn post_base(spec: ParamSpec) -> int {
    spec.required + spec.optional@.len() + if spec.rest is Some {
        1int
    } else {
        0
    }
}

/// The trailing parameters: from the right where there is a splat.
pub open spec fn post_writes(spec: ParamSpec, args: Seq<Value>) -> Seq<Write> {
    let given = args.len() as int;
    Seq::new(
        spec.post as nat,
        |i: int|
            (
                post_base(spec) + i,
                if i < trailing(spec, given) {
                    args[post_from(spec, given) + i]
                } else {
                    Value::pack(Unpacked::Nil)
                },
            ),
    )
}

/// What the positional parameters are set to.
pub open spec fn positional_writes(spec: ParamSpec, args: Seq<Value>, rest: Value) -> Seq<Write> {
    required_writes(spec, args) + optional_writes(spec, args) + rest_writes(spec, rest)
        + post_writes(spec, args)
}

/// The value a call passes for a keyword.
pub open spec fn keyword_value(given: Seq<(SymbolId, Value)>, name: SymbolId) -> Option<Value>
    decreases given.len(),
{
    if given.len() == 0 {
        None
    } else if given[0].0 == name {
        Some(given[0].1)
    } else {
        keyword_value(given.skip(1), name)
    }
}

/// What setting the keyword parameters comes to.
pub enum Keywords {
    Given(Seq<Write>),
    /// A required one that was not passed.
    Missing(SymbolId),
    /// One whose name the code does not have.
    Malformed,
}

/// What setting the first `n` keyword parameters comes to. One that was not
/// passed is left unset, for the body to fill in.
pub open spec fn keyword_writes(
    keywords: Seq<Keyword>,
    symbols: Seq<SymbolId>,
    given: Seq<(SymbolId, Value)>,
    n: int,
) -> Keywords
    decreases n,
{
    if n <= 0 {
        Keywords::Given(Seq::empty())
    } else {
        match keyword_writes(keywords, symbols, given, n - 1) {
            Keywords::Given(writes) => {
                let k = keywords[n - 1];
                if k.name >= symbols.len() {
                    Keywords::Malformed
                } else {
                    match keyword_value(given, symbols[k.name as int]) {
                        Some(v) => Keywords::Given(writes.push((k.slot as int, v))),
                        None => if k.required {
                            Keywords::Missing(symbols[k.name as int])
                        } else {
                            Keywords::Given(
                                writes.push((k.slot as int, Value::pack(Unpacked::Undef))),
                            )
                        },
                    }
                }
            },
            other => other,
        }
    }
}

/// Whether one of the keyword parameters has this name.
pub open spec fn declares(keywords: Seq<Keyword>, symbols: Seq<SymbolId>, name: SymbolId) -> bool {
    exists|i: int|
        0 <= i < keywords.len() && (#[trigger] keywords[i]).name < symbols.len()
            && symbols[keywords[i].name as int] == name
}

/// The first keyword a call passes that no parameter has.
pub open spec fn first_unknown(
    keywords: Seq<Keyword>,
    symbols: Seq<SymbolId>,
    given: Seq<(SymbolId, Value)>,
) -> Option<SymbolId>
    decreases given.len(),
{
    if given.len() == 0 {
        None
    } else if !declares(keywords, symbols, given[0].0) {
        Some(given[0].0)
    } else {
        first_unknown(keywords, symbols, given.skip(1))
    }
}

/// What the block parameter is set to.
pub open spec fn block_writes(spec: ParamSpec, block: Value) -> Seq<Write> {
    match spec.block {
        Some(slot) => seq![(slot as int, block)],
        None => Seq::empty(),
    }
}

/// Locals once writes are made, in order.
pub open spec fn written(locals: Seq<Value>, writes: Seq<Write>) -> Seq<Value>
    decreases writes.len(),
{
    if writes.len() == 0 {
        locals
    } else {
        let (slot, v) = writes.last();
        written(locals, writes.drop_last()).update(slot, v)
    }
}

/// Whether every write has a local to write.
pub open spec fn in_range(locals: nat, writes: Seq<Write>) -> bool {
    forall|i: int| 0 <= i < writes.len() ==> 0 <= (#[trigger] writes[i]).0 < locals
}

/// Why arguments cannot be bound, in the order in which it is looked for.
pub enum Refusal {
    /// A block would have to call `to_ary`.
    Spread,
    /// A wrong count.
    Arity,
    /// A `**kw`, which would need a hash.
    Collects,
    /// Keywords, for parameters that have none.
    NoKeywords,
    Missing(SymbolId),
    Unknown(SymbolId),
    /// Code that names what it does not have.
    Malformed,
}

/// Why a call's arguments cannot be bound to an environment of `locals`
/// locals; `None` where they can.
pub open spec fn refusal(
    m: HeapModel,
    locals: nat,
    spec: ParamSpec,
    symbols: Seq<SymbolId>,
    call: PendingModel,
    strict: bool,
) -> Option<Refusal> {
    let args = spread_args(m, spec, call.args, strict);
    if spec.optional@.len() > MAX_OPTIONALS {
        Some(Refusal::Malformed)
    } else if spread_calls(m, spec, call.args, strict) {
        Some(Refusal::Spread)
    } else if strict && !spec.accepts(args.len() as int) {
        Some(Refusal::Arity)
    } else if spec.kwrest is Some {
        Some(Refusal::Collects)
    } else if spec.keywords@.len() == 0 && call.keywords.len() > 0 {
        Some(Refusal::NoKeywords)
    } else {
        match keyword_writes(spec.keywords@, symbols, call.keywords, spec.keywords@.len() as int) {
            Keywords::Missing(name) => Some(Refusal::Missing(name)),
            Keywords::Malformed => Some(Refusal::Malformed),
            Keywords::Given(set) => match first_unknown(spec.keywords@, symbols, call.keywords) {
                Some(name) => Some(Refusal::Unknown(name)),
                None => if in_range(
                    locals,
                    all_writes(spec, symbols, args, Value::pack(Unpacked::Nil), call),
                ) {
                    None
                } else {
                    Some(Refusal::Malformed)
                },
            },
        }
    }
}

/// Everything that binding sets, in order.
pub open spec fn all_writes(
    spec: ParamSpec,
    symbols: Seq<SymbolId>,
    args: Seq<Value>,
    rest: Value,
    call: PendingModel,
) -> Seq<Write> {
    positional_writes(spec, args, rest) + keyword_writes(
        spec.keywords@,
        symbols,
        call.keywords,
        spec.keywords@.len() as int,
    )->Given_0 + block_writes(spec, call.block)
}

/// What is reported of arguments that cannot be bound.
pub open spec fn refused(m: HeapModel, spec: ParamSpec, given: nat, why: Refusal, e: Error) -> bool {
    match why {
        Refusal::Spread => error::leaves_open(
            e,
            "a block parameter list spreading an object with `#to_ary`"@,
            "the binder can call Ruby, which re-entrant primitives bring with fibers (#40)"@,
        ),
        Refusal::Arity => error::raises(e, "ArgumentError"@, arity_text(spec, given)),
        Refusal::Collects => error::refuses(
            e,
            "a keyword argument"@,
            "a method that collects keywords, which needs a Hash"@,
        ),
        Refusal::NoKeywords => error::refuses(
            e,
            "a keyword argument"@,
            "a method with no keyword parameters, which needs a Hash"@,
        ),
        Refusal::Missing(name) => error::raises(
            e,
            "ArgumentError"@,
            "missing keyword: :"@ + object::symbol_text(m, name),
        ),
        Refusal::Unknown(name) => error::raises(
            e,
            "ArgumentError"@,
            "unknown keyword: :"@ + object::symbol_text(m, name),
        ),
        Refusal::Malformed => e is Malformed,
    }
}

// ---------------------------------------------------------------------------
// The binder
// ---------------------------------------------------------------------------

/// A copy of a list of values.
pub fn copy_values(values: &Vec<Value>) -> (r: Vec<Value>)
    ensures
        r@ == values@,
{
    let r = vstd::slice::slice_to_vec(values.as_slice());
    assert(r@ =~= values@);
    r
}

/// The writes an executable list stands for.
pub open spec fn writes_of(list: Seq<(usize, Value)>) -> Seq<Write> {
    Seq::new(list.len(), |i: int| (list[i].0 as int, list[i].1))
}

proof fn lemma_writes_push(list: Seq<(usize, Value)>, slot: usize, v: Value)
    ensures
        writes_of(list.push((slot, v))) == writes_of(list).push((slot as int, v)),
{
    assert(writes_of(list.push((slot, v))) =~= writes_of(list).push((slot as int, v)));
}

/// What the positional parameters are set to.
fn positional(spec: &ParamSpec, args: &Vec<Value>, rest: Value) -> (r: Vec<(usize, Value)>)
    requires
        spec.optional@.len() <= MAX_OPTIONALS,
    ensures
        writes_of(r@) == positional_writes(*spec, args@, rest),
{
    let given: usize = args.len();
    let required: usize = spec.required as usize;
    let post: usize = spec.post as usize;
    let optional: usize = spec.optional.len();
    let lead: usize = if required <= given {
        required
    } else {
        given
    };
    let after: usize = given - lead;
    let trail: usize = if post <= after {
        post
    } else {
        after
    };
    let between: usize = after - trail;
    let take: usize = if optional <= between {
        optional
    } else {
        between
    };
    let mut out: Vec<(usize, Value)> = Vec::new();
    let mut i: usize = 0;
    assert(writes_of(out@) =~= required_writes(*spec, args@).take(0));
    while i < required
        invariant
            i <= required,
            required == spec.required,
            lead == leading(*spec, args@.len() as int),
            lead <= args@.len(),
            writes_of(out@) == required_writes(*spec, args@).take(i as int),
        decreases required - i,
    {
        let v = if i < lead {
            args[i]
        } else {
            Value::nil()
        };
        proof {
            lemma_writes_push(out@, i, v);
            let all = required_writes(*spec, args@);
            assert(all[i as int] == (i as int, v));
            assert(all.take(i + 1) =~= all.take(i as int).push(all[i as int]));
        }
        out.push((i, v));
        i += 1;
    }
    let ghost first = required_writes(*spec, args@);
    assert(first.take(required as int) =~= first);
    let mut j: usize = 0;
    assert(first + optional_writes(*spec, args@).take(0) =~= first);
    while j < optional
        invariant
            j <= optional,
            optional == spec.optional@.len(),
            lead == leading(*spec, args@.len() as int),
            take == taken(*spec, args@.len() as int),
            lead + take <= args@.len(),
            given == args@.len(),
            writes_of(out@) == first + optional_writes(*spec, args@).take(j as int),
        decreases optional - j,
    {
        let v = if j < take {
            args[lead + j]
        } else {
            Value::undef()
        };
        let slot: usize = spec.optional[j].slot as usize;
        proof {
            lemma_writes_push(out@, slot, v);
            let all = optional_writes(*spec, args@);
            assert(all[j as int] == (slot as int, v));
            assert(first + all.take(j + 1) =~= (first + all.take(j as int)).push(all[j as int]));
        }
        out.push((slot, v));
        j += 1;
    }
    let ghost second = first + optional_writes(*spec, args@);
    assert(first + optional_writes(*spec, args@).take(optional as int) =~= second);
    let (from, gap): (usize, usize) = match spec.rest {
        Some(slot) => {
            proof {
                lemma_writes_push(out@, slot as usize, rest);
                assert(second + rest_writes(*spec, rest) =~= second.push((slot as int, rest)));
            }
            out.push((slot as usize, rest));
            (given - trail, 1)
        },
        None => {
            assert(second + rest_writes(*spec, rest) =~= second);
            (lead + take, 0)
        },
    };
    let ghost third = second + rest_writes(*spec, rest);
    let base: usize = required + optional + gap;
    let mut k: usize = 0;
    assert(third + post_writes(*spec, args@).take(0) =~= third);
    while k < post
        invariant
            k <= post,
            post == spec.post,
            base == post_base(*spec),
            base <= MAX_OPTIONALS + 65536,
            trail == trailing(*spec, args@.len() as int),
            from == post_from(*spec, args@.len() as int),
            from + trail <= args@.len(),
            given == args@.len(),
            writes_of(out@) == third + post_writes(*spec, args@).take(k as int),
        decreases post - k,
    {
        let v = if k < trail {
            args[from + k]
        } else {
            Value::nil()
        };
        proof {
            lemma_writes_push(out@, (base + k) as usize, v);
            let all = post_writes(*spec, args@);
            assert(all[k as int] == (base + k, v));
            assert(third + all.take(k + 1) =~= (third + all.take(k as int)).push(all[k as int]));
        }
        out.push((base + k, v));
        k += 1;
    }
    assert(third + post_writes(*spec, args@).take(post as int) =~= positional_writes(
        *spec,
        args@,
        rest,
    ));
    out
}

/// The value a call passes for a keyword.
fn find_keyword(given: &Vec<(SymbolId, Value)>, name: SymbolId) -> (r: Option<Value>)
    ensures
        r == keyword_value(given@, name),
{
    let mut i: usize = 0;
    assert(given@.skip(0) =~= given@);
    while i < given.len()
        invariant
            i <= given.len(),
            keyword_value(given@, name) == keyword_value(given@.skip(i as int), name),
        decreases given.len() - i,
    {
        proof {
            let rest = given@.skip(i as int);
            assert(rest[0] == given@[i as int]);
            assert(rest.skip(1) =~= given@.skip(i + 1));
        }
        if given[i].0 == name {
            return Some(given[i].1);
        }
        i += 1;
    }
    None
}

fn is_declared(keywords: &Vec<Keyword>, symbols: &Vec<SymbolId>, name: SymbolId) -> (r: bool)
    ensures
        r == declares(keywords@, symbols@, name),
{
    let mut i: usize = 0;
    while i < keywords.len()
        invariant
            i <= keywords.len(),
            forall|k: int|
                0 <= k < i ==> !((#[trigger] keywords@[k]).name < symbols@.len()
                    && symbols@[keywords@[k].name as int] == name),
        decreases keywords.len() - i,
    {
        let at: usize = keywords[i].name as usize;
        if at < symbols.len() && symbols[at] == name {
            assert(keywords@[i as int].name < symbols@.len());
            return true;
        }
        i += 1;
    }
    false
}

fn find_unknown(
    keywords: &Vec<Keyword>,
    symbols: &Vec<SymbolId>,
    given: &Vec<(SymbolId, Value)>,
) -> (r: Option<SymbolId>)
    ensures
        r == first_unknown(keywords@, symbols@, given@),
{
    let mut i: usize = 0;
    assert(given@.skip(0) =~= given@);
    while i < given.len()
        invariant
            i <= given.len(),
            first_unknown(keywords@, symbols@, given@) == first_unknown(
                keywords@,
                symbols@,
                given@.skip(i as int),
            ),
        decreases given.len() - i,
    {
        proof {
            let rest = given@.skip(i as int);
            assert(rest[0] == given@[i as int]);
            assert(rest.skip(1) =~= given@.skip(i + 1));
        }
        if !is_declared(keywords, symbols, given[i].0) {
            return Some(given[i].0);
        }
        i += 1;
    }
    None
}

/// What the keyword parameters are set to.
pub open spec fn keyword_outcome(
    m: HeapModel,
    spec: ParamSpec,
    symbols: Seq<SymbolId>,
    given: Seq<(SymbolId, Value)>,
    r: Result<Vec<(usize, Value)>, Error>,
) -> bool {
    if spec.kwrest is Some {
        r matches Err(e) && refused(m, spec, 0, Refusal::Collects, e)
    } else if spec.keywords@.len() == 0 && given.len() > 0 {
        r matches Err(e) && refused(m, spec, 0, Refusal::NoKeywords, e)
    } else {
        match keyword_writes(spec.keywords@, symbols, given, spec.keywords@.len() as int) {
            Keywords::Missing(name) => r matches Err(e) && refused(
                m,
                spec,
                0,
                Refusal::Missing(name),
                e,
            ),
            Keywords::Malformed => r matches Err(e) && e is Malformed,
            Keywords::Given(set) => match first_unknown(spec.keywords@, symbols, given) {
                Some(name) => r matches Err(e) && refused(m, spec, 0, Refusal::Unknown(name), e),
                None => r matches Ok(list) && writes_of(list@) == set,
            },
        }
    }
}

/// Once a keyword stops the binder, the rest does not matter.
proof fn lemma_keywords_stop(
    keywords: Seq<Keyword>,
    symbols: Seq<SymbolId>,
    given: Seq<(SymbolId, Value)>,
    i: int,
    n: int,
)
    requires
        0 <= i <= n,
        !(keyword_writes(keywords, symbols, given, i) is Given),
    ensures
        keyword_writes(keywords, symbols, given, n) == keyword_writes(
            keywords,
            symbols,
            given,
            i,
        ),
    decreases n - i,
{
    if i < n {
        lemma_keywords_stop(keywords, symbols, given, i, n - 1);
    }
}

/// What the keyword parameters are set to.
pub fn bind_keywords(
    scope: &HandleScope,
    spec: &ParamSpec,
    symbols: &Vec<SymbolId>,
    given: &Vec<(SymbolId, Value)>,
) -> (r: Result<Vec<(usize, Value)>, Error>)
    ensures
        keyword_outcome(scope@, *spec, symbols@, given@, r),
{
    if spec.kwrest.is_some() {
        return Err(
            Error::refuse(
                "a keyword argument",
                "a method that collects keywords, which needs a Hash",
            ),
        );
    }
    if spec.keywords.len() == 0 && given.len() > 0 {
        return Err(
            Error::refuse(
                "a keyword argument",
                "a method with no keyword parameters, which needs a Hash",
            ),
        );
    }
    let mut out: Vec<(usize, Value)> = Vec::new();
    let mut i: usize = 0;
    assert(writes_of(out@) =~= Seq::<Write>::empty());
    while i < spec.keywords.len()
        invariant
            i <= spec.keywords@.len(),
            spec.kwrest is None,
            !(spec.keywords@.len() == 0 && given@.len() > 0),
            keyword_writes(spec.keywords@, symbols@, given@, i as int) == Keywords::Given(
                writes_of(out@),
            ),
        decreases spec.keywords.len() - i,
    {
        let keyword = spec.keywords[i];
        let at: usize = keyword.name as usize;
        let ghost n = spec.keywords@.len() as int;
        if at >= symbols.len() {
            proof {
                lemma_keywords_stop(spec.keywords@, symbols@, given@, i + 1, n);
            }
            return Err(Error::malformed("a keyword without a name"));
        }
        let name = symbols[at];
        let slot: usize = keyword.slot as usize;
        match find_keyword(given, name) {
            Some(value) => {
                proof {
                    lemma_writes_push(out@, slot, value);
                }
                out.push((slot, value));
            },
            None => {
                if keyword.required {
                    proof {
                        lemma_keywords_stop(spec.keywords@, symbols@, given@, i + 1, n);
                    }
                    let text = object::symbol_name(scope, name);
                    return Err(
                        Error::raise_text(
                            "ArgumentError",
                            text::join("missing keyword: :", text.as_str()),
                        ),
                    );
                }
                proof {
                    lemma_writes_push(out@, slot, Value::pack(Unpacked::Undef));
                }
                out.push((slot, Value::undef()));
            },
        }
        i += 1;
    }
    match find_unknown(&spec.keywords, symbols, given) {
        Some(name) => {
            let text = object::symbol_name(scope, name);
            Err(
                Error::raise_text("ArgumentError", text::join("unknown keyword: :", text.as_str())),
            )
        },
        None => Ok(out),
    }
}

/// An environment with other locals.
pub open spec fn with_locals(object: Object, locals: Seq<Value>) -> Object {
    Object {
        body: heap::BodyModel::Slots(seq![object.body->Slots_0[0]] + locals),
        ..object
    }
}

/// Writes add no locals.
pub proof fn lemma_written(locals: Seq<Value>, writes: Seq<Write>)
    requires
        in_range(locals.len(), writes),
    ensures
        written(locals, writes).len() == locals.len(),
    decreases writes.len(),
{
    if writes.len() > 0 {
        let before = writes.drop_last();
        assert(in_range(locals.len(), before)) by {
            assert forall|i: int| 0 <= i < before.len() implies 0 <= (#[trigger] before[i]).0
                < locals.len() by {
                assert(before[i] == writes[i]);
            }
        }
        lemma_written(locals, before);
        assert(writes[writes.len() - 1] == writes.last());
    }
}

/// Whether every write has a local to write.
fn all_in_range(locals: usize, writes: &Vec<(usize, Value)>) -> (r: bool)
    ensures
        r == in_range(locals as nat, writes_of(writes@)),
{
    let mut i: usize = 0;
    while i < writes.len()
        invariant
            i <= writes.len(),
            forall|k: int| 0 <= k < i ==> 0 <= (#[trigger] writes_of(writes@)[k]).0 < locals,
        decreases writes.len() - i,
    {
        if writes[i].0 >= locals {
            assert(writes_of(writes@)[i as int].0 >= locals);
            return false;
        }
        i += 1;
    }
    true
}

/// Write locals, in order.
fn write_all(scope: &mut HandleScope, env: Value, writes: &Vec<(usize, Value)>)
    requires
        old(scope).wf(),
        make::env_locals(old(scope)@, env) matches Some(locals) && in_range(
            locals.len(),
            writes_of(writes@),
        ),
        forall|i: int| 0 <= i < writes@.len() ==> old(scope)@.live((#[trigger] writes@[i]).1),
    ensures
        final(scope).wf(),
        final(scope).scopes() == old(scope).scopes(),
        final(scope).room() == old(scope).room(),
        final(scope)@ == old(scope)@.storing(
            env,
            with_locals(
                old(scope)@.object(env),
                written(make::env_locals(old(scope)@, env)->0, writes_of(writes@)),
            ),
        ),
{
    let ghost before = scope@;
    let ghost locals = make::env_locals(before, env)->0;
    let ghost all = writes_of(writes@);
    let mut i: usize = 0;
    proof {
        assert(all.take(0) =~= Seq::<Write>::empty());
        let object = before.object(env);
        assert(with_locals(object, locals).body->Slots_0 =~= object.body->Slots_0);
        assert(with_locals(object, locals) =~= object);
        assert(before.objects.insert(env@->Heap_0, object) =~= before.objects);
    }
    while i < writes.len()
        invariant
            scope.wf(),
            scope.scopes() == old(scope).scopes(),
            scope.room() == old(scope).room(),
            i <= writes.len(),
            before == old(scope)@,
            all == writes_of(writes@),
            make::env_locals(before, env) == Some(locals),
            in_range(locals.len(), all),
            forall|k: int| 0 <= k < writes@.len() ==> before.live((#[trigger] writes@[k]).1),
            scope@ == before.storing(
                env,
                with_locals(before.object(env), written(locals, all.take(i as int))),
            ),
        decreases writes.len() - i,
    {
        let (slot, value) = writes[i];
        let ghost done = all.take(i as int);
        let ghost mid = scope@;
        proof {
            assert(all[i as int] == (slot as int, value));
            assert(in_range(locals.len(), done)) by {
                assert forall|k: int| 0 <= k < done.len() implies 0 <= (#[trigger] done[k]).0
                    < locals.len() by {
                    assert(done[k] == all[k]);
                }
            }
            lemma_written(locals, done);
            assert(before.live(writes@[i as int].1));
            let slots = mid.object(env).body->Slots_0;
            assert(slots.skip(1) =~= written(locals, done));
        }
        let ok = make::env_set(scope, env, slot, value);
        proof {
            let next = all.take(i + 1);
            assert(next.drop_last() =~= done);
            assert(next.last() == (slot as int, value));
            let now = written(locals, next);
            let head = seq![before.object(env).body->Slots_0[0]];
            assert((head + written(locals, done)).update(slot + 1, value) =~= head + now);
            assert(scope@.objects =~= before.objects.insert(
                env@->Heap_0,
                with_locals(before.object(env), now),
            ));
        }
        i += 1;
    }
    assert(all.take(i as int) =~= all);
}

/// What is written does not depend on what the splat gathers, but for the
/// splat itself.
proof fn lemma_same_range(
    locals: nat,
    spec: ParamSpec,
    symbols: Seq<SymbolId>,
    args: Seq<Value>,
    one: Value,
    other: Value,
    call: PendingModel,
)
    ensures
        in_range(locals, all_writes(spec, symbols, args, one, call)) == in_range(
            locals,
            all_writes(spec, symbols, args, other, call),
        ),
{
    let a = all_writes(spec, symbols, args, one, call);
    let b = all_writes(spec, symbols, args, other, call);
    assert(a.len() == b.len());
    assert forall|i: int| 0 <= i < a.len() implies (#[trigger] a[i]).0 == (#[trigger] b[i]).0 by {}
    if in_range(locals, a) {
        assert forall|i: int| 0 <= i < b.len() implies 0 <= (#[trigger] b[i]).0 < locals by {
            assert(a[i].0 == b[i].0);
        }
    }
    if in_range(locals, b) {
        assert forall|i: int| 0 <= i < a.len() implies 0 <= (#[trigger] a[i]).0 < locals by {
            assert(a[i].0 == b[i].0);
        }
    }
}

/// What binding does: the environment's locals are set, a splat gathers into
/// an array of its own, and nothing else that was reachable changes.
pub open spec fn bound(
    before: HeapModel,
    after: HeapModel,
    env: Value,
    spec: ParamSpec,
    symbols: Seq<SymbolId>,
    call: PendingModel,
    strict: bool,
) -> bool {
    exists|rest: Value| #[trigger] bound_with(before, after, env, spec, symbols, call, strict, rest)
}

/// What binding does, with the array the splat gathers into.
pub open spec fn bound_with(
    before: HeapModel,
    after: HeapModel,
    env: Value,
    spec: ParamSpec,
    symbols: Seq<SymbolId>,
    call: PendingModel,
    strict: bool,
    rest: Value,
) -> bool {
    let args = spread_args(before, spec, call.args, strict);
    let locals = make::env_locals(before, env)->0;
    &&& spec.rest is Some ==> {
        &&& after.has_object(rest)
        &&& after.object(rest) == make::slots_object(
            Some(object::builtin_object(before, class::Builtin::Array)),
            rest_args(spec, args),
        )
        &&& make::unseen(before, rest)
    }
    &&& after.has_object(env)
    &&& after.object(env) == with_locals(
        before.object(env),
        written(locals, all_writes(spec, symbols, args, rest, call)),
    )
    &&& kept_but(before, after, env)
    &&& before.roots.is_prefix_of(after.roots)
    &&& make::same_tables(before, after)
}

/// Whether everything that was reachable, but for one object, is as it was.
pub open spec fn kept_but(before: HeapModel, after: HeapModel, v: Value) -> bool {
    forall|a: u64| #[trigger]
        before.objects.contains_key(a) && before.reachable(a) && Unpacked::Heap(a) != v@
            ==> after.objects.contains_key(a) && after.objects[a] == before.objects[a]
}

/// Root every value of a list.
pub fn hold_all(scope: &mut HandleScope, values: &Vec<Value>)
    requires
        old(scope).wf(),
        forall|i: int| 0 <= i < values@.len() ==> old(scope)@.live(#[trigger] values@[i]),
    ensures
        final(scope).wf(),
        final(scope).scopes() == old(scope).scopes(),
        final(scope).room() == old(scope).room(),
        final(scope)@ == (HeapModel { roots: final(scope)@.roots, ..old(scope)@ }),
        old(scope)@.roots.is_prefix_of(final(scope)@.roots),
        machine::all_held(final(scope)@, values@),
{
    let ghost before = scope@;
    let mut i: usize = 0;
    while i < values.len()
        invariant
            scope.wf(),
            scope.scopes() == old(scope).scopes(),
            scope.room() == old(scope).room(),
            before == old(scope)@,
            i <= values.len(),
            scope@ == (HeapModel { roots: scope@.roots, ..before }),
            before.roots.is_prefix_of(scope@.roots),
            forall|k: int| 0 <= k < values@.len() ==> before.live(#[trigger] values@[k]),
            forall|k: int| 0 <= k < i ==> machine::held(scope@, #[trigger] values@[k]),
        decreases values.len() - i,
    {
        let v = values[i];
        let ghost mid = scope@;
        assert(before.live(values@[i as int]));
        scope.hold(v);
        proof {
            assert forall|k: int| 0 <= k < i + 1 implies machine::held(
                scope@,
                #[trigger] values@[k],
            ) by {
                if values@[k]@ is Heap {
                    if k < i {
                        assert(machine::held(mid, values@[k]));
                        let j = mid.roots.index_of(values@[k]);
                        assert(scope@.roots[j] == values@[k]);
                    } else {
                        assert(scope@.roots[scope@.roots.len() - 1] == v);
                    }
                }
            }
        }
        i += 1;
    }
}

/// Set a callee's parameters from a call's arguments.
pub fn bind(
    scope: &mut HandleScope,
    env: Value,
    spec: &ParamSpec,
    symbols: &Vec<SymbolId>,
    call: &Pending,
    binding: Binding,
) -> (r: Result<(), Error>)
    requires
        old(scope).wf(),
        object::kernel_in(old(scope)@),
        machine::held(old(scope)@, env),
        make::env_locals(old(scope)@, env) is Some,
        pending_held(old(scope)@, call@),
    ensures
        final(scope).wf(),
        final(scope).scopes() == old(scope).scopes(),
        machine::costs(*old(scope), *final(scope), r, 1 + call@.args.len()),
        match refusal(
            old(scope)@,
            make::env_locals(old(scope)@, env)->0.len(),
            *spec,
            symbols@,
            call@,
            binding is Strict,
        ) {
            Some(why) => {
                &&& r matches Err(e) && refused(
                    old(scope)@,
                    *spec,
                    call@.args.len(),
                    why,
                    e,
                )
                &&& final(scope)@ == (HeapModel { roots: final(scope)@.roots, ..old(scope)@ })
                &&& old(scope)@.roots.is_prefix_of(final(scope)@.roots)
            },
            None => match r {
                Ok(_) => bound(
                    old(scope)@,
                    final(scope)@,
                    env,
                    *spec,
                    symbols@,
                    call@,
                    binding is Strict,
                ),
                Err(e) => {
                    &&& e is Exhausted
                    &&& spec.rest is Some
                    &&& !make::fits(
                        *old(scope),
                        rest_args(
                            *spec,
                            spread_args(old(scope)@, *spec, call@.args, binding is Strict),
                        ).len(),
                    )
                    &&& final(scope)@ == (HeapModel { roots: final(scope)@.roots, ..old(scope)@ })
                    &&& old(scope)@.roots.is_prefix_of(final(scope)@.roots)
                },
            },
        },
{
    let ghost before = scope@;
    let ghost locals = make::env_locals(before, env)->0;
    let strict = binding == Binding::Strict;
    if spec.optional.len() > MAX_OPTIONALS {
        return Err(Error::malformed("more optional parameters than slots"));
    }
    let mut args: Vec<Value> = copy_values(&call.args);
    proof {
        assert forall|i: int| 0 <= i < args@.len() implies before.live(#[trigger] args@[i]) by {
            assert(machine::held(before, call@.args[i]));
            machine::lemma_held_is_live(before, args@[i]);
        }
    }
    if !strict && args.len() == 1 && spreads(spec) {
        assert(before.live(args@[0]));
        match object::array_elements(scope, args[0]) {
            Some(elements) => {
                args = elements;
            },
            None => {
                if defines_to_ary(scope, args[0]) {
                    return Err(
                        Error::open_question(
                            "a block parameter list spreading an object with `#to_ary`",
                            "the binder can call Ruby, which re-entrant primitives bring with fibers (#40)",
                        ),
                    );
                }
            },
        }
    }
    assert(args@ == spread_args(before, *spec, call@.args, strict));
    assert(args@.len() <= u32::MAX || args@.len() == call@.args.len()) by {
        if args@ != call@.args {
            assert(before.objects[call@.args[0]@->Heap_0].len() <= u32::MAX);
        }
    }
    if strict {
        let count = check_arity(spec, args.len());
        if count.is_err() {
            return count;
        }
    }
    let keywords = match bind_keywords(scope, spec, symbols, &call.keywords) {
        Ok(keywords) => keywords,
        Err(e) => {
            return Err(e);
        },
    };
    proof {
        machine::lemma_held_is_live(before, env);
    }
    let room: usize = match make::env_len(scope, env) {
        Some(room) => room,
        None => 0,
    };
    let nil = Value::nil();
    let mut plan: Vec<(usize, Value)> = with_rest(spec, &args, nil, &keywords, call.block);
    proof {
        lemma_plan(*spec, symbols@, args@, nil, keywords@, call@, plan@);
    }
    if !all_in_range(room, &plan) {
        return Err(Error::malformed("a parameter without a slot"));
    }
    hold_all(scope, &args);
    let ghost rooted = scope@;
    let mut rest: Value = nil;
    proof {
        assert forall|v: Value| #[trigger] machine::held(before, v) implies machine::held(
            rooted,
            v,
        ) by {
            if v@ is Heap {
                let k = before.roots.index_of(v);
                assert(rooted.roots[k] == v);
            }
        }
        assert(machine::held(rooted, env));
        assert(rooted.is_root(env));
    }
    if spec.rest.is_some() {
        let elements = gathered(spec, &args);
        proof {
            assert(machine::all_held(rooted, elements@)) by {
                assert forall|i: int| 0 <= i < elements@.len() implies machine::held(
                    rooted,
                    #[trigger] elements@[i],
                ) by {
                    let given = args@.len() as int;
                    let at = leading(*spec, given) + taken(*spec, given) + i;
                    assert(elements@[i] == args@[at]);
                }
            }
        }
        match make::new_array(scope, elements) {
            Ok(array) => {
                rest = array;
            },
            Err(e) => {
                return Err(e);
            },
        }
        plan = with_rest(spec, &args, rest, &keywords, call.block);
    }
    let ghost made = scope@;
    proof {
        lemma_plan(*spec, symbols@, args@, rest, keywords@, call@, plan@);
        lemma_same_range(locals.len(), *spec, symbols@, args@, nil, rest, call@);
        heap::law_roots_are_reachable(rooted, env, env@->Heap_0);
        assert(rooted.objects.contains_key(env@->Heap_0) && rooted.reachable(env@->Heap_0));
        assert(made.object(env) == before.object(env));
        assert forall|v: Value| #[trigger] machine::held(rooted, v) implies made.live(v) by {
            if v@ is Heap {
                let k = rooted.roots.index_of(v);
                assert(made.roots[k] == v);
                assert(made.is_root(v));
            }
        }
        assert(made.live(rest)) by {
            if spec.rest is Some {
                assert(made.has_object(rest));
            }
        }
        assert forall|i: int| 0 <= i < plan@.len() implies made.live((#[trigger] plan@[i]).1) by {
            lemma_plan_values(*spec, symbols@, args@, rest, call@, i);
            let w = all_writes(*spec, symbols@, args@, rest, call@);
            assert(writes_of(plan@)[i] == w[i]);
            let v = w[i].1;
            if args@.contains(v) {
                let k = args@.index_of(v);
                assert(machine::held(rooted, args@[k]));
            } else if v == call@.block {
                assert(machine::held(before, v));
            } else if exists|k: int| 0 <= k < call@.keywords.len() && (#[trigger] call@.keywords[k]).1 == v {
                let k = choose|k: int|
                    0 <= k < call@.keywords.len() && (#[trigger] call@.keywords[k]).1 == v;
                assert(machine::held(before, call@.keywords[k].1));
            }
        }
    }
    write_all(scope, env, &plan);
    proof {
        let after = scope@;
        assert(kept_but(before, after, env)) by {
            assert forall|a: u64| #[trigger]
                before.objects.contains_key(a) && before.reachable(a) && Unpacked::Heap(a)
                    != env@ implies after.objects.contains_key(a) && after.objects[a]
                == before.objects[a] by {
                make::lemma_rooting(before, rooted);
                assert(rooted.objects.contains_key(a) && rooted.reachable(a));
                assert(made.objects.contains_key(a) && made.objects[a] == rooted.objects[a]);
            }
        }
        if spec.rest is Some {
            assert(make::unseen(before, rest)) by {
                if before.objects.contains_key(rest@->Heap_0) && before.reachable(
                    rest@->Heap_0,
                ) {
                    make::lemma_rooting(before, rooted);
                    assert(rooted.objects.contains_key(rest@->Heap_0) && rooted.reachable(
                        rest@->Heap_0,
                    ));
                }
            }
            assert(rest@ != env@);
        }
        assert(bound_with(
            before,
            after,
            env,
            *spec,
            symbols@,
            call@,
            strict,
            rest,
        ));
    }
    Ok(())
}

/// What the splat gathers.
fn gathered(spec: &ParamSpec, args: &Vec<Value>) -> (r: Vec<Value>)
    ensures
        r@ == rest_args(*spec, args@),
        forall|i: int|
            0 <= i < r@.len() ==> #[trigger] r@[i] == args@[leading(*spec, args@.len() as int)
                + taken(*spec, args@.len() as int) + i],
{
    let given: usize = args.len();
    let required: usize = spec.required as usize;
    let post: usize = spec.post as usize;
    let lead: usize = if required <= given {
        required
    } else {
        given
    };
    let after: usize = given - lead;
    let trail: usize = if post <= after {
        post
    } else {
        after
    };
    let between: usize = after - trail;
    let take: usize = if spec.optional.len() <= between {
        spec.optional.len()
    } else {
        between
    };
    let from: usize = lead + take;
    let to: usize = given - trail;
    let mut out: Vec<Value> = Vec::new();
    let mut i: usize = from;
    while i < to
        invariant
            from <= i <= to,
            to <= args@.len(),
            out@ == args@.subrange(from as int, i as int),
        decreases to - i,
    {
        out.push(args[i]);
        i += 1;
        assert(out@ =~= args@.subrange(from as int, i as int));
    }
    out
}

/// Everything that binding sets, in order.
fn with_rest(
    spec: &ParamSpec,
    args: &Vec<Value>,
    rest: Value,
    keywords: &Vec<(usize, Value)>,
    block: Value,
) -> (r: Vec<(usize, Value)>)
    requires
        spec.optional@.len() <= MAX_OPTIONALS,
    ensures
        writes_of(r@) == positional_writes(*spec, args@, rest) + writes_of(keywords@)
            + block_writes(*spec, block),
{
    let mut out = positional(spec, args, rest);
    let ghost first = positional_writes(*spec, args@, rest);
    let mut i: usize = 0;
    assert(first + writes_of(keywords@).take(0) =~= first);
    while i < keywords.len()
        invariant
            i <= keywords.len(),
            writes_of(out@) == first + writes_of(keywords@).take(i as int),
        decreases keywords.len() - i,
    {
        let (slot, v) = keywords[i];
        proof {
            lemma_writes_push(out@, slot, v);
            let all = writes_of(keywords@);
            assert(all[i as int] == (slot as int, v));
            assert(first + all.take(i + 1) =~= (first + all.take(i as int)).push(all[i as int]));
        }
        out.push((slot, v));
        i += 1;
    }
    assert(writes_of(keywords@).take(i as int) =~= writes_of(keywords@));
    if let Some(slot) = spec.block {
        proof {
            lemma_writes_push(out@, slot as usize, block);
        }
        out.push((slot as usize, block));
    }
    assert(writes_of(out@) =~= first + writes_of(keywords@) + block_writes(*spec, block));
    out
}

proof fn lemma_plan(
    spec: ParamSpec,
    symbols: Seq<SymbolId>,
    args: Seq<Value>,
    rest: Value,
    keywords: Seq<(usize, Value)>,
    call: PendingModel,
    plan: Seq<(usize, Value)>,
)
    requires
        keyword_writes(spec.keywords@, symbols, call.keywords, spec.keywords@.len() as int)
            == Keywords::Given(writes_of(keywords)),
        writes_of(plan) == positional_writes(spec, args, rest) + writes_of(keywords)
            + block_writes(spec, call.block),
    ensures
        writes_of(plan) == all_writes(spec, symbols, args, rest, call),
{
}

/// A keyword's value comes from the call.
proof fn lemma_keyword_value(given: Seq<(SymbolId, Value)>, name: SymbolId)
    ensures
        keyword_value(given, name) matches Some(v) ==> exists|k: int|
            0 <= k < given.len() && (#[trigger] given[k]).1 == v,
    decreases given.len(),
{
    if given.len() > 0 && given[0].0 != name {
        let rest = given.skip(1);
        lemma_keyword_value(rest, name);
        if let Some(v) = keyword_value(given, name) {
            let k = choose|k: int| 0 <= k < rest.len() && (#[trigger] rest[k]).1 == v;
            assert(given[k + 1].1 == v);
        }
    } else if given.len() > 0 {
        assert(given[0].1 == given[0].1);
    }
}

proof fn lemma_keyword_values(
    keywords: Seq<Keyword>,
    symbols: Seq<SymbolId>,
    given: Seq<(SymbolId, Value)>,
    n: int,
)
    requires
        0 <= n <= keywords.len(),
    ensures
        keyword_writes(keywords, symbols, given, n) matches Keywords::Given(writes) ==> forall|i: int|
            0 <= i < writes.len() ==> (#[trigger] writes[i]).1 == Value::pack(Unpacked::Undef)
                || passes(given, writes[i].1),
    decreases n,
{
    if n > 0 {
        lemma_keyword_values(keywords, symbols, given, n - 1);
        let k = keywords[n - 1];
        if k.name < symbols.len() {
            lemma_keyword_value(given, symbols[k.name as int]);
        }
    }
}

/// Whether a call passes a value for some keyword.
spec fn passes(given: Seq<(SymbolId, Value)>, v: Value) -> bool {
    exists|k: int| 0 <= k < given.len() && (#[trigger] given[k]).1 == v
}

/// What binding sets comes from the call, or is the splat's array, `nil` or
/// unset.
proof fn lemma_plan_values(
    spec: ParamSpec,
    symbols: Seq<SymbolId>,
    args: Seq<Value>,
    rest: Value,
    call: PendingModel,
    i: int,
)
    requires
        keyword_writes(spec.keywords@, symbols, call.keywords, spec.keywords@.len() as int) is Given,
        0 <= i < all_writes(spec, symbols, args, rest, call).len(),
    ensures
        ({
            let v = all_writes(spec, symbols, args, rest, call)[i].1;
            ||| args.contains(v)
            ||| v == rest
            ||| v == call.block
            ||| v == Value::pack(Unpacked::Nil)
            ||| v == Value::pack(Unpacked::Undef)
            ||| exists|k: int|
                0 <= k < call.keywords.len() && (#[trigger] call.keywords[k]).1 == v
        }),
{
    let all = all_writes(spec, symbols, args, rest, call);
    let positional = positional_writes(spec, args, rest);
    let kw = keyword_writes(
        spec.keywords@,
        symbols,
        call.keywords,
        spec.keywords@.len() as int,
    )->Given_0;
    lemma_keyword_values(spec.keywords@, symbols, call.keywords, spec.keywords@.len() as int);
    if i >= positional.len() && i < positional.len() + kw.len() {
        assert(all[i] == kw[i - positional.len()]);
        let v = kw[i - positional.len()].1;
        if passes(call.keywords, v) {
            let k = choose|k: int| 0 <= k < call.keywords.len() && (#[trigger] call.keywords[k]).1 == v;
            assert(call.keywords[k].1 == all[i].1);
        }
    }
}

} // verus!
