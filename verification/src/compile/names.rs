//! What the compiler reads off a node without lowering it.

use vstd::prelude::*;
use vstd::utf8;

use crate::ast::{
    BlockArg, CaseBranches, Expr, ExprKind, HashEntry, HashEntryKind, HashLit, Name, RegexpFlags,
    StrPart, TargetKind, VarRef, WhenClause,
};
use crate::bytecode;
use crate::bytecode::MatchRef;
use crate::text;

verus! {

// ---------------------------------------------------------------------------
// Strings and names
// ---------------------------------------------------------------------------

/// Whether nothing is interpolated.
pub open spec fn all_bytes(parts: Seq<StrPart>) -> bool {
    forall|i: int| 0 <= i < parts.len() ==> #[trigger] parts[i] is Bytes
}

/// The bytes of the pieces, one behind the other.
pub open spec fn joined(parts: Seq<StrPart>) -> Seq<u8>
    decreases parts.len(),
{
    if parts.len() == 0 {
        Seq::empty()
    } else {
        joined(parts.drop_last()) + (match parts.last() {
            StrPart::Bytes(bytes) => bytes@,
            StrPart::Interp(_) => Seq::empty(),
        })
    }
}

/// A copy of some bytes.
pub(crate) fn copy_bytes(bytes: &Vec<u8>) -> (r: Vec<u8>)
    ensures
        r@ == bytes@,
{
    let mut out: Vec<u8> = Vec::new();
    append_bytes(&mut out, bytes);
    assert(out@ =~= bytes@);
    out
}

fn append_bytes(out: &mut Vec<u8>, bytes: &Vec<u8>)
    ensures
        final(out)@ == old(out)@ + bytes@,
{
    let ghost was = out@;
    let mut i: usize = 0;
    assert(was + bytes@.take(0) =~= was);
    while i < bytes.len()
        invariant
            i <= bytes.len(),
            out@ == was + bytes@.take(i as int),
        decreases bytes.len() - i,
    {
        out.push(bytes[i]);
        i += 1;
        assert(out@ =~= was + bytes@.take(i as int));
    }
    assert(bytes@.take(i as int) =~= bytes@);
}

/// The bytes of a literal without interpolation.
pub(crate) fn flat_bytes(parts: &Vec<StrPart>) -> (r: Option<Vec<u8>>)
    ensures
        match r {
            Some(bytes) => all_bytes(parts@) && bytes@ == joined(parts@),
            None => !all_bytes(parts@),
        },
{
    let mut out: Vec<u8> = Vec::new();
    let mut i: usize = 0;
    while i < parts.len()
        invariant
            i <= parts.len(),
            out@ == joined(parts@.take(i as int)),
            forall|k: int| 0 <= k < i ==> #[trigger] parts@[k] is Bytes,
        decreases parts.len() - i,
    {
        let ghost was = out@;
        match &parts[i] {
            StrPart::Bytes(bytes) => {
                append_bytes(&mut out, bytes);
                proof {
                    let taken = parts@.take(i as int + 1);
                    assert(taken.drop_last() =~= parts@.take(i as int));
                    assert(taken.last() == parts@[i as int]);
                }
            },
            StrPart::Interp(_) => {
                assert(!(parts@[i as int] is Bytes));
                return None;
            },
        }
        i += 1;
    }
    assert(parts@.take(i as int) =~= parts@);
    Some(out)
}

/// The name a keyword argument is written with, where it is a plain symbol.
pub open spec fn keyword_of(pair: HashEntry) -> Option<Seq<char>> {
    match pair.kind {
        HashEntryKind::Pair { key, value: _ } => match key.kind {
            ExprKind::Sym(parts) => if parts@.len() == 1 {
                match parts@[0] {
                    StrPart::Bytes(bytes) => if utf8::valid_utf8(bytes@) {
                        Some(utf8::decode_utf8(bytes@))
                    } else {
                        None
                    },
                    StrPart::Interp(_) => None,
                }
            } else {
                None
            },
            _ => None,
        },
        HashEntryKind::Splat(_) => None,
    }
}

/// The name a keyword argument is written with.
pub(crate) fn keyword_name(pair: &HashEntry) -> (r: Option<String>)
    ensures
        match r {
            Some(name) => keyword_of(*pair) == Some(name@),
            None => keyword_of(*pair) is None,
        },
{
    match &pair.kind {
        HashEntryKind::Pair { key, value: _ } => match &key.kind {
            ExprKind::Sym(parts) => {
                if parts.len() != 1 {
                    return None;
                }
                match &parts[0] {
                    StrPart::Bytes(bytes) => text::decoded(copy_bytes(bytes)),
                    StrPart::Interp(_) => None,
                }
            },
            _ => None,
        },
        HashEntryKind::Splat(_) => None,
    }
}

/// Whether every entry is a plain keyword argument.
pub open spec fn all_keywords(hash: HashLit) -> bool {
    forall|i: int| 0 <= i < hash.entries@.len() ==> keyword_of(#[trigger] hash.entries@[i]) is Some
}

/// Whether a keyword list needs a hash of its own.
pub(crate) fn needs_keyword_hash(hash: &HashLit) -> (r: bool)
    ensures
        r == !all_keywords(*hash),
{
    let mut i: usize = 0;
    while i < hash.entries.len()
        invariant
            i <= hash.entries.len(),
            forall|k: int| 0 <= k < i ==> keyword_of(#[trigger] hash.entries@[k]) is Some,
        decreases hash.entries.len() - i,
    {
        if keyword_name(&hash.entries[i]).is_none() {
            assert(keyword_of(hash.entries@[i as int]) is None);
            return true;
        }
        i += 1;
    }
    false
}

/// The local that a `*rest` in a pattern names, with the scopes up to it.
pub open spec fn rest_local(node: Expr) -> Option<(Seq<char>, u32)> {
    match node.kind {
        ExprKind::Splat(Some(inner)) => match inner.kind {
            ExprKind::Var(VarRef::Local { name, depth }) => Some((name@, depth)),
            _ => None,
        },
        ExprKind::Var(VarRef::Local { name, depth }) => Some((name@, depth)),
        _ => None,
    }
}

/// The local that a `*rest` in a pattern names.
pub(crate) fn rest_target(node: &Expr) -> (r: Option<(&Name, u32)>)
    ensures
        match r {
            Some((name, depth)) => rest_local(*node) == Some((name@, depth)),
            None => rest_local(*node) is None,
        },
{
    match &node.kind {
        ExprKind::Splat(Some(inner)) => match &inner.kind {
            ExprKind::Var(VarRef::Local { name, depth }) => Some((name, *depth)),
            _ => None,
        },
        ExprKind::Var(VarRef::Local { name, depth }) => Some((name, *depth)),
        _ => None,
    }
}

/// Whether something after a splatted argument can still change it: another
/// argument, or a block that is passed.
pub open spec fn changes_after(args: nat, index: int, passes: bool) -> bool {
    index + 1 < args || passes
}

/// Whether something after a splatted argument can still change it.
pub(crate) fn mutable_after(args: &Vec<Expr>, index: usize, passes: bool) -> (r: bool)
    requires
        index < args@.len(),
    ensures
        r == changes_after(args@.len(), index as int, passes),
{
    let given: usize = args.len();
    given - index > 1 || passes
}

/// Whether a block argument is one that is passed.
pub open spec fn passes_block(block: Option<BlockArg>) -> bool {
    block matches Some(BlockArg::Pass(_))
}

pub(crate) fn is_passed(block: &Option<BlockArg>) -> (r: bool)
    ensures
        r == passes_block(*block),
{
    match block {
        Some(BlockArg::Pass(_)) => true,
        _ => false,
    }
}

// ---------------------------------------------------------------------------
// Patterns and special variables
// ---------------------------------------------------------------------------

/// `Regexp::IGNORECASE`, as Ruby documents it.
pub const IGNORECASE: i64 = 1;

/// `Regexp::EXTENDED`.
pub const EXTENDED: i64 = 2;

/// `Regexp::MULTILINE`.
pub const MULTILINE: i64 = 4;

/// What `Regexp#options` answers.
pub open spec fn options_of(flags: RegexpFlags) -> int {
    (if flags.ignore_case {
        IGNORECASE as int
    } else {
        0
    }) + (if flags.extended {
        EXTENDED as int
    } else {
        0
    }) + (if flags.multi_line {
        MULTILINE as int
    } else {
        0
    })
}

/// What `Regexp#options` answers.
pub fn regexp_options(flags: &RegexpFlags) -> (r: i64)
    ensures
        r == options_of(*flags),
{
    let mut options: i64 = 0;
    if flags.ignore_case {
        options = options + IGNORECASE;
    }
    if flags.extended {
        options = options + EXTENDED;
    }
    if flags.multi_line {
        options = options + MULTILINE;
    }
    options
}

/// Whether a text is digits only.
pub open spec fn all_digits(text: Seq<char>) -> bool {
    forall|i: int| 0 <= i < text.len() ==> '0' <= #[trigger] text[i] <= '9'
}

/// The number that digits spell.
pub open spec fn spelled(text: Seq<char>) -> nat
    decreases text.len(),
{
    if text.len() == 0 {
        0
    } else {
        spelled(text.drop_last()) * 10 + (text.last() as nat - '0' as nat) as nat
    }
}

/// The part of the last match a special variable names.
pub open spec fn match_part(name: Seq<char>) -> Option<MatchRef> {
    if name.len() < 2 || name[0] != '$' {
        None
    } else {
        let rest = name.skip(1);
        if rest == seq!['~'] {
            Some(MatchRef::Data)
        } else if rest == seq!['&'] {
            Some(MatchRef::Whole)
        } else if rest == seq!['`'] {
            Some(MatchRef::Pre)
        } else if rest == seq!['\''] {
            Some(MatchRef::Post)
        } else if rest == seq!['+'] {
            Some(MatchRef::LastGroup)
        } else if all_digits(rest) && 0 < spelled(rest) <= u16::MAX {
            Some(MatchRef::Group(spelled(rest) as u16))
        } else {
            None
        }
    }
}

/// Digits spell no less than the first of them do.
proof fn lemma_spelled(text: Seq<char>, n: int)
    requires
        0 <= n <= text.len(),
        all_digits(text),
    ensures
        spelled(text.take(n)) <= spelled(text),
    decreases text.len() - n,
{
    if n < text.len() {
        lemma_spelled(text, n + 1);
        assert(text.take(n + 1).drop_last() =~= text.take(n));
    } else {
        assert(text.take(n) =~= text);
    }
}

/// The number that digits spell, where it is digits and fits.
fn group_number(name: &str, len: usize) -> (r: Option<u16>)
    requires
        len == name@.len(),
        len >= 2,
    ensures
        match r {
            Some(n) => all_digits(name@.skip(1)) && n == spelled(name@.skip(1)),
            None => !all_digits(name@.skip(1)) || spelled(name@.skip(1)) > u16::MAX,
        },
{
    let ghost rest = name@.skip(1);
    let mut valid = true;
    let mut i: usize = 1;
    while i < len
        invariant
            1 <= i <= len,
            len == name@.len(),
            rest == name@.skip(1),
            valid,
            forall|k: int| 0 <= k < i - 1 ==> '0' <= #[trigger] rest[k] <= '9',
        decreases len - i,
    {
        let c = name.get_char(i);
        if c < '0' || c > '9' {
            assert(rest[i - 1] == c);
            return None;
        }
        assert(rest[i - 1] == c);
        i += 1;
    }
    assert(all_digits(rest));
    let mut n: u32 = 0;
    let mut j: usize = 1;
    assert(rest.take(0) =~= Seq::<char>::empty());
    while j < len
        invariant
            1 <= j <= len,
            len == name@.len(),
            rest == name@.skip(1),
            all_digits(rest),
            n <= u16::MAX,
            n == spelled(rest.take(j - 1)),
        decreases len - j,
    {
        let c = name.get_char(j);
        proof {
            assert(rest[j - 1] == c);
            assert(rest.take(j as int).drop_last() =~= rest.take(j - 1));
            assert(rest.take(j as int).last() == c);
            lemma_spelled(rest, j as int);
        }
        n = n * 10 + (c as u32 - '0' as u32);
        if n > u16::MAX as u32 {
            return None;
        }
        j += 1;
    }
    assert(rest.take(j - 1) =~= rest);
    Some(n as u16)
}

/// The part of the last match a special variable names.
pub fn match_ref(name: &str) -> (r: Option<MatchRef>)
    ensures
        r == match_part(name@),
{
    let len: usize = name.unicode_len();
    if len < 2 || name.get_char(0) != '$' {
        return None;
    }
    let ghost rest = name@.skip(1);
    if len == 2 {
        let c = name.get_char(1);
        proof {
            assert(rest =~= seq![c]);
            assert(rest[0] == c);
            assert(seq!['~'][0] == '~' && seq!['&'][0] == '&' && seq!['`'][0] == '`');
            assert(seq!['\''][0] == '\'' && seq!['+'][0] == '+');
        }
        if c == '~' {
            return Some(MatchRef::Data);
        }
        if c == '&' {
            return Some(MatchRef::Whole);
        }
        if c == '`' {
            return Some(MatchRef::Pre);
        }
        if c == '\'' {
            return Some(MatchRef::Post);
        }
        if c == '+' {
            return Some(MatchRef::LastGroup);
        }
    } else {
        assert(rest.len() != 1);
    }
    match group_number(name, len) {
        Some(n) => if n > 0 {
            Some(MatchRef::Group(n))
        } else {
            None
        },
        None => None,
    }
}

// ---------------------------------------------------------------------------
// What a node is called
// ---------------------------------------------------------------------------

/// What a construct that does not compile is called.
pub open spec fn node_text(kind: ExprKind) -> &'static str {
    match kind {
        ExprKind::MatchLastLine => "a regexp in condition position",
        ExprKind::Splat(_) => "a splat",
        ExprKind::Rational | ExprKind::Imaginary => "a rational or complex literal",
        ExprKind::XStr => "a backtick command",
        ExprKind::MatchWrite => "a regexp that writes its named captures to locals",
        ExprKind::ArrayPattern(_)
        | ExprKind::FindPattern(_)
        | ExprKind::HashPattern(_)
        | ExprKind::AltPattern(_)
        | ExprKind::CapturePattern(_)
        | ExprKind::Pin(_) => "pattern matching outside a pattern",
        ExprKind::FlipFlop => "a flip-flop",
        ExprKind::Exec => "`BEGIN`/`END`",
        ExprKind::ShareableConstant => "a shareable-constant comment",
        ExprKind::SourceEncoding => "`__ENCODING__`, which waits for the Encoding class,",
        ExprKind::ForwardingArgs => "argument forwarding",
        ExprKind::Implicit(_) => "an elided hash value",
        ExprKind::Missing => "a syntax error",
        _ => "this expression",
    }
}

/// What a construct that does not compile is called.
pub(crate) fn node_name(kind: &ExprKind) -> (r: &'static str)
    ensures
        r == node_text(*kind),
{
    match kind {
        ExprKind::MatchLastLine => "a regexp in condition position",
        ExprKind::Splat(_) => "a splat",
        ExprKind::Rational | ExprKind::Imaginary => "a rational or complex literal",
        ExprKind::XStr => "a backtick command",
        ExprKind::MatchWrite => "a regexp that writes its named captures to locals",
        ExprKind::ArrayPattern(_)
        | ExprKind::FindPattern(_)
        | ExprKind::HashPattern(_)
        | ExprKind::AltPattern(_)
        | ExprKind::CapturePattern(_)
        | ExprKind::Pin(_) => "pattern matching outside a pattern",
        ExprKind::FlipFlop => "a flip-flop",
        ExprKind::Exec => "`BEGIN`/`END`",
        ExprKind::ShareableConstant => "a shareable-constant comment",
        ExprKind::SourceEncoding => "`__ENCODING__`, which waits for the Encoding class,",
        ExprKind::ForwardingArgs => "argument forwarding",
        ExprKind::Implicit(_) => "an elided hash value",
        ExprKind::Missing => "a syntax error",
        _ => "this expression",
    }
}

// ---------------------------------------------------------------------------
// The locals a body assigns
// ---------------------------------------------------------------------------

/// The name an expression assigns, where it assigns a local of its own scope.
pub open spec fn assigned_local(expr: Expr) -> Option<Seq<char>> {
    match expr.kind {
        ExprKind::Assign(assign) => match assign.target.kind {
            TargetKind::Var(VarRef::Local { name, depth }) => if depth == 0 {
                Some(name@)
            } else {
                None
            },
            _ => None,
        },
        _ => None,
    }
}

/// A list of names with another, which is there once.
pub open spec fn with_name(names: Seq<Seq<char>>, name: Option<Seq<char>>) -> Seq<Seq<char>> {
    match name {
        Some(name) => if names.contains(name) {
            names
        } else {
            names.push(name)
        },
        None => names,
    }
}

/// The names an expression assigns, behind those already found.
pub open spec fn assigned_in(expr: Expr, found: Seq<Seq<char>>) -> Seq<Seq<char>>
    decreases expr, 0nat,
{
    let found = with_name(found, assigned_local(expr));
    match expr.kind {
        ExprKind::Assign(assign) => assigned_in(assign.value, found),
        ExprKind::If(node) => {
            let found = assigned_in_all(node.then_body@, 0, found);
            let found = match node.else_body {
                Some(body) => assigned_in_all(body@, 0, found),
                None => found,
            };
            assigned_in(node.predicate, found)
        },
        ExprKind::While(node) => assigned_in(
            node.predicate,
            assigned_in_all(node.body@, 0, found),
        ),
        ExprKind::Case(node) => {
            let found = match node.predicate {
                Some(predicate) => assigned_in(predicate, found),
                None => found,
            };
            let found = match node.branches {
                CaseBranches::When(clauses) => assigned_in_clauses(clauses@, 0, found),
                CaseBranches::In(_) => found,
            };
            match node.else_body {
                Some(body) => assigned_in_all(body@, 0, found),
                None => found,
            }
        },
        ExprKind::Logical(node) => assigned_in(node.right, assigned_in(node.left, found)),
        ExprKind::Parens(body) => assigned_in_all(body@, 0, found),
        ExprKind::Begin(node) => assigned_in_all(node.body@, 0, found),
        ExprKind::Array(elements) => assigned_in_all(elements@, 0, found),
        ExprKind::Call(call) => {
            let found = match call.receiver {
                Some(receiver) => assigned_in(receiver, found),
                None => found,
            };
            assigned_in_all(call.args@, 0, found)
        },
        ExprKind::Break(Some(value)) | ExprKind::Next(Some(value)) | ExprKind::Return(
            Some(value),
        ) => assigned_in(*value, found),
        _ => found,
    }
}

/// The names several expressions assign.
pub open spec fn assigned_in_all(
    exprs: Seq<Expr>,
    from: nat,
    found: Seq<Seq<char>>,
) -> Seq<Seq<char>>
    decreases exprs, exprs.len() - from,
{
    if from >= exprs.len() {
        found
    } else {
        assigned_in_all(exprs, from + 1, assigned_in(exprs[from as int], found))
    }
}

/// The names the clauses of a `case` assign.
pub open spec fn assigned_in_clauses(
    clauses: Seq<WhenClause>,
    from: nat,
    found: Seq<Seq<char>>,
) -> Seq<Seq<char>>
    decreases clauses, clauses.len() - from,
{
    if from >= clauses.len() {
        found
    } else {
        let clause = clauses[from as int];
        assigned_in_clauses(
            clauses,
            from + 1,
            assigned_in_all(
                clause.body@,
                0,
                assigned_in_all(clause.conditions@, 0, found),
            ),
        )
    }
}

fn add_name(out: &mut Vec<Name>, name: &Name)
    ensures
        bytecode::pool(final(out)@) == with_name(bytecode::pool(old(out)@), Some(name@)),
{
    let ghost was = bytecode::pool(out@);
    let mut i: usize = 0;
    while i < out.len()
        invariant
            i <= out.len(),
            was == bytecode::pool(out@),
            forall|k: int| 0 <= k < i ==> #[trigger] was[k] != name@,
        decreases out.len() - i,
    {
        if bytecode::same_text(&out[i], name.as_str()) {
            assert(was[i as int] == name@);
            return;
        }
        assert(was[i as int] != name@);
        i += 1;
    }
    out.push(name.as_str().to_owned());
    assert(bytecode::pool(out@) =~= was.push(name@));
}

fn collect_locals(expr: &Expr, out: &mut Vec<Name>)
    ensures
        bytecode::pool(final(out)@) == assigned_in(*expr, bytecode::pool(old(out)@)),
    decreases *expr, 0nat,
{
    match &expr.kind {
        ExprKind::Assign(assign) => {
            if let TargetKind::Var(VarRef::Local { name, depth }) = &assign.target.kind {
                if *depth == 0 {
                    add_name(out, name);
                }
            }
            collect_locals(&assign.value, out);
        },
        ExprKind::If(node) => {
            collect_all(&node.then_body, out);
            if let Some(body) = &node.else_body {
                collect_all(body, out);
            }
            collect_locals(&node.predicate, out);
        },
        ExprKind::While(node) => {
            collect_all(&node.body, out);
            collect_locals(&node.predicate, out);
        },
        ExprKind::Case(node) => {
            if let Some(predicate) = &node.predicate {
                collect_locals(predicate, out);
            }
            if let CaseBranches::When(clauses) = &node.branches {
                collect_clauses(clauses, out);
            }
            if let Some(body) = &node.else_body {
                collect_all(body, out);
            }
        },
        ExprKind::Logical(node) => {
            collect_locals(&node.left, out);
            collect_locals(&node.right, out);
        },
        ExprKind::Parens(body) => collect_all(body, out),
        ExprKind::Begin(node) => collect_all(&node.body, out),
        ExprKind::Array(elements) => collect_all(elements, out),
        ExprKind::Call(call) => {
            if let Some(receiver) = &call.receiver {
                collect_locals(receiver, out);
            }
            collect_all(&call.args, out);
        },
        ExprKind::Break(Some(value)) => collect_locals(value, out),
        ExprKind::Next(Some(value)) => collect_locals(value, out),
        ExprKind::Return(Some(value)) => collect_locals(value, out),
        _ => {},
    }
}

fn collect_all(exprs: &Vec<Expr>, out: &mut Vec<Name>)
    ensures
        bytecode::pool(final(out)@) == assigned_in_all(exprs@, 0, bytecode::pool(old(out)@)),
    decreases *exprs, 0nat,
{
    let ghost was = bytecode::pool(out@);
    let mut i: usize = 0;
    while i < exprs.len()
        invariant
            i <= exprs.len(),
            assigned_in_all(exprs@, i as nat, bytecode::pool(out@)) == assigned_in_all(
                exprs@,
                0,
                was,
            ),
        decreases exprs.len() - i,
    {
        collect_locals(&exprs[i], out);
        i += 1;
    }
}

fn collect_clauses(clauses: &Vec<WhenClause>, out: &mut Vec<Name>)
    ensures
        bytecode::pool(final(out)@) == assigned_in_clauses(
            clauses@,
            0,
            bytecode::pool(old(out)@),
        ),
    decreases *clauses, 0nat,
{
    let ghost was = bytecode::pool(out@);
    let mut i: usize = 0;
    while i < clauses.len()
        invariant
            i <= clauses.len(),
            assigned_in_clauses(clauses@, i as nat, bytecode::pool(out@)) == assigned_in_clauses(
                clauses@,
                0,
                was,
            ),
        decreases clauses.len() - i,
    {
        collect_all(&clauses[i].conditions, out);
        collect_all(&clauses[i].body, out);
        i += 1;
    }
}

/// Every local of its own scope that a body assigns, in the order it is first
/// come to.
#[must_use]
pub fn declared_locals(statements: &Vec<Expr>) -> (r: Vec<Name>)
    ensures
        bytecode::pool(r@) == assigned_in_all(statements@, 0, Seq::empty()),
{
    let mut out: Vec<Name> = Vec::new();
    assert(bytecode::pool(out@) =~= Seq::empty());
    collect_all(statements, &mut out);
    out
}

} // verus!
