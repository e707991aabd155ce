//! What lowering leaves alone.
//!
//! Code is lowered behind the code that is there. What a construct emits, and
//! the jumps it aims, are its own.

use vstd::prelude::*;

use crate::ast::{
    Alias, ArrayPattern, Assign, AssignOp, Begin, BlockArg, Call, CapturePattern, Case,
    CaseBranches, Class, ConstPath, Def, Expr, ExprKind, FindPattern, For, Guard, HashEntry,
    HashEntryKind, HashLit, HashPattern, If, InClause, IntValue, Logical, LogicalOp, MatchPattern,
    Module, MultiTarget, PatternRest, RangeLit, RegexpLit, Rescue, RescueMod, SingletonClass, Span,
    StrPart, Super, Target, TargetKind, VarRef, WhenClause, While,
};
use crate::bytecode;
use crate::bytecode::{BinOp, BlockRef, CatchEntry, CatchKind, ClassDef, ConstScope, DefKind, Insn, MatchRef};
use crate::compile::code;
use crate::compile::code::{Code, IseqModel, Jump, LiteralModel, ParamModel, SiteModel, ZsuperModel};
use crate::compile::lower;
use crate::compile::lower::{Place, ERRINFO, FOR_ELEMENT, WIDEST};
use crate::compile::names;

verus! {

/// Whether a list of places has grown, by places in `from..to` alone.
pub open spec fn later(was: Seq<usize>, now: Seq<usize>, from: nat, to: nat) -> bool {
    &&& was.len() <= now.len()
    &&& forall|k: int| 0 <= k < was.len() ==> was[k] == #[trigger] now[k]
    &&& forall|k: int| was.len() <= k < now.len() ==> from <= #[trigger] now[k] < to
}

/// Whether places can be told apart: there are no more than a `usize` counts.
pub open spec fn placed(c: Code) -> bool {
    c.insns.len() <= usize::MAX
}

/// Whether code grew from `a` to `b`, and what was there is as it was: the
/// instructions, the protected ranges, and, but for the jumps that were added
/// to them, the loops around.
#[verifier::opaque]
pub open spec fn kept(a: Code, b: Code) -> bool {
    &&& a.insns.len() <= b.insns.len()
    &&& placed(b) ==> {
        &&& forall|i: int| 0 <= i < a.insns.len() ==> a.insns[i] == #[trigger] b.insns[i]
        &&& a.catch_table.len() <= b.catch_table.len()
        &&& forall|i: int|
            0 <= i < a.catch_table.len() ==> a.catch_table[i] == #[trigger] b.catch_table[i]
        &&& b.loops.len() == a.loops.len()
        &&& forall|k: int|
            0 <= k < a.loops.len() ==> later(
                a.loops[k].breaks,
                (#[trigger] b.loops[k]).breaks,
                a.insns.len(),
                b.insns.len(),
            )
    }
}

/// Whether code grew from `c` to `b`, and both grew from `a`.
pub open spec fn stays(a: Code, c: Code, b: Code) -> bool {
    &&& kept(a, b)
    &&& c.insns.len() <= b.insns.len()
}

/// Whether all of several places in code are behind what `a` has.
#[verifier::opaque]
pub open spec fn behind(a: Code, c: Code, at: Seq<usize>) -> bool {
    placed(c) ==> forall|k: int| 0 <= k < at.len() ==> a.insns.len() <= #[trigger] at[k]
}

/// Whether all of several lists of places are.
pub open spec fn all_behind(a: Code, c: Code, entries: Seq<Seq<usize>>) -> bool {
    forall|k: int| 0 <= k < entries.len() ==> behind(a, c, #[trigger] entries[k])
}

/// Code leaves itself alone.
pub proof fn lemma_kept_itself(c: Code)
    ensures
        kept(c, c),
{
    reveal(kept);
}

/// What was left alone twice was left alone.
pub proof fn lemma_kept_trans(a: Code, b: Code, c: Code)
    requires
        kept(a, b),
        kept(b, c),
    ensures
        kept(a, c),
{
    reveal(kept);
    if placed(c) {
        assert forall|i: int| 0 <= i < a.insns.len() implies a.insns[i] == #[trigger] c.insns[i] by {
            assert(b.insns[i] == c.insns[i]);
        }
        assert forall|i: int| 0 <= i < a.catch_table.len() implies a.catch_table[i]
            == #[trigger] c.catch_table[i] by {
            assert(b.catch_table[i] == c.catch_table[i]);
        }
        assert forall|k: int| 0 <= k < a.loops.len() implies later(
            a.loops[k].breaks,
            (#[trigger] c.loops[k]).breaks,
            a.insns.len(),
            c.insns.len(),
        ) by {
            let mid = b.loops[k].breaks;
            let now = c.loops[k].breaks;
            assert(later(a.loops[k].breaks, mid, a.insns.len(), b.insns.len()));
            assert(later(mid, now, b.insns.len(), c.insns.len()));
            assert forall|j: int| a.loops[k].breaks.len() <= j < now.len() implies a.insns.len()
                <= #[trigger] now[j] < c.insns.len() by {
                if j < mid.len() {
                    assert(mid[j] == now[j]);
                }
            }
            assert forall|j: int| 0 <= j < a.loops[k].breaks.len() implies a.loops[k].breaks[j]
                == #[trigger] now[j] by {
                assert(mid[j] == now[j]);
            }
        }
    }
}

/// Code that was left alone is no longer than what it grew to.
pub broadcast proof fn lemma_kept_len(a: Code, c: Code)
    requires
        #[trigger] kept(a, c),
    ensures
        a.insns.len() <= c.insns.len(),
{
    reveal(kept);
}

/// [`Code::slot`] leaves alone what was there.
pub broadcast proof fn lemma_kept_slot(a: Code, c: Code, name: Seq<char>)
    requires
        #[trigger] kept(a, c),
    ensures
        stays(a, c, #[trigger] c.slot(name)),
        c.slot(name).insns.len() == c.insns.len(),
{
    reveal(kept);
    reveal(Code::slot);
}

/// [`Code::symbol`] leaves alone what was there.
pub broadcast proof fn lemma_kept_symbol(a: Code, c: Code, name: Seq<char>)
    requires
        #[trigger] kept(a, c),
    ensures
        stays(a, c, #[trigger] c.symbol(name)),
        c.symbol(name).insns.len() == c.insns.len(),
{
    reveal(kept);
    reveal(Code::symbol);
}

/// [`Code::literal`] leaves alone what was there.
pub broadcast proof fn lemma_kept_literal(a: Code, c: Code, literal: LiteralModel)
    requires
        #[trigger] kept(a, c),
    ensures
        stays(a, c, #[trigger] c.literal(literal)),
        c.literal(literal).insns.len() == c.insns.len(),
{
    reveal(kept);
    reveal(Code::literal);
}

/// [`Code::push_child`] leaves alone what was there.
pub broadcast proof fn lemma_kept_push_child(a: Code, c: Code, child: IseqModel)
    requires
        #[trigger] kept(a, c),
    ensures
        stays(a, c, #[trigger] c.push_child(child)),
        c.push_child(child).insns.len() == c.insns.len(),
{
    reveal(kept);
    reveal(Code::push_child);
}

/// [`Code::push_definition`] leaves alone what was there.
pub broadcast proof fn lemma_kept_push_definition(a: Code, c: Code, name: u32, child: u32)
    requires
        #[trigger] kept(a, c),
    ensures
        stays(a, c, #[trigger] c.push_definition(name, child)),
        c.push_definition(name, child).insns.len() == c.insns.len(),
{
    reveal(kept);
    reveal(Code::push_definition);
}

/// [`Code::guard`] leaves alone what was there.
pub broadcast proof fn lemma_kept_guard(a: Code, c: Code, entry: CatchEntry)
    requires
        #[trigger] kept(a, c),
    ensures
        stays(a, c, #[trigger] c.guard(entry)),
        c.guard(entry).insns.len() == c.insns.len(),
{
    reveal(kept);
    reveal(Code::guard);
}

/// [`Code::next_at`] leaves alone what was there.
pub broadcast proof fn lemma_kept_next_at(a: Code, c: Code, target: nat)
    requires
        #[trigger] kept(a, c),
    ensures
        stays(a, c, #[trigger] c.next_at(target)),
        c.next_at(target).insns.len() == c.insns.len(),
{
    reveal(kept);
    reveal(Code::next_at);
}

/// [`Code::redo_at`] leaves alone what was there.
pub broadcast proof fn lemma_kept_redo_at(a: Code, c: Code, target: nat)
    requires
        #[trigger] kept(a, c),
    ensures
        stays(a, c, #[trigger] c.redo_at(target)),
        c.redo_at(target).insns.len() == c.insns.len(),
{
    reveal(kept);
    reveal(Code::redo_at);
}

/// [`Code::push_retry`] leaves alone what was there.
pub broadcast proof fn lemma_kept_push_retry(a: Code, c: Code, body_start: nat, base: nat)
    requires
        #[trigger] kept(a, c),
    ensures
        stays(a, c, #[trigger] c.push_retry(body_start, base)),
        c.push_retry(body_start, base).insns.len() == c.insns.len(),
{
    reveal(kept);
    reveal(Code::push_retry);
}

/// [`Code::pop_retry`] leaves alone what was there.
pub broadcast proof fn lemma_kept_pop_retry(a: Code, c: Code)
    requires
        #[trigger] kept(a, c),
    ensures
        stays(a, c, #[trigger] c.pop_retry()),
        c.pop_retry().insns.len() == c.insns.len(),
{
    reveal(kept);
    reveal(Code::pop_retry);
}

/// [`Code::owe`] leaves alone what was there.
pub broadcast proof fn lemma_kept_owe(a: Code, c: Code, owed: nat)
    requires
        #[trigger] kept(a, c),
    ensures
        stays(a, c, #[trigger] c.owe(owed)),
        c.owe(owed).insns.len() == c.insns.len(),
{
    reveal(kept);
    reveal(Code::owe);
}

/// [`Code::at_pattern_depth`] leaves alone what was there.
pub broadcast proof fn lemma_kept_at_pattern_depth(a: Code, c: Code, depth: nat)
    requires
        #[trigger] kept(a, c),
    ensures
        stays(a, c, #[trigger] c.at_pattern_depth(depth)),
        c.at_pattern_depth(depth).insns.len() == c.insns.len(),
{
    reveal(kept);
    reveal(Code::at_pattern_depth);
}

/// [`Code::with_pattern_key`] leaves alone what was there.
pub broadcast proof fn lemma_kept_with_pattern_key(a: Code, c: Code, key: Option<u16>)
    requires
        #[trigger] kept(a, c),
    ensures
        stays(a, c, #[trigger] c.with_pattern_key(key)),
        c.with_pattern_key(key).insns.len() == c.insns.len(),
{
    reveal(kept);
    reveal(Code::with_pattern_key);
}

/// [`Code::with_pattern_cache`] leaves alone what was there.
pub broadcast proof fn lemma_kept_with_pattern_cache(a: Code, c: Code, cache: Option<u16>)
    requires
        #[trigger] kept(a, c),
    ensures
        stays(a, c, #[trigger] c.with_pattern_cache(cache)),
        c.with_pattern_cache(cache).insns.len() == c.insns.len(),
{
    reveal(kept);
    reveal(Code::with_pattern_cache);
}

/// [`Code::another_once`] leaves alone what was there.
pub broadcast proof fn lemma_kept_another_once(a: Code, c: Code)
    requires
        #[trigger] kept(a, c),
    ensures
        stays(a, c, #[trigger] c.another_once()),
        c.another_once().insns.len() == c.insns.len(),
{
    reveal(kept);
    reveal(Code::another_once);
}

/// [`Code::at_depth`] leaves alone what was there.
pub broadcast proof fn lemma_kept_at_depth(a: Code, c: Code, depth: nat)
    requires
        #[trigger] kept(a, c),
    ensures
        stays(a, c, #[trigger] c.at_depth(depth)),
        c.at_depth(depth).insns.len() == c.insns.len(),
{
    reveal(kept);
    reveal(Code::at_depth);
}

/// [`Code::handle_at`] leaves alone what was there.
pub broadcast proof fn lemma_kept_handle_at(a: Code, c: Code, depth: nat)
    requires
        #[trigger] kept(a, c),
    ensures
        stays(a, c, #[trigger] c.handle_at(depth)),
        c.handle_at(depth).insns.len() == c.insns.len(),
{
    reveal(kept);
    reveal(Code::handle_at);
}

/// [`Code::push_site`] leaves alone what was there.
pub broadcast proof fn lemma_kept_push_site(a: Code, c: Code, site: SiteModel)
    requires
        #[trigger] kept(a, c),
    ensures
        stays(a, c, #[trigger] c.push_site(site)),
        c.push_site(site).insns.len() == c.insns.len(),
{
    reveal(kept);
    reveal(Code::push_site);
}

/// [`Code::push_class_def`] leaves alone what was there.
pub broadcast proof fn lemma_kept_push_class_def(a: Code, c: Code, def: ClassDef)
    requires
        #[trigger] kept(a, c),
    ensures
        stays(a, c, #[trigger] c.push_class_def(def)),
        c.push_class_def(def).insns.len() == c.insns.len(),
{
    reveal(kept);
    reveal(Code::push_class_def);
}

/// [`Code::emit`] leaves alone what was there.
pub broadcast proof fn lemma_kept_emit(a: Code, c: Code, insn: Insn)
    requires
        #[trigger] kept(a, c),
    ensures
        stays(a, c, #[trigger] c.emit(insn)),
        c.emit(insn).insns.len() == c.insns.len() + 1,
{
    reveal(kept);
    reveal(Code::emit);
}

/// [`Code::push_literal`] leaves alone what was there.
pub broadcast proof fn lemma_kept_push_literal(a: Code, c: Code, literal: LiteralModel)
    requires
        #[trigger] kept(a, c),
    ensures
        stays(a, c, #[trigger] c.push_literal(literal)),
        c.push_literal(literal).insns.len() == c.insns.len() + 1,
{
    reveal(Code::push_literal);
    lemma_kept_literal(a, c, literal);
    lemma_kept_emit(a, c.literal(literal), Insn::PushLit(c.literals.len() as u32));
}

/// [`Code::push_const`] leaves alone what was there.
pub broadcast proof fn lemma_kept_push_const(a: Code, c: Code, name: Seq<char>)
    requires
        #[trigger] kept(a, c),
    ensures
        stays(a, c, #[trigger] c.push_const(name)),
        c.push_const(name).insns.len() == c.insns.len() + 1,
{
    reveal(Code::push_const);
    lemma_kept_symbol(a, c, name);
    lemma_kept_emit(
        a,
        c.symbol(name),
        Insn::GetConst(c.symbol_at(name), ConstScope::Lexical),
    );
}

/// [`Code::send`] leaves alone what was there.
pub broadcast proof fn lemma_kept_send(a: Code, c: Code, name: Seq<char>, argc: u16, implicit_self: bool)
    requires
        #[trigger] kept(a, c),
    ensures
        stays(a, c, #[trigger] c.send(name, argc, implicit_self)),
        c.send(name, argc, implicit_self).insns.len() == c.insns.len() + 1,
{
    reveal(Code::send);
    reveal(kept);
    reveal(Code::symbol);
    reveal(Code::push_site);
    reveal(Code::emit);
}

/// [`Code::pops`] leaves alone what was there.
pub broadcast proof fn lemma_kept_pops(a: Code, c: Code, n: nat)
    requires
        #[trigger] kept(a, c),
    ensures
        stays(a, c, #[trigger] c.pops(n)),
    decreases n,
{
    reveal(Code::pops);
    if n > 0 {
        lemma_kept_emit(a, c, Insn::Pop);
        lemma_kept_pops(a, c.emit(Insn::Pop), (n - 1) as nat);
    }
}

/// A jump that is aimed leaves alone what came before it.
pub broadcast proof fn lemma_kept_patch(a: Code, c: Code, at: nat, target: nat)
    requires
        #[trigger] kept(a, c),
        at >= a.insns.len(),
    ensures
        stays(a, c, #[trigger] c.patch(at, target)),
        c.patch(at, target).insns.len() == c.insns.len(),
{
    reveal(kept);
    reveal(Code::patch);
}

/// A jump that is aimed leaves alone what came before it.
pub broadcast proof fn lemma_kept_patch_here(a: Code, c: Code, at: nat)
    requires
        #[trigger] kept(a, c),
        at >= a.insns.len(),
    ensures
        stays(a, c, #[trigger] c.patch_here(at)),
        c.patch_here(at).insns.len() == c.insns.len(),
{
    reveal(Code::patch_here);
    lemma_kept_patch(a, c, at, c.here());
}

/// Jumps that are aimed leave alone what came before them.
pub broadcast proof fn lemma_kept_patch_all(
    a: Code,
    c: Code,
    at: Seq<usize>,
    target: nat,
    was: Code,
)
    requires
        #[trigger] kept(a, c),
        #[trigger] behind(a, was, at),
        was.insns.len() <= c.insns.len(),
    ensures
        stays(a, c, #[trigger] c.patch_all(at, target)),
        c.patch_all(at, target).insns.len() == c.insns.len(),
    decreases at.len(),
{
    reveal(behind);
    reveal(Code::patch_all);
    if at.len() > 0 {
        let next = c.patch(at[0] as nat, target);
        reveal(Code::patch);
        if placed(c) {
            lemma_kept_patch(a, c, at[0] as nat, target);
            assert forall|k: int| 0 <= k < at.skip(1).len() implies a.insns.len()
                <= #[trigger] at.skip(1)[k] by {
                assert(at.skip(1)[k] == at[k + 1]);
            }
        } else {
            reveal(kept);
        }
        assert(behind(a, next, at.skip(1)));
        lemma_kept_patch_all(a, next, at.skip(1), target, next);
    }
}

/// A jump out of a loop is among those added to it.
pub broadcast proof fn lemma_kept_add_break(a: Code, c: Code, at: nat)
    requires
        #[trigger] kept(a, c),
        a.insns.len() <= at < c.insns.len(),
    ensures
        stays(a, c, #[trigger] c.add_break(at)),
        c.add_break(at).insns.len() == c.insns.len(),
{
    reveal(kept);
    reveal(Code::add_break);
    if placed(c) && c.loops.len() > 0 {
        let last = c.loops.len() - 1;
        assert(later(
            a.loops[last].breaks,
            c.loops[last].breaks,
            a.insns.len(),
            c.insns.len(),
        ));
    }
}

/// What a loop's body leaves alone, and the jumps out of it.
pub proof fn lemma_kept_loop(c: Code, inside: Code)
    requires
        kept(c.push_loop(), inside),
    ensures
        kept(c, inside.pop_loop()),
        inside.pop_loop().insns.len() == inside.insns.len(),
        inside.loops.len() > 0 ==> behind(c, inside, inside.loops.last().breaks),
{
    reveal(kept);
    reveal(behind);
    reveal(Code::push_loop);
    reveal(Code::pop_loop);
    if placed(inside) {
        let open = c.push_loop();
        let last = inside.loops.len() - 1;
        assert(later(
            open.loops[last].breaks,
            inside.loops[last].breaks,
            open.insns.len(),
            inside.insns.len(),
        ));
        assert forall|k: int| 0 <= k < c.loops.len() implies later(
            c.loops[k].breaks,
            (#[trigger] inside.pop_loop().loops[k]).breaks,
            c.insns.len(),
            inside.insns.len(),
        ) by {
            assert(open.loops[k] == c.loops[k]);
            assert(later(
                open.loops[k].breaks,
                inside.loops[k].breaks,
                open.insns.len(),
                inside.insns.len(),
            ));
        }
    }
}

/// Places behind code are behind what it grew from.
pub proof fn lemma_behind_before(a: Code, b: Code, c: Code, at: Seq<usize>)
    requires
        behind(b, c, at),
        a.insns.len() <= b.insns.len(),
    ensures
        behind(a, c, at),
{
    reveal(behind);
}

/// No places are behind any.
pub broadcast proof fn lemma_none_behind(a: Code, c: Code)
    ensures
        #[trigger] behind(a, c, Seq::empty()),
{
    reveal(behind);
}

/// One more place.
pub proof fn lemma_behind_push(a: Code, was: Code, c: Code, at: Seq<usize>, next: Code)
    requires
        kept(a, c),
        behind(a, was, at),
        was.insns.len() <= c.insns.len() <= next.insns.len(),
    ensures
        behind(a, next, at.push(c.here() as usize)),
{
    reveal(kept);
    reveal(behind);
}

/// The next place.
pub proof fn lemma_behind_one(a: Code, c: Code, next: Code)
    requires
        kept(a, c),
        c.insns.len() <= next.insns.len(),
    ensures
        behind(a, next, seq![c.here() as usize]),
{
    reveal(kept);
    reveal(behind);
}

/// Places stay behind as code grows.
pub proof fn lemma_behind_grown(a: Code, c: Code, b: Code, at: Seq<usize>)
    requires
        behind(a, c, at),
        c.insns.len() <= b.insns.len(),
    ensures
        behind(a, b, at),
{
    reveal(behind);
}

/// Another place among several.
pub proof fn lemma_behind_both(a: Code, was: Code, c: Code, at: Seq<usize>, place: usize)
    requires
        behind(a, was, at),
        behind(a, c, seq![place]),
        was.insns.len() <= c.insns.len(),
    ensures
        behind(a, c, at.push(place)),
{
    reveal(behind);
    if placed(c) {
        assert(seq![place][0] == place);
    }
}

/// A jump of several that is aimed leaves alone what came before it.
pub proof fn lemma_kept_entry(a: Code, c: Code, at: Seq<usize>, k: int)
    requires
        kept(a, c),
        behind(a, c, at),
        0 <= k < at.len(),
    ensures
        stays(a, c, c.patch_here(at[k] as nat)),
        c.patch_here(at[k] as nat).insns.len() == c.insns.len(),
{
    reveal(kept);
    reveal(behind);
    reveal(Code::patch_here);
    reveal(Code::patch);
}

/// The jumps behind a guard.
proof fn lemma_guard_tested(a: Code, c: Code, skip: nat, tests: nat)
    requires
        kept(a, c),
        a.insns.len() <= skip,
    ensures
        behind(
            a,
            c.emit(Insn::JumpIf(0)).patch_here(skip).at_depth(tests),
            seq![c.here() as usize],
        ),
        behind(
            a,
            c.emit(Insn::JumpUnless(0)).patch_here(skip).at_depth(tests),
            seq![c.here() as usize],
        ),
{
    broadcast use group_kept;

    lemma_behind_one(a, c, c.emit(Insn::JumpIf(0)).patch_here(skip).at_depth(tests));
    lemma_behind_one(a, c, c.emit(Insn::JumpUnless(0)).patch_here(skip).at_depth(tests));
}

/// What each operation on code leaves alone.
pub broadcast group group_kept {
    lemma_kept_len,
    lemma_kept_patch,
    lemma_kept_patch_here,
    lemma_kept_patch_all,
    lemma_kept_add_break,
    lemma_none_behind,
    lemma_kept_slot,
    lemma_kept_symbol,
    lemma_kept_literal,
    lemma_kept_push_child,
    lemma_kept_push_definition,
    lemma_kept_guard,
    lemma_kept_next_at,
    lemma_kept_redo_at,
    lemma_kept_push_retry,
    lemma_kept_pop_retry,
    lemma_kept_owe,
    lemma_kept_at_pattern_depth,
    lemma_kept_with_pattern_key,
    lemma_kept_with_pattern_cache,
    lemma_kept_another_once,
    lemma_kept_at_depth,
    lemma_kept_handle_at,
    lemma_kept_push_site,
    lemma_kept_push_class_def,
    lemma_kept_emit,
    lemma_kept_push_literal,
    lemma_kept_push_const,
    lemma_kept_send,
    lemma_kept_pops,
}

/// [`lower::push_word`] leaves alone what was there.
pub proof fn keep_push_word(
    a: Code,
    c: Code,
    word: &'static str,
)
    requires
        kept(a, c),
    ensures
        ({
            let after = lower::push_word(c, word);
            stays(a, c, after)
        }),
{
    broadcast use group_kept;
}

/// [`lower::local_slot`] leaves alone what was there.
pub proof fn keep_local_slot(
    a: Code,
    c: Code,
    name: Seq<char>,
    depth: u32,
    span: Span,
)
    requires
        kept(a, c),
    ensures
        lower::local_slot(c, name, depth, span) matches Ok((after, _, _)) ==> stays(a, c, after),
{
    broadcast use group_kept;
}

/// [`lower::read_local`] leaves alone what was there.
pub proof fn keep_read_local(
    a: Code,
    c: Code,
    name: Seq<char>,
    depth: u32,
    span: Span,
)
    requires
        kept(a, c),
    ensures
        lower::read_local(c, name, depth, span) matches Ok(after) ==> stays(a, c, after),
{
    broadcast use group_kept;

    keep_local_slot(a, c, name, depth, span);
}

/// [`lower::write_local`] leaves alone what was there.
pub proof fn keep_write_local(
    a: Code,
    c: Code,
    name: Seq<char>,
    depth: u32,
    span: Span,
)
    requires
        kept(a, c),
    ensures
        lower::write_local(c, name, depth, span) matches Ok(after) ==> stays(a, c, after),
{
    broadcast use group_kept;

    keep_local_slot(a, c, name, depth, span);
}

/// [`lower::lower_var`] leaves alone what was there.
pub proof fn keep_var(
    a: Code,
    c: Code,
    var: VarRef,
    span: Span,
)
    requires
        kept(a, c),
    ensures
        lower::lower_var(c, var, span) matches Ok(after) ==> stays(a, c, after),
{
    broadcast use group_kept;

    if let VarRef::Local { name, depth } = var {
        keep_read_local(a, c, name@, depth, span);
    }
}

/// [`lower::push_locals`] leaves alone what was there.
pub proof fn keep_push_locals(
    a: Code,
    c: Code,
    slots: Seq<u16>,
    from: nat,
)
    requires
        kept(a, c),
    ensures
        ({
            let after = lower::push_locals(c, slots, from);
            stays(a, c, after)
        }),
    decreases slots.len() - from,
{
    broadcast use group_kept;

    if from < slots.len() {
        keep_push_locals(a, c.emit(Insn::GetLocal(slots[from as int], 0)), slots, from + 1);
    }
}

/// [`lower::read_place`] leaves alone what was there.
pub proof fn keep_read_place(
    a: Code,
    c: Code,
    place: Place,
)
    requires
        kept(a, c),
    ensures
        ({
            let after = lower::read_place(c, place);
            stays(a, c, after)
        }),
{
    broadcast use group_kept;

    if let Place::Send { receiver, args, get } = place {
        keep_push_locals(a, c.emit(Insn::GetLocal(receiver, 0)), args, 0);
    }
}

/// [`lower::write_place`] leaves alone what was there.
pub proof fn keep_write_place(
    a: Code,
    c: Code,
    place: Place,
)
    requires
        kept(a, c),
    ensures
        ({
            let after = lower::write_place(c, place);
            stays(a, c, after)
        }),
{
    broadcast use group_kept;

    if let Place::Send { receiver, args, get } = place {
        let name = code::hidden("%val"@, c.here());
        let parked = c.slot_at(name);
        let c = c.slot(name).emit(Insn::SetLocal(parked, 0)).emit(Insn::GetLocal(receiver, 0));
        keep_push_locals(a, c, args, 0);
    }
}

/// [`lower::lower_parked`] leaves alone what was there.
pub proof fn keep_parked(
    a: Code,
    c: Code,
    expr: Expr,
)
    requires
        kept(a, c),
    ensures
        lower::lower_parked(c, expr) matches Ok((after, _)) ==> stays(a, c, after),
    decreases expr, 1nat,
{
    broadcast use group_kept;

    keep_expr(a, c, expr);
}

/// [`lower::lower_parked_args`] leaves alone what was there.
pub proof fn keep_parked_args(
    a: Code,
    c: Code,
    args: Seq<Expr>,
    from: nat,
    slots: Seq<u16>,
    span: Span,
)
    requires
        kept(a, c),
    ensures
        lower::lower_parked_args(c, args, from, slots, span) matches Ok((after, made)) ==> stays(a, c, after),
    decreases args, args.len() - from,
{
    broadcast use group_kept;

    if from < args.len() {
        let arg = args[from as int];
        if !(arg.kind is Splat || arg.kind is Hash) {
            keep_parked(a, c, arg);
            if let Ok((c, slot)) = lower::lower_parked(c, arg) {
                keep_parked_args(a, c, args, from + 1, slots.push(slot), span);
            }
        }
    }
}

/// [`lower::lower_place`] leaves alone what was there.
pub proof fn keep_place(
    a: Code,
    c: Code,
    target: Target,
)
    requires
        kept(a, c),
    ensures
        lower::lower_place(c, target) matches Ok((after, made)) ==> stays(a, c, after),
    decreases target, 1nat,
{
    broadcast use group_kept;

    match target.kind {
        TargetKind::Var(var) => {
            if let VarRef::Local { name, depth } = var {
                keep_local_slot(a, c, name@, depth, target.span);
            }
        },
        TargetKind::Call(call) => {
            if !call.safe_nav {
                keep_parked(a, c, call.receiver);
            }
        },
        TargetKind::Index(index) => {
            if !index.block {
                if !(index.args@.len() >= u16::MAX) {
                    keep_parked(a, c, index.receiver);
                    if let Ok((c, receiver)) = lower::lower_parked(c, index.receiver) {
                        keep_parked_args(a, c, index.args@, 0, Seq::empty(), target.span);
                    }
                }
            }
        },
        _ => {},
    }
}

/// [`lower::lower_const_path`] leaves alone what was there.
pub proof fn keep_const_path(
    a: Code,
    c: Code,
    path: ConstPath,
    span: Span,
)
    requires
        kept(a, c),
    ensures
        lower::lower_const_path(c, path, span) matches Ok((after, _, how)) ==> stays(a, c, after),
    decreases path, 0nat,
{
    broadcast use group_kept;

    if let Some(name) = path.name {
        if let Some(parent) = path.parent {
            keep_expr(a, c, parent);
        }
    }
}

/// [`lower::lower_const_target`] leaves alone what was there.
pub proof fn keep_const_target(
    a: Code,
    c: Code,
    target: Target,
)
    requires
        kept(a, c),
    ensures
        lower::lower_const_target(c, target) matches Ok((after, _, how)) ==> stays(a, c, after),
    decreases target, 1nat,
{
    broadcast use group_kept;

    if let TargetKind::ConstPath(path) = target.kind {
        keep_const_path(a, c, *path, target.span);
    }
}

/// [`lower::lower_assign`] leaves alone what was there.
pub proof fn keep_assign(
    a: Code,
    c: Code,
    assign: Assign,
    span: Span,
)
    requires
        kept(a, c),
    ensures
        lower::lower_assign(c, assign, span) matches Ok(after) ==> stays(a, c, after),
    decreases assign, 1nat,
{
    broadcast use group_kept;

    if lower::names_constant(assign.target) {
        keep_const_target(a, c, assign.target);
        if let Ok((c, name, how)) = lower::lower_const_target(c, assign.target) {
            if assign.op is Assign {
                keep_expr(a, c, assign.value);
            }
        }
    } else {
        if assign.target.kind is Multi {
            if assign.op is Assign {
                keep_multi_assign(a, c, assign, span);
            }
        } else {
            keep_place(a, c, assign.target);
            if let Ok((c, place)) = lower::lower_place(c, assign.target) {
                match assign.op {
                    AssignOp::Assign => {
                        keep_expr(a, c, assign.value);
                        if let Ok(c) = lower::lower_expr(c, assign.value) {
                            keep_write_place(a, c.emit(Insn::Dup), place);
                        }
                    },
                    AssignOp::Binary(op) => {
                        if let Some(op) = lower::operator(op@) {
                            keep_read_place(a, c, place);
                            keep_expr(a, lower::read_place(c, place), assign.value);
                            if let Ok(c) = lower::lower_expr(lower::read_place(c, place), assign.value) {
                                keep_write_place(a, c.emit(Insn::BinOp(op)).emit(Insn::Dup), place);
                            }
                        }
                    },
                    AssignOp::Or | AssignOp::And => {
                        let keep = if assign.op is Or {
                            Jump::IfKeep
                        } else {
                            Jump::UnlessKeep
                        };
                        keep_read_place(a, c, place);
                        let c = lower::read_place(c, place);
                        let skip = c.here();
                        keep_expr(a, c.emit(keep.over(0)).emit(Insn::Pop), assign.value);
                        if let Ok(c) = lower::lower_expr(c.emit(keep.over(0)).emit(Insn::Pop), assign.value) {
                            keep_write_place(a, c.emit(Insn::Dup), place);
                        }
                    },
                }
            }
        }
    }
}

/// [`lower::masgn_array`] leaves alone what was there.
pub proof fn keep_masgn_array(
    a: Code,
    c: Code,
)
    requires
        kept(a, c),
    ensures
        ({
            let after = lower::masgn_array(c);
            stays(a, c, after)
        }),
{
    broadcast use group_kept;
}

/// [`lower::lower_multi_assign`] leaves alone what was there.
pub proof fn keep_multi_assign(
    a: Code,
    c: Code,
    assign: Assign,
    span: Span,
)
    requires
        kept(a, c),
    ensures
        lower::lower_multi_assign(c, assign, span) matches Ok(after) ==> stays(a, c, after),
    decreases assign, 0nat,
{
    broadcast use group_kept;

    if let TargetKind::Multi(multi) = assign.target.kind {
        keep_prepared(a, c, *multi, Seq::empty());
        if let Ok((c, places)) = lower::lower_prepared(c, *multi, Seq::empty()) {
            keep_expr(a, c, assign.value);
            if let Ok(c) = lower::lower_expr(c, assign.value) {
                let c = c.emit(Insn::Dup);
                if !(assign.value.kind is Array) {
                    keep_masgn_array(a, c);
                }
                let c = if assign.value.kind is Array {
                    c
                } else {
                    lower::masgn_array(c)
                };
                keep_spread(a, c, *multi, places, 0, span);
            }
        }
    }
}

/// [`lower::lower_prepared`] leaves alone what was there.
pub proof fn keep_prepared(
    a: Code,
    c: Code,
    multi: MultiTarget,
    places: Seq<Option<Place>>,
)
    requires
        kept(a, c),
    ensures
        lower::lower_prepared(c, multi, places) matches Ok((after, made)) ==> stays(a, c, after),
    decreases multi, 1nat,
{
    broadcast use group_kept;

    keep_prepared_all(a, c, multi.lefts@, 0, places);
    if let Ok((c, places)) = lower::lower_prepared_all(c, multi.lefts@, 0, places) {
        if let Some(rest) = multi.rest {
            match rest.kind {
                TargetKind::Splat(Some(inner)) => {
                    keep_prepared_one(a, c, *inner, places);
                },
                TargetKind::Splat(None) => {},
                _ => {
                    keep_prepared_one(a, c, rest, places);
                },
            }
        }
        let middle = match multi.rest {
            Some(rest) => match rest.kind {
                TargetKind::Splat(Some(inner)) => lower::lower_prepared_one(c, *inner, places),
                TargetKind::Splat(None) => Ok((c, places)),
                _ => lower::lower_prepared_one(c, rest, places),
            },
            None => Ok((c, places)),
        };
        if let Ok((c, places)) = middle {
            keep_prepared_all(a, c, multi.rights@, 0, places);
        }
    }
}

/// [`lower::lower_prepared_all`] leaves alone what was there.
pub proof fn keep_prepared_all(
    a: Code,
    c: Code,
    targets: Seq<Target>,
    from: nat,
    places: Seq<Option<Place>>,
)
    requires
        kept(a, c),
    ensures
        lower::lower_prepared_all(c, targets, from, places) matches Ok((after, made)) ==> stays(a, c, after),
    decreases targets, targets.len() - from,
{
    broadcast use group_kept;

    if from < targets.len() {
        keep_prepared_one(a, c, targets[from as int], places);
        if let Ok((c, places)) = lower::lower_prepared_one(c, targets[from as int], places) {
            keep_prepared_all(a, c, targets, from + 1, places);
        }
    }
}

/// [`lower::lower_prepared_one`] leaves alone what was there.
pub proof fn keep_prepared_one(
    a: Code,
    c: Code,
    target: Target,
    places: Seq<Option<Place>>,
)
    requires
        kept(a, c),
    ensures
        lower::lower_prepared_one(c, target, places) matches Ok((after, made)) ==> stays(a, c, after),
    decreases target, 2nat,
{
    broadcast use group_kept;

    if !(lower::names_constant(target)) {
        match target.kind {
            TargetKind::Multi(inner) => {
                keep_prepared(a, c, *inner, places.push(None));
            },
            _ => {
                keep_place(a, c, target);
            },
        }
    }
}

/// [`lower::lower_spread`] leaves alone what was there.
pub proof fn keep_spread(
    a: Code,
    c: Code,
    multi: MultiTarget,
    places: Seq<Option<Place>>,
    used: nat,
    span: Span,
)
    requires
        kept(a, c),
    ensures
        lower::lower_spread(c, multi, places, used, span) matches Ok((after, _)) ==> stays(a, c, after),
    decreases multi, 1nat,
{
    broadcast use group_kept;

    if !(multi.lefts@.len() > WIDEST || multi.rights@.len() > WIDEST) {
        let c = c.emit(Insn::Dup)
            .emit(Insn::PushInt(multi.lefts@.len() as i64))
            .emit(if multi.rest is Some { Insn::PushTrue } else { Insn::PushFalse })
            .emit(Insn::PushInt(multi.rights@.len() as i64))
            .send("__masgn_spread__"@, 3, false);
        keep_spread_all(a, c, multi.lefts@, 0, 0, places, used, span);
        if let Ok((c, used)) = lower::lower_spread_all(c, multi.lefts@, 0, 0, places, used, span) {
            let lefts = multi.lefts@.len() as int;
            if let Some(rest) = multi.rest {
                match rest.kind {
                    TargetKind::Splat(Some(inner)) => {
                        keep_spread_one(a, c, lefts, *inner, places, used, span);
                    },
                    TargetKind::Splat(None) => {},
                    _ => {
                        keep_spread_one(a, c, lefts, rest, places, used, span);
                    },
                }
            }
            let middle = match multi.rest {
                Some(rest) => match rest.kind {
                    TargetKind::Splat(Some(inner)) => lower::lower_spread_one(c, lefts, *inner, places, used, span),
                    TargetKind::Splat(None) => Ok((c, used)),
                    _ => lower::lower_spread_one(c, lefts, rest, places, used, span),
                },
                None => Ok((c, used)),
            };
            if let Ok((c, used)) = middle {
                keep_spread_all(a, c,
                    multi.rights@,
                    0,
                    if multi.rest is Some { lefts + 1 } else { lefts },
                    places,
                    used,
                    span,
                );
            }
        }
    }
}

/// [`lower::lower_spread_all`] leaves alone what was there.
pub proof fn keep_spread_all(
    a: Code,
    c: Code,
    targets: Seq<Target>,
    from: nat,
    index: int,
    places: Seq<Option<Place>>,
    used: nat,
    span: Span,
)
    requires
        kept(a, c),
    ensures
        lower::lower_spread_all(c, targets, from, index, places, used, span) matches Ok((after, _)) ==> stays(a, c, after),
    decreases targets, targets.len() - from,
{
    broadcast use group_kept;

    if from < targets.len() {
        keep_spread_one(a, c, index, targets[from as int], places, used, span);
        if let Ok((c, used)) = lower::lower_spread_one(c, index, targets[from as int], places, used, span) {
            keep_spread_all(a, c, targets, from + 1, index + 1, places, used, span);
        }
    }
}

/// [`lower::lower_spread_one`] leaves alone what was there.
pub proof fn keep_spread_one(
    a: Code,
    c: Code,
    index: int,
    target: Target,
    places: Seq<Option<Place>>,
    used: nat,
    span: Span,
)
    requires
        kept(a, c),
    ensures
        lower::lower_spread_one(c, index, target, places, used, span) matches Ok((after, _)) ==> stays(a, c, after),
    decreases target, 2nat,
{
    broadcast use group_kept;

    let c = c.emit(Insn::Dup).emit(Insn::PushInt(index as i64)).send("[]"@, 1, false);
    if used < places.len() {
        if lower::names_constant(target) {
            keep_const_target(a, c, target);
        } else {
            match target.kind {
                TargetKind::Multi(inner) => {
                    keep_masgn_array(a, c);
                    keep_spread(a, lower::masgn_array(c), *inner, places, used + 1, span);
                },
                _ => {
                    if let Some(place) = places[used as int] {
                        keep_write_place(a, c, place);
                    }
                },
            }
        }
    }
}

/// [`lower::lower_body`] leaves alone what was there.
pub proof fn keep_body(
    a: Code,
    c: Code,
    body: Seq<Expr>,
    from: nat,
    keep: bool,
)
    requires
        kept(a, c),
    ensures
        lower::lower_body(c, body, from, keep) matches Ok(after) ==> stays(a, c, after),
    decreases body, body.len() - from,
{
    broadcast use group_kept;

    if !(body.len() == 0) {
        if from < body.len() {
            keep_expr(a, c, body[from as int]);
            if let Ok(c) = lower::lower_expr(c, body[from as int]) {
                if !(from + 1 == body.len()) {
                    keep_body(a, c.emit(Insn::Pop), body, from + 1, keep);
                }
            }
        }
    }
}

/// [`lower::lower_body_or_nil`] leaves alone what was there.
pub proof fn keep_body_or_nil(
    a: Code,
    c: Code,
    body: Option<Vec<Expr>>,
)
    requires
        kept(a, c),
    ensures
        lower::lower_body_or_nil(c, body) matches Ok(after) ==> stays(a, c, after),
    decreases body, 0nat,
{
    broadcast use group_kept;

    if let Some(body) = body {
        keep_body(a, c, body@, 0, true);
    }
}

/// [`lower::lower_or_nil`] leaves alone what was there.
pub proof fn keep_or_nil(
    a: Code,
    c: Code,
    expr: Option<Expr>,
)
    requires
        kept(a, c),
    ensures
        lower::lower_or_nil(c, expr) matches Ok(after) ==> stays(a, c, after),
    decreases expr, 0nat,
{
    broadcast use group_kept;

    if let Some(expr) = expr {
        keep_expr(a, c, expr);
    }
}

/// [`lower::lower_value`] leaves alone what was there.
pub proof fn keep_value(
    a: Code,
    c: Code,
    value: Option<Box<Expr>>,
)
    requires
        kept(a, c),
    ensures
        lower::lower_value(c, value) matches Ok(after) ==> stays(a, c, after),
    decreases value, 0nat,
{
    broadcast use group_kept;

    if let Some(value) = value {
        keep_expr(a, c, *value);
    }
}

/// [`lower::lower_each`] leaves alone what was there.
pub proof fn keep_each(
    a: Code,
    c: Code,
    exprs: Seq<Expr>,
    from: nat,
)
    requires
        kept(a, c),
    ensures
        lower::lower_each(c, exprs, from) matches Ok(after) ==> stays(a, c, after),
    decreases exprs, exprs.len() - from,
{
    broadcast use group_kept;

    if from < exprs.len() {
        keep_expr(a, c, exprs[from as int]);
        if let Ok(c) = lower::lower_expr(c, exprs[from as int]) {
            keep_each(a, c, exprs, from + 1);
        }
    }
}

/// [`lower::lower_int`] leaves alone what was there.
pub proof fn keep_int(
    a: Code,
    c: Code,
    number: IntValue,
    span: Span,
)
    requires
        kept(a, c),
    ensures
        lower::lower_int(c, number, span) matches Ok(after) ==> stays(a, c, after),
{
    broadcast use group_kept;
}

/// [`lower::lower_expr`] leaves alone what was there.
pub proof fn keep_expr(
    a: Code,
    c: Code,
    expr: Expr,
)
    requires
        kept(a, c),
    ensures
        lower::lower_expr(c, expr) matches Ok(after) ==> stays(a, c, after),
    decreases expr, 0nat,
{
    broadcast use group_kept;

    let span = expr.span;
    match expr.kind {
        ExprKind::Int(number) => {
            keep_int(a, c, number, span);
        },
        ExprKind::Str(parts) => {
            if !(names::all_bytes(parts@)) {
                keep_interpolated(a, c, parts@);
            }
        },
        ExprKind::Regexp(regexp) => {
            keep_regexp(a, c, regexp, span);
        },
        ExprKind::Sym(parts) => {
            if !(names::all_bytes(parts@)) {
                keep_interpolated(a, c, parts@);
            }
        },
        ExprKind::Array(elements) => {
            keep_array(a, c, elements@, span);
        },
        ExprKind::Hash(hash) => {
            keep_hash(a, c, hash);
        },
        ExprKind::Range(range) => {
            keep_range(a, c, *range);
        },
        ExprKind::Var(var) => {
            keep_var(a, c, var, span);
        },
        ExprKind::Alias(alias) => {
            keep_alias(a, c, *alias, span);
        },
        ExprKind::Undef(names) => {
            keep_undef(a, c, names@, 0, span);
        },
        ExprKind::Assign(assign) => {
            keep_assign(a, c, *assign, span);
        },
        ExprKind::If(node) => {
            keep_if(a, c, *node);
        },
        ExprKind::While(node) => {
            keep_while(a, c, *node);
        },
        ExprKind::For(node) => {
            keep_for(a, c, *node, span);
        },
        ExprKind::Case(node) => {
            keep_case(a, c, *node, span);
        },
        ExprKind::MatchPattern(node) => {
            keep_match(a, c, *node);
        },
        ExprKind::Logical(node) => {
            keep_logical(a, c, *node);
        },
        ExprKind::Parens(body) => {
            keep_body(a, c, body@, 0, true);
        },
        ExprKind::Call(call) => {
            keep_call(a, c, *call, span);
        },
        ExprKind::Begin(node) => {
            if node.rescues@.len() == 0 && node.else_body is None && node.ensure_body is None {
                keep_body(a, c, node.body@, 0, true);
            } else {
                keep_begin(a, c, *node);
            }
        },
        ExprKind::RescueMod(node) => {
            keep_rescue_mod(a, c, *node);
        },
        ExprKind::Retry => {
            keep_retry(a, c, span);
        },
        ExprKind::Redo => {
            keep_redo(a, c, span);
        },
        ExprKind::Break(value) => {
            keep_jump_out(a, c, value, true, span);
        },
        ExprKind::Next(value) => {
            keep_jump_out(a, c, value, false, span);
        },
        ExprKind::ConstPath(path) => {
            keep_const_path(a, c, *path, span);
        },
        ExprKind::Class(class) => {
            keep_class(a, c, *class);
        },
        ExprKind::Module(module) => {
            keep_module(a, c, *module);
        },
        ExprKind::SingletonClass(node) => {
            keep_singleton(a, c, *node);
        },
        ExprKind::Defined(inner) => {
            keep_swallowing(a, c, *inner, span);
        },
        ExprKind::Def(def) => {
            keep_def(a, c, *def, span);
        },
        ExprKind::Yield(args) => {
            keep_arguments(a, c, "yield"@, args@, false);
        },
        ExprKind::Super(node) => {
            keep_super(a, c, *node, span);
        },
        ExprKind::Return(value) => {
            keep_value(a, c, value);
        },
        _ => {},
    }
}

/// [`lower::lower_interpolated`] leaves alone what was there.
pub proof fn keep_interpolated(
    a: Code,
    c: Code,
    parts: Seq<StrPart>,
)
    requires
        kept(a, c),
    ensures
        lower::lower_interpolated(c, parts) matches Ok(after) ==> stays(a, c, after),
    decreases parts, parts.len() + 1,
{
    broadcast use group_kept;

    keep_parts(a, c.push_literal(LiteralModel::Str(Seq::empty())), parts, 0);
}

/// [`lower::lower_parts`] leaves alone what was there.
pub proof fn keep_parts(
    a: Code,
    c: Code,
    parts: Seq<StrPart>,
    from: nat,
)
    requires
        kept(a, c),
    ensures
        lower::lower_parts(c, parts, from) matches Ok(after) ==> stays(a, c, after),
    decreases parts, parts.len() - from,
{
    broadcast use group_kept;

    if from < parts.len() {
        match parts[from as int] {
            StrPart::Bytes(bytes) => {
                keep_parts(a, c.push_literal(LiteralModel::Str(bytes@)).send("+"@, 1, false),
                    parts,
                    from + 1,
                );
            },
            StrPart::Interp(body) => {
                keep_body(a, c, body@, 0, true);
                if let Ok(c) = lower::lower_body(c, body@, 0, true) {
                    keep_parts(a, c.send("to_s"@, 0, false).send("+"@, 1, false), parts, from + 1);
                }
            },
        }
    }
}

/// [`lower::lower_regexp`] leaves alone what was there.
pub proof fn keep_regexp(
    a: Code,
    c: Code,
    regexp: RegexpLit,
    span: Span,
)
    requires
        kept(a, c),
    ensures
        lower::lower_regexp(c, regexp, span) matches Ok(after) ==> stays(a, c, after),
    decreases regexp, 0nat,
{
    broadcast use group_kept;

    let options = names::options_of(regexp.flags) as i64;
    if !regexp.flags.encoding {
        if !(names::all_bytes(regexp.parts@)) {
            keep_interpolated(a, c, regexp.parts@);
        }
    }
}

/// [`lower::lower_array`] leaves alone what was there.
pub proof fn keep_array(
    a: Code,
    c: Code,
    elements: Seq<Expr>,
    span: Span,
)
    requires
        kept(a, c),
    ensures
        lower::lower_array(c, elements, span) matches Ok(after) ==> stays(a, c, after),
    decreases elements, elements.len() + 1,
{
    broadcast use group_kept;

    if lower::has_splat(elements) {
        keep_splatted(a, c, elements, 0, false, 0);
    } else {
        keep_each(a, c, elements, 0);
    }
}

/// [`lower::close_run`] leaves alone what was there.
pub proof fn keep_close_run(
    a: Code,
    c: Code,
    open: bool,
    run: u32,
)
    requires
        kept(a, c),
    ensures
        ({
            let after = lower::close_run(c, open, run);
            stays(a, c, after)
        }),
{
    broadcast use group_kept;
}

/// [`lower::lower_splatted`] leaves alone what was there.
pub proof fn keep_splatted(
    a: Code,
    c: Code,
    elements: Seq<Expr>,
    from: nat,
    open: bool,
    run: u32,
)
    requires
        kept(a, c),
    ensures
        lower::lower_splatted(c, elements, from, open, run) matches Ok(after) ==> stays(a, c, after),
    decreases elements, elements.len() - from,
{
    broadcast use group_kept;

    if from >= elements.len() {
        keep_close_run(a, c, open, run);
    } else {
        let element = elements[from as int];
        match element.kind {
            ExprKind::Splat(inner) => {
                if let Some(inner) = inner {
                    keep_close_run(a, c, open, run);
                    keep_expr(a, lower::close_run(c, open, run), *inner);
                    if let Ok(c) = lower::lower_expr(lower::close_run(c, open, run), *inner) {
                        keep_splatted(a, c.send("__concat_splat__"@, 1, false),
                            elements,
                            from + 1,
                            true,
                            0,
                        );
                    }
                }
            },
            _ => {
                keep_expr(a, c, element);
                if let Ok(c) = lower::lower_expr(c, element) {
                    keep_splatted(a, c, elements, from + 1, open, (run + 1) as u32);
                }
            },
        }
    }
}

/// [`lower::lower_hash`] leaves alone what was there.
pub proof fn keep_hash(
    a: Code,
    c: Code,
    hash: HashLit,
)
    requires
        kept(a, c),
    ensures
        lower::lower_hash(c, hash) matches Ok(after) ==> stays(a, c, after),
    decreases hash, 0nat,
{
    broadcast use group_kept;

    keep_entries(a, c.push_const("Hash"@).send("__literal__"@, 0, false), hash.entries@, 0);
}

/// [`lower::lower_entries`] leaves alone what was there.
pub proof fn keep_entries(
    a: Code,
    c: Code,
    entries: Seq<HashEntry>,
    from: nat,
)
    requires
        kept(a, c),
    ensures
        lower::lower_entries(c, entries, from) matches Ok(after) ==> stays(a, c, after),
    decreases entries, entries.len() - from,
{
    broadcast use group_kept;

    if from < entries.len() {
        match entries[from as int].kind {
            HashEntryKind::Pair { key, value } => {
                keep_expr(a, c.emit(Insn::Dup), key);
                if let Ok(c) = lower::lower_expr(c.emit(Insn::Dup), key) {
                    keep_expr(a, c, value);
                    if let Ok(c) = lower::lower_expr(c, value) {
                        keep_entries(a, c.send("[]="@, 2, false).emit(Insn::Pop), entries, from + 1);
                    }
                }
            },
            HashEntryKind::Splat(Some(inner)) => {
                keep_expr(a, c.emit(Insn::Dup), inner);
                if let Ok(c) = lower::lower_expr(c.emit(Insn::Dup), inner) {
                    keep_entries(a, c.send("__merge_literal__"@, 1, false).emit(Insn::Pop),
                        entries,
                        from + 1,
                    );
                }
            },
            HashEntryKind::Splat(None) => {
                keep_entries(a, c, entries, from + 1);
            },
        }
    }
}

/// [`lower::lower_range`] leaves alone what was there.
pub proof fn keep_range(
    a: Code,
    c: Code,
    range: RangeLit,
)
    requires
        kept(a, c),
    ensures
        lower::lower_range(c, range) matches Ok(after) ==> stays(a, c, after),
    decreases range, 0nat,
{
    broadcast use group_kept;

    keep_or_nil(a, c.push_const("Range"@), range.left);
    if let Ok(c) = lower::lower_or_nil(c.push_const("Range"@), range.left) {
        keep_or_nil(a, c, range.right);
    }
}

/// [`lower::lower_alias`] leaves alone what was there.
pub proof fn keep_alias(
    a: Code,
    c: Code,
    alias: Alias,
    span: Span,
)
    requires
        kept(a, c),
    ensures
        lower::lower_alias(c, alias, span) matches Ok(after) ==> stays(a, c, after),
{
    broadcast use group_kept;
}

/// [`lower::lower_undef`] leaves alone what was there.
pub proof fn keep_undef(
    a: Code,
    c: Code,
    names: Seq<Expr>,
    from: nat,
    span: Span,
)
    requires
        kept(a, c),
    ensures
        lower::lower_undef(c, names, from, span) matches Ok(after) ==> stays(a, c, after),
    decreases names, names.len() - from,
{
    broadcast use group_kept;

    if from < names.len() {
        if let Ok(name) = lower::method_name(names[from as int], span) {
            keep_undef(a, c.symbol(name).emit(Insn::Undef(c.symbol_at(name))), names, from + 1, span);
        }
    }
}

/// [`lower::lower_if`] leaves alone what was there.
pub proof fn keep_if(
    a: Code,
    c: Code,
    node: If,
)
    requires
        kept(a, c),
    ensures
        lower::lower_if(c, node) matches Ok(after) ==> stays(a, c, after),
    decreases node, 0nat,
{
    broadcast use group_kept;

    keep_expr(a, c, node.predicate);
    if let Ok(c) = lower::lower_expr(c, node.predicate) {
        let to_else = c.here();
        let c = c.emit(Insn::JumpUnless(0));
        let before = c.depth;
        if node.unless {
            if let Some(body) = node.else_body {
                keep_body(a, c, body@, 0, true);
            }
        } else {
            keep_body(a, c, node.then_body@, 0, true);
        }
        let first = if node.unless {
            match node.else_body {
                Some(body) => lower::lower_body(c, body@, 0, true),
                None => Ok(c.emit(Insn::PushNil)),
            }
        } else {
            lower::lower_body(c, node.then_body@, 0, true)
        };
        if let Ok(c) = first {
            let to_end = c.here();
            let c = c.emit(Insn::Jump(0)).patch_here(to_else).at_depth(before);
            if node.unless {
                keep_body(a, c, node.then_body@, 0, true);
            } else {
                if let Some(body) = node.else_body {
                    keep_body(a, c, body@, 0, true);
                }
            }
        }
    }
}

/// [`lower::lower_logical`] leaves alone what was there.
pub proof fn keep_logical(
    a: Code,
    c: Code,
    node: Logical,
)
    requires
        kept(a, c),
    ensures
        lower::lower_logical(c, node) matches Ok(after) ==> stays(a, c, after),
    decreases node, 0nat,
{
    broadcast use group_kept;

    let keep = match node.op {
        LogicalOp::And => Jump::UnlessKeep,
        LogicalOp::Or => Jump::IfKeep,
    };
    keep_expr(a, c, node.left);
    if let Ok(c) = lower::lower_expr(c, node.left) {
        let short = c.here();
        keep_expr(a, c.emit(keep.over(0)).emit(Insn::Pop), node.right);
    }
}

/// [`lower::lower_while`] leaves alone what was there.
pub proof fn keep_while(
    a: Code,
    c: Code,
    node: While,
)
    requires
        kept(a, c),
    ensures
        lower::lower_while(c, node) matches Ok(after) ==> stays(a, c, after),
    decreases node, 1nat,
{
    broadcast use group_kept;

    let top = c.here();
    let open = c.push_loop();
    lemma_kept_itself(open);
    keep_while_body(open, open, node, top);
    if let Ok(inside) = lower::lower_while_body(open, node, top) {
        lemma_kept_loop(c, inside);
        lemma_kept_trans(a, c, inside.pop_loop());
        reveal(Code::push_loop);
        if inside.loops.len() > 0 {
            lemma_behind_before(a, c, inside, inside.loops.last().breaks);
        }
    }
}

/// [`lower::lower_while_body`] leaves alone what was there.
pub proof fn keep_while_body(
    a: Code,
    c: Code,
    node: While,
    top: nat,
)
    requires
        kept(a, c),
    ensures
        lower::lower_while_body(c, node, top) matches Ok(after) ==> stays(a, c, after),
    decreases node, 0nat,
{
    broadcast use group_kept;

    if node.post {
        let body = c.here();
        keep_body(a, c.redo_at(body), node.body@, 0, false);
        if let Ok(c) = lower::lower_body(c.redo_at(body), node.body@, 0, false) {
            keep_expr(a, c.next_at(c.here()), node.predicate);
        }
    } else {
        keep_expr(a, c, node.predicate);
        if let Ok(c) = lower::lower_expr(c, node.predicate) {
            let out = c.here();
            let c = c.emit(if node.until { Insn::JumpIf(0) } else { Insn::JumpUnless(0) });
            keep_body(a, c.redo_at(c.here()), node.body@, 0, false);
        }
    }
}

/// [`lower::lower_jump_out`] leaves alone what was there.
pub proof fn keep_jump_out(
    a: Code,
    c: Code,
    value: Option<Box<Expr>>,
    is_break: bool,
    span: Span,
)
    requires
        kept(a, c),
    ensures
        lower::lower_jump_out(c, value, is_break, span) matches Ok(after) ==> stays(a, c, after),
    decreases value, 1nat,
{
    broadcast use group_kept;

    if c.loops.len() == 0 {
        if !c.scope_barrier {
            keep_value(a, c, value);
        }
    } else {
        let inner = c.loops.last();
        let entry = c.depth;
        let c = c.pops(lower::excess(entry, inner.base_depth));
        if is_break {
            keep_value(a, c, value);
        } else {
            if let Some(value) = value {
                keep_expr(a, c, *value);
            }
        }
    }
}

/// [`lower::back_to`] leaves alone what was there.
pub proof fn keep_back_to(
    a: Code,
    c: Code,
    target: nat,
    base: usize,
)
    requires
        kept(a, c),
    ensures
        ({
            let after = lower::back_to(c, target, base);
            stays(a, c, after)
        }),
{
    broadcast use group_kept;

    reveal(Code::effect);
}

/// [`lower::lower_redo`] leaves alone what was there.
pub proof fn keep_redo(
    a: Code,
    c: Code,
    span: Span,
)
    requires
        kept(a, c),
    ensures
        lower::lower_redo(c, span) matches Ok(after) ==> stays(a, c, after),
{
    broadcast use group_kept;

    if c.loops.len() > 0 {
        keep_back_to(a, c, c.loops.last().redo_target as nat, c.loops.last().base_depth);
    } else {
        if !c.scope_barrier {
            keep_back_to(a, c, 0, 0);
        }
    }
}

/// [`lower::lower_retry`] leaves alone what was there.
pub proof fn keep_retry(
    a: Code,
    c: Code,
    span: Span,
)
    requires
        kept(a, c),
    ensures
        lower::lower_retry(c, span) matches Ok(after) ==> stays(a, c, after),
{
    broadcast use group_kept;

    if !(c.retries.len() == 0) {
        keep_back_to(a, c, c.retries.last().body_start as nat, c.retries.last().base_depth);
    }
}

/// [`lower::lower_for`] leaves alone what was there.
pub proof fn keep_for(
    a: Code,
    c: Code,
    node: For,
    span: Span,
)
    requires
        kept(a, c),
    ensures
        lower::lower_for(c, node, span) matches Ok(after) ==> stays(a, c, after),
    decreases node, 0nat,
{
    broadcast use group_kept;

    let child = code::nested("block in for"@, Seq::empty(), c, false);
    let child = child.hide_environment()
        .slot(FOR_ELEMENT@)
        .with_params(ParamModel { required: 1, ..code::no_params() });
    if let Ok(child) = lower::lower_element(child, node.index, span) {
        if let Ok(child) = lower::lower_body(child, node.body@, 0, true) {
            let block = c.children.len() as u32;
            keep_expr(a, c.push_child(child.finish()), node.iterable);
        }
    }
}

/// [`lower::lower_case`] leaves alone what was there.
pub proof fn keep_case(
    a: Code,
    c: Code,
    node: Case,
    span: Span,
)
    requires
        kept(a, c),
    ensures
        lower::lower_case(c, node, span) matches Ok(after) ==> stays(a, c, after),
    decreases node, 1nat,
{
    broadcast use group_kept;

    match node.branches {
        CaseBranches::When(_) => {
            keep_case_when(a, c, node);
        },
        CaseBranches::In(_) => {
            keep_case_in(a, c, node, span);
        },
    }
}

/// [`lower::drop_subject`] leaves alone what was there.
pub proof fn keep_drop_subject(
    a: Code,
    c: Code,
    subject: bool,
)
    requires
        kept(a, c),
    ensures
        ({
            let after = lower::drop_subject(c, subject);
            stays(a, c, after)
        }),
{
    broadcast use group_kept;
}

/// [`lower::lower_case_when`] leaves alone what was there.
pub proof fn keep_case_when(
    a: Code,
    c: Code,
    node: Case,
)
    requires
        kept(a, c),
    ensures
        lower::lower_case_when(c, node) matches Ok(after) ==> stays(a, c, after),
    decreases node, 0nat,
{
    broadcast use group_kept;

    if let CaseBranches::When(clauses) = node.branches {
        let subject = node.predicate is Some;
        if let Some(predicate) = node.predicate {
            keep_expr(a, c, predicate);
        }
        let start = match node.predicate {
            Some(predicate) => lower::lower_expr(c, predicate),
            None => Ok(c),
        };
        if let Ok(c) = start {
            let tests = c.depth;
            keep_tests(a, c, clauses@, 0, subject, Seq::empty());
            if let Ok((c, entries)) = lower::lower_tests(c, clauses@, 0, subject, Seq::empty()) {
                let tested = c;
                keep_drop_subject(a, c, subject);
                keep_body_or_nil(a, lower::drop_subject(c, subject), node.else_body);
                if let Ok(c) = lower::lower_body_or_nil(lower::drop_subject(c, subject), node.else_body) {
                    let end = c.depth;
                    let to_end = seq![c.here() as usize];
                    let next = c.emit(Insn::Jump(0));
                    lemma_behind_one(a, c, next);
                    assert forall|k: int| 0 <= k < entries.len() implies behind(
                        a,
                        next,
                        #[trigger] entries[k],
                    ) by {
                        lemma_behind_grown(a, tested, next, entries[k]);
                    }
                    keep_whens(a, c.emit(Insn::Jump(0)),
                        clauses@,
                        0,
                        subject,
                        entries,
                        tests,
                        to_end,
                    );
                }
            }
        }
    }
}

/// [`lower::lower_tests`] leaves alone what was there.
pub proof fn keep_tests(
    a: Code,
    c: Code,
    clauses: Seq<WhenClause>,
    from: nat,
    subject: bool,
    entries: Seq<Seq<usize>>,
)
    requires
        kept(a, c),
        all_behind(a, c, entries),
    ensures
        lower::lower_tests(c, clauses, from, subject, entries) matches Ok((after, made)) ==> stays(a, c, after) && all_behind(a, after, made)
            && (from <= clauses.len() ==> made.len() == entries.len() + clauses.len() - from),
    decreases clauses, clauses.len() - from,
{
    broadcast use group_kept;

    let was = c;
    if from < clauses.len() {
        keep_conditions(a, c, clauses[from as int].conditions@, 0, subject, Seq::empty());
        if let Ok((c, jumps)) = lower::lower_conditions(c, clauses[from as int].conditions@, 0, subject, Seq::empty()) {
            assert forall|k: int| 0 <= k < entries.push(jumps).len() implies behind(
                a,
                c,
                #[trigger] entries.push(jumps)[k],
            ) by {
                if k < entries.len() {
                    assert(entries.push(jumps)[k] == entries[k]);
                    lemma_behind_grown(a, was, c, entries[k]);
                }
            }
            keep_tests(a, c, clauses, from + 1, subject, entries.push(jumps));
        }
    }
}

/// [`lower::lower_conditions`] leaves alone what was there.
pub proof fn keep_conditions(
    a: Code,
    c: Code,
    conditions: Seq<Expr>,
    from: nat,
    subject: bool,
    jumps: Seq<usize>,
)
    requires
        kept(a, c),
        behind(a, c, jumps),
    ensures
        lower::lower_conditions(c, conditions, from, subject, jumps) matches Ok((after, made)) ==> stays(a, c, after) && behind(a, after, made),
    decreases conditions, conditions.len() - from,
{
    broadcast use group_kept;

    let was = c;
    if from < conditions.len() {
        let condition = conditions[from as int];
        if !(condition.kind is Splat) {
            let c = if subject {
                c.emit(Insn::Dup)
            } else {
                c
            };
            keep_expr(a, c, condition);
            if let Ok(c) = lower::lower_expr(c, condition) {
                let c = if subject {
                    c.emit(Insn::CaseEq)
                } else {
                    c
                };
                lemma_behind_push(a, was, c, jumps, c.emit(Insn::JumpIf(0)));
                keep_conditions(a, c.emit(Insn::JumpIf(0)),
                    conditions,
                    from + 1,
                    subject,
                    jumps.push(c.here() as usize),
                );
            }
        }
    }
}

/// [`lower::lower_whens`] leaves alone what was there.
pub proof fn keep_whens(
    a: Code,
    c: Code,
    clauses: Seq<WhenClause>,
    from: nat,
    subject: bool,
    entries: Seq<Seq<usize>>,
    tests: nat,
    to_end: Seq<usize>,
)
    requires
        kept(a, c),
        all_behind(a, c, entries),
        entries.len() >= clauses.len(),
        behind(a, c, to_end),
    ensures
        lower::lower_whens(c, clauses, from, subject, entries, tests, to_end) matches Ok((after, made)) ==> stays(a, c, after) && behind(a, after, made),
    decreases clauses, clauses.len() - from,
{
    broadcast use group_kept;

    let was = c;
    if from < clauses.len() {
        assert(behind(a, c, entries[from as int]));
        keep_drop_subject(a, c.patch_all(entries[from as int], c.here()).at_depth(tests), subject);
        let c = lower::drop_subject(c.patch_all(entries[from as int], c.here()).at_depth(tests), subject);
        keep_body(a, c, clauses[from as int].body@, 0, true);
        if let Ok(c) = lower::lower_body(c, clauses[from as int].body@, 0, true) {
            let next = c.emit(Insn::Jump(0));
            lemma_behind_push(a, was, c, to_end, next);
            assert forall|k: int| 0 <= k < entries.len() implies behind(
                a,
                next,
                #[trigger] entries[k],
            ) by {
                lemma_behind_grown(a, was, next, entries[k]);
            }
            keep_whens(a, c.emit(Insn::Jump(0)),
                clauses,
                from + 1,
                subject,
                entries,
                tests,
                to_end.push(c.here() as usize),
            );
        }
    }
}

/// [`lower::lower_call`] leaves alone what was there.
pub proof fn keep_call(
    a: Code,
    c: Code,
    call: Call,
    span: Span,
)
    requires
        kept(a, c),
    ensures
        lower::lower_call(c, call, span) matches Ok(after) ==> stays(a, c, after),
    decreases call, 1nat,
{
    broadcast use group_kept;

    if !call.safe_nav {
        if lower::is_operator(call) {
            keep_operator(a, c, call);
        } else {
            if let Some(receiver) = call.receiver {
                keep_expr(a, c, receiver);
            }
            let start = match call.receiver {
                Some(receiver) => lower::lower_expr(c, receiver),
                None => Ok(c.emit(Insn::PushSelf)),
            };
            if let Ok(c) = start {
                keep_arguments(a, c, call.name@, call.args@, names::passes_block(call.block));
                if let Ok((c, site)) = lower::lower_arguments(c, call.name@, call.args@, names::passes_block(call.block)) {
                    keep_block(a, c, site, call.block, span);
                }
            }
        }
    }
}

/// [`lower::lower_operator`] leaves alone what was there.
pub proof fn keep_operator(
    a: Code,
    c: Code,
    call: Call,
)
    requires
        kept(a, c),
    ensures
        lower::lower_operator(c, call) matches Ok(after) ==> stays(a, c, after),
    decreases call, 0nat,
{
    broadcast use group_kept;

    if let Some(receiver) = call.receiver {
        keep_expr(a, c, receiver);
        if let Ok(c) = lower::lower_expr(c, receiver) {
            if !(call.args@.len() == 0) {
                keep_expr(a, c, call.args@[0]);
            }
        }
    }
}

/// [`lower::lower_arguments`] leaves alone what was there.
pub proof fn keep_arguments(
    a: Code,
    c: Code,
    name: Seq<char>,
    args: Seq<Expr>,
    passes: bool,
)
    requires
        kept(a, c),
    ensures
        lower::lower_arguments(c, name, args, passes) matches Ok((after, made)) ==> stays(a, c, after),
    decreases args, args.len() + 1,
{
    broadcast use group_kept;

    keep_args(a, c.symbol(name),
        args,
        0,
        passes,
        SiteModel {
            name: c.symbol_at(name),
            argc: 0,
            splats: Seq::empty(),
            keywords: Seq::empty(),
            block: BlockRef::Absent,
            implicit_self: false,
        },
    );
}

/// [`lower::lower_args`] leaves alone what was there.
pub proof fn keep_args(
    a: Code,
    c: Code,
    args: Seq<Expr>,
    from: nat,
    passes: bool,
    site: SiteModel,
)
    requires
        kept(a, c),
    ensures
        lower::lower_args(c, args, from, passes, site) matches Ok((after, made)) ==> stays(a, c, after),
    decreases args, args.len() - from,
{
    broadcast use group_kept;

    if from < args.len() {
        let arg = args[from as int];
        match arg.kind {
            ExprKind::Splat(Some(inner)) => {
                keep_expr(a, c, *inner);
                if let Ok(c) = lower::lower_expr(c, *inner) {
                    if !(site.argc == u16::MAX) {
                        keep_args(a, if names::changes_after(args.len(), from as int, passes) {
                                c.emit(Insn::CaptureSplat)
                            } else {
                                c
                            },
                            args,
                            from + 1,
                            passes,
                            SiteModel {
                                splats: site.splats.push(site.argc),
                                argc: lower::more(site.argc),
                                ..site
                            },
                        );
                    }
                }
            },
            ExprKind::Splat(None) | ExprKind::ForwardingArgs => {},
            ExprKind::Hash(hash) => {
                if hash.braces {
                    keep_expr(a, c, arg);
                    if let Ok(c) = lower::lower_expr(c, arg) {
                        if !(site.argc == u16::MAX) {
                            keep_args(a, c,
                                args,
                                from + 1,
                                passes,
                                SiteModel { argc: lower::more(site.argc), ..site },
                            );
                        }
                    }
                } else {
                    if !(!names::all_keywords(hash)) {
                        keep_keywords(a, c, hash.entries@, 0, site);
                        if let Ok((c, site)) = lower::lower_keywords(c, hash.entries@, 0, site) {
                            keep_args(a, c, args, from + 1, passes, site);
                        }
                    }
                }
            },
            _ => {
                keep_expr(a, c, arg);
                if let Ok(c) = lower::lower_expr(c, arg) {
                    if !(site.argc == u16::MAX) {
                        keep_args(a, c,
                            args,
                            from + 1,
                            passes,
                            SiteModel { argc: lower::more(site.argc), ..site },
                        );
                    }
                }
            },
        }
    }
}

/// [`lower::lower_keywords`] leaves alone what was there.
pub proof fn keep_keywords(
    a: Code,
    c: Code,
    entries: Seq<HashEntry>,
    from: nat,
    site: SiteModel,
)
    requires
        kept(a, c),
    ensures
        lower::lower_keywords(c, entries, from, site) matches Ok((after, made)) ==> stays(a, c, after),
    decreases entries, entries.len() - from,
{
    broadcast use group_kept;

    if from < entries.len() {
        if let (HashEntryKind::Pair { key: _, value }, Some(name)) = (entries[from as int].kind, names::keyword_of(entries[from as int])) {
            keep_expr(a, c.symbol(name), value);
            if let Ok(after) = lower::lower_expr(c.symbol(name), value) {
                keep_keywords(a, after,
                    entries,
                    from + 1,
                    SiteModel { keywords: site.keywords.push(c.symbol_at(name)), ..site },
                );
            }
        }
    }
}

/// [`lower::lower_block`] leaves alone what was there.
pub proof fn keep_block(
    a: Code,
    c: Code,
    site: SiteModel,
    block: Option<BlockArg>,
    span: Span,
)
    requires
        kept(a, c),
    ensures
        lower::lower_block(c, site, block, span) matches Ok((after, made)) ==> stays(a, c, after),
    decreases block, 0nat,
{
    broadcast use group_kept;

    match block {
        Some(BlockArg::Pass(Some(expr))) => {
            keep_expr(a, c, expr);
        },
        _ => {},
    }
}

/// [`lower::lower_super`] leaves alone what was there.
pub proof fn keep_super(
    a: Code,
    c: Code,
    node: Super,
    span: Span,
)
    requires
        kept(a, c),
    ensures
        lower::lower_super(c, node, span) matches Ok(after) ==> stays(a, c, after),
    decreases node, 0nat,
{
    broadcast use group_kept;

    match node.args {
        Some(args) => {
            keep_arguments(a, c, "super"@, args@, names::passes_block(node.block));
        },
        None => {
            keep_forwarded(a, c, span);
        },
    }
    let start = match node.args {
        Some(args) => lower::lower_arguments(c, "super"@, args@, names::passes_block(node.block)),
        None => lower::forwarded(c, span),
    };
    if let Ok((c, site)) = start {
        keep_block(a, c, site, node.block, span);
    }
}

/// [`lower::forwarded`] leaves alone what was there.
pub proof fn keep_forwarded(
    a: Code,
    c: Code,
    span: Span,
)
    requires
        kept(a, c),
    ensures
        lower::forwarded(c, span) matches Ok((after, made)) ==> stays(a, c, after),
{
    broadcast use group_kept;

    if let Some(z) = c.zsuper {
        if !(z.positional.len() > u16::MAX) {
            let site = SiteModel {
                name: c.symbol_at("super"@),
                argc: 0,
                splats: Seq::empty(),
                keywords: Seq::empty(),
                block: BlockRef::Absent,
                implicit_self: true,
            };
            keep_forward_positional(a, c.symbol("super"@), z, 0, site);
            let (c, site) = lower::forward_positional(c.symbol("super"@), z, 0, site);
            keep_forward_keywords(a, c, z, 0, site);
        }
    }
}

/// [`lower::forward_positional`] leaves alone what was there.
pub proof fn keep_forward_positional(
    a: Code,
    c: Code,
    z: ZsuperModel,
    from: nat,
    site: SiteModel,
)
    requires
        kept(a, c),
    ensures
        ({
            let (after, made) = lower::forward_positional(c, z, from, site);
            stays(a, c, after)
        }),
    decreases z.positional.len() - from,
{
    broadcast use group_kept;

    if from < z.positional.len() {
        let (slot, is_rest) = z.positional[from as int];
        keep_forward_positional(a, c.emit(Insn::GetLocal(slot, z.depth)),
            z,
            from + 1,
            SiteModel {
                splats: if is_rest {
                    site.splats.push(site.argc)
                } else {
                    site.splats
                },
                argc: lower::more(site.argc),
                ..site
            },
        );
    }
}

/// [`lower::forward_keywords`] leaves alone what was there.
pub proof fn keep_forward_keywords(
    a: Code,
    c: Code,
    z: ZsuperModel,
    from: nat,
    site: SiteModel,
)
    requires
        kept(a, c),
    ensures
        ({
            let (after, made) = lower::forward_keywords(c, z, from, site);
            stays(a, c, after)
        }),
    decreases z.keywords.len() - from,
{
    broadcast use group_kept;

    if from < z.keywords.len() {
        let (name, slot) = z.keywords[from as int];
        keep_forward_keywords(a, c.symbol(name).emit(Insn::GetLocal(slot, z.depth)),
            z,
            from + 1,
            SiteModel { keywords: site.keywords.push(c.symbol_at(name)), ..site },
        );
    }
}

/// [`lower::lower_def`] leaves alone what was there.
pub proof fn keep_def(
    a: Code,
    c: Code,
    def: Def,
    span: Span,
)
    requires
        kept(a, c),
    ensures
        lower::lower_def(c, def, span) matches Ok(after) ==> stays(a, c, after),
    decreases def, 0nat,
{
    broadcast use group_kept;

    if let Ok(head) = lower::child_head(c, def.name@, def.params, bytecode::pool(def.locals@), true, span) {
        if let Ok(body) = lower::lower_body(head, def.body@, 0, true) {
            let name = c.symbol_at(def.name@);
            let c = c.symbol(def.name@);
            let child = c.children.len() as u32;
            let c = c.push_child(body.finish());
            let definition = c.definitions.len() as u32;
            let c1 = c.push_definition(name, child);
            if let Some(receiver) = def.receiver {
                keep_expr(a, c1, receiver);
            }
        }
    }
}

/// [`lower::lower_class_path`] leaves alone what was there.
pub proof fn keep_class_path(
    a: Code,
    c: Code,
    path: Target,
)
    requires
        kept(a, c),
    ensures
        lower::lower_class_path(c, path) matches Ok((after, _, how)) ==> stays(a, c, after),
    decreases path, 2nat,
{
    broadcast use group_kept;

    keep_const_target(a, c, path);
}

/// [`lower::opened`] leaves alone what was there.
pub proof fn keep_opened(
    a: Code,
    c: Code,
    body: Code,
    name: u32,
    kind: DefKind,
    scoped: bool,
    superclass: bool,
)
    requires
        kept(a, c),
    ensures
        ({
            let after = lower::opened(c, body, name, kind, scoped, superclass);
            stays(a, c, after)
        }),
{
    broadcast use group_kept;
}

/// [`lower::lower_class`] leaves alone what was there.
pub proof fn keep_class(
    a: Code,
    c: Code,
    class: Class,
)
    requires
        kept(a, c),
    ensures
        lower::lower_class(c, class) matches Ok(after) ==> stays(a, c, after),
    decreases class, 0nat,
{
    broadcast use group_kept;

    keep_class_path(a, c, class.path);
    if let Ok((c, name, scoped)) = lower::lower_class_path(c, class.path) {
        if let Some(superclass) = class.superclass {
            keep_expr(a, c, superclass);
        }
        let ready = match class.superclass {
            Some(superclass) => lower::lower_expr(c, superclass),
            None => Ok(c),
        };
        if let Ok(c) = ready {
            if let Ok(body) = lower::lower_body(
                lower::plain_head(
                    lower::body_label(DefKind::Class)@,
                    bytecode::pool(class.locals@),
                ),
                class.body@,
                0,
                true,
            ) {
                keep_opened(a, c, body, name, DefKind::Class, scoped, class.superclass is Some);
            }
        }
    }
}

/// [`lower::lower_module`] leaves alone what was there.
pub proof fn keep_module(
    a: Code,
    c: Code,
    module: Module,
)
    requires
        kept(a, c),
    ensures
        lower::lower_module(c, module) matches Ok(after) ==> stays(a, c, after),
    decreases module, 0nat,
{
    broadcast use group_kept;

    keep_class_path(a, c, module.path);
    if let Ok((c, name, scoped)) = lower::lower_class_path(c, module.path) {
        if let Ok(body) = lower::lower_body(
            lower::plain_head(lower::body_label(DefKind::Module)@, bytecode::pool(module.locals@)),
            module.body@,
            0,
            true,
        ) {
            keep_opened(a, c, body, name, DefKind::Module, scoped, false);
        }
    }
}

/// [`lower::lower_singleton`] leaves alone what was there.
pub proof fn keep_singleton(
    a: Code,
    c: Code,
    node: SingletonClass,
)
    requires
        kept(a, c),
    ensures
        lower::lower_singleton(c, node) matches Ok(after) ==> stays(a, c, after),
    decreases node, 0nat,
{
    broadcast use group_kept;

    keep_expr(a, c, node.expression);
    if let Ok(c) = lower::lower_expr(c, node.expression) {
        if let Ok(body) = lower::lower_body(
            lower::plain_head(lower::body_label(DefKind::Singleton)@, bytecode::pool(node.locals@)),
            node.body@,
            0,
            true,
        ) {
            keep_opened(a, c, body, 0, DefKind::Singleton, false, false);
        }
    }
}

/// [`lower::lower_swallowing`] leaves alone what was there.
pub proof fn keep_swallowing(
    a: Code,
    c: Code,
    inner: Expr,
    span: Span,
)
    requires
        kept(a, c),
    ensures
        lower::lower_swallowing(c, inner, span) matches Ok(after) ==> stays(a, c, after),
    decreases inner, 2nat,
{
    broadcast use group_kept;

    let base = c.depth;
    let start = c.here();
    keep_defined(a, c, inner, span);
}

/// [`lower::lower_defined`] leaves alone what was there.
pub proof fn keep_defined(
    a: Code,
    c: Code,
    expr: Expr,
    span: Span,
)
    requires
        kept(a, c),
    ensures
        lower::lower_defined(c, expr, span) matches Ok(after) ==> stays(a, c, after),
    decreases expr, 1nat,
{
    broadcast use group_kept;

    match expr.kind {
        ExprKind::Nil => {
            keep_push_word(a, c, "nil");
        },
        ExprKind::True => {
            keep_push_word(a, c, "true");
        },
        ExprKind::False => {
            keep_push_word(a, c, "false");
        },
        ExprKind::SelfExpr => {
            keep_push_word(a, c, "self");
        },
        ExprKind::Assign(_) => {
            keep_push_word(a, c, "assignment");
        },
        ExprKind::Parens(inner) => {
            if inner@.len() == 1 {
                keep_defined(a, c, inner@[0], inner@[0].span);
            } else {
                keep_push_word(a, c, "expression");
            }
        },
        ExprKind::Var(var) => {
            keep_defined_var(a, c, var, span);
        },
        ExprKind::ConstPath(path) => {
            if let Some(name) = path.name {
                let symbol = c.symbol_at(name@);
                let c = c.symbol(name@);
                if let Some(parent) = path.parent {
                    keep_lower_guard(a, c, parent, Seq::empty());
                    if let Ok((c, undefined)) = lower::lower_guard(c, parent, Seq::empty()) {
                        let tested = c;
                        keep_expr(a, c, parent);
                        if let Ok(c) = lower::lower_expr(c, parent) {
                            lemma_behind_grown(a, tested, c.emit(Insn::DefinedConst(symbol, ConstScope::Qualified)), undefined);
                            keep_close_guard(a, c.emit(Insn::DefinedConst(symbol, ConstScope::Qualified)),
                                undefined,
                            );
                        }
                    }
                }
            }
        },
        ExprKind::Yield(_) => {},
        ExprKind::Call(call) => {
            keep_defined_call(a, c, *call, span);
        },
        ExprKind::Array(elements) => {
            keep_guards(a, c, elements@, 0, Seq::empty());
            if let Ok((c, undefined)) = lower::lower_guards(c, elements@, 0, Seq::empty()) {
                keep_push_word(a, c, "expression");
                lemma_behind_grown(a, c, lower::push_word(c, "expression"), undefined);
                keep_close_guard(a, lower::push_word(c, "expression"), undefined);
            }
        },
        ExprKind::Super(_) => {},
        _ => {
            keep_push_word(a, c, "expression");
        },
    }
}

/// [`lower::lower_defined_var`] leaves alone what was there.
pub proof fn keep_defined_var(
    a: Code,
    c: Code,
    var: VarRef,
    span: Span,
)
    requires
        kept(a, c),
    ensures
        lower::lower_defined_var(c, var, span) matches Ok(after) ==> stays(a, c, after),
{
    broadcast use group_kept;

    match var {
        VarRef::Local { name: _, depth: _ } | VarRef::It => {
            keep_push_word(a, c, "local-variable");
        },
        VarRef::Global(name) => {
            if name@ == ERRINFO@ {
                keep_push_word(a, c, "global-variable");
            } else {
                if let Some(MatchRef::Data) = names::match_part(name@) {
                    keep_push_word(a, c, "global-variable");
                }
            }
        },
        _ => {},
    }
}

/// [`lower::lower_defined_call`] leaves alone what was there.
pub proof fn keep_defined_call(
    a: Code,
    c: Code,
    call: Call,
    span: Span,
)
    requires
        kept(a, c),
    ensures
        lower::lower_defined_call(c, call, span) matches Ok(after) ==> stays(a, c, after),
    decreases call, 0nat,
{
    broadcast use group_kept;

    if !(call.block is Some) {
        let name = c.symbol_at(call.name@);
        let c = c.symbol(call.name@);
        if let Some(receiver) = call.receiver {
            keep_lower_guard(a, c, receiver, Seq::empty());
        }
        let first = match call.receiver {
            Some(receiver) => lower::lower_guard(c, receiver, Seq::empty()),
            None => Ok((c, Seq::empty())),
        };
        if let Ok((c, undefined)) = first {
            keep_guards(a, c, call.args@, 0, undefined);
            if let Ok((c, undefined)) = lower::lower_guards(c, call.args@, 0, undefined) {
                let tested = c;
                match call.receiver {
                    Some(receiver) => {
                        keep_expr(a, c, receiver);
                        if let Ok(c) = lower::lower_expr(c, receiver) {
                            lemma_behind_grown(a, tested, c.emit(Insn::DefinedMethod(name)), undefined);
                            keep_close_guard(a, c.emit(Insn::DefinedMethod(name)), undefined);
                        }
                    },
                    None => {
                        lemma_behind_grown(a, tested, c.emit(Insn::DefinedSelfMethod(name)), undefined);
                        keep_close_guard(a, c.emit(Insn::DefinedSelfMethod(name)), undefined);
                    },
                }
            }
        }
    }
}

/// [`lower::lower_guard`] leaves alone what was there.
pub proof fn keep_lower_guard(
    a: Code,
    c: Code,
    guard: Expr,
    undefined: Seq<usize>,
)
    requires
        kept(a, c),
        behind(a, c, undefined),
    ensures
        lower::lower_guard(c, guard, undefined) matches Ok((after, made)) ==> stays(a, c, after) && behind(a, after, made),
    decreases guard, 2nat,
{
    broadcast use group_kept;

    keep_defined(a, c, guard, guard.span);
    if let Ok(asked) = lower::lower_defined(c, guard, guard.span) {
        lemma_behind_push(a, c, asked, undefined, asked.emit(Insn::JumpUnless(0)));
    }
}

/// [`lower::lower_guards`] leaves alone what was there.
pub proof fn keep_guards(
    a: Code,
    c: Code,
    guards: Seq<Expr>,
    from: nat,
    undefined: Seq<usize>,
)
    requires
        kept(a, c),
        behind(a, c, undefined),
    ensures
        lower::lower_guards(c, guards, from, undefined) matches Ok((after, made)) ==> stays(a, c, after) && behind(a, after, made),
    decreases guards, guards.len() - from,
{
    broadcast use group_kept;

    if from < guards.len() {
        keep_lower_guard(a, c, guards[from as int], undefined);
        if let Ok((c, undefined)) = lower::lower_guard(c, guards[from as int], undefined) {
            keep_guards(a, c, guards, from + 1, undefined);
        }
    }
}

/// [`lower::close_guard`] leaves alone what was there.
pub proof fn keep_close_guard(
    a: Code,
    c: Code,
    undefined: Seq<usize>,
)
    requires
        kept(a, c),
        behind(a, c, undefined),
    ensures
        ({
            let after = lower::close_guard(c, undefined);
            stays(a, c, after)
        }),
{
    broadcast use group_kept;

    if undefined.len() > 0 {
        let c1 = c.emit(Insn::Jump(0));
        lemma_behind_grown(a, c, c1.at_depth(lower::below(c1.depth)), undefined);
    }
}

/// [`lower::save_errinfo`] leaves alone what was there.
pub proof fn keep_save_errinfo(
    a: Code,
    c: Code,
)
    requires
        kept(a, c),
    ensures
        ({
            let (after, _) = lower::save_errinfo(c);
            stays(a, c, after)
        }),
{
    broadcast use group_kept;
}

/// [`lower::lower_begin`] leaves alone what was there.
pub proof fn keep_begin(
    a: Code,
    c: Code,
    node: Begin,
)
    requires
        kept(a, c),
    ensures
        lower::lower_begin(c, node) matches Ok(after) ==> stays(a, c, after),
    decreases node, 0nat,
{
    broadcast use group_kept;

    let base = c.depth;
    let outside = c.open_ensures;
    let c = if node.ensure_body is Some {
        c.owe(lower::above(outside))
    } else {
        c
    };
    let rescues = node.rescues@.len() > 0;
    if rescues {
        keep_save_errinfo(a, c);
    }
    let (c, errinfo) = if rescues {
        lower::save_errinfo(c)
    } else {
        (c, 0)
    };
    let body_start = c.here();
    keep_body(a, c, node.body@, 0, true);
    if let Ok(c) = lower::lower_body(c, node.body@, 0, true) {
        let body_end = c.here();
        if let Some(body) = node.else_body {
            keep_body(a, c.emit(Insn::Pop), body@, 0, true);
        }
        let otherwise = match node.else_body {
            Some(body) => lower::lower_body(c.emit(Insn::Pop), body@, 0, true),
            None => Ok(c),
        };
        if let Ok(c) = otherwise {
            let ran = c;
            if rescues {
                let done = seq![c.here() as usize];
                let c = c.emit(Insn::Jump(0));
                let rescue_start = c.here();
                lemma_behind_one(a, ran, c.handle_at(lower::above(base)));
                keep_rescues(a, c.handle_at(lower::above(base)),
                    node.rescues@,
                    0,
                    body_start,
                    base,
                    done,
                );
            }
            let handled = if rescues {
                let done = seq![c.here() as usize];
                let c = c.emit(Insn::Jump(0));
                let rescue_start = c.here();
                match lower::lower_rescues(
                    c.handle_at(lower::above(base)),
                    node.rescues@,
                    0,
                    body_start,
                    base,
                    done,
                ) {
                    Ok((c, done)) => {
                        let c = c.guard(lower::protected(CatchKind::Rescue, body_start, body_end, rescue_start, base));
                        Ok(c.patch_all(done, c.here()))
                    },
                    Err(u) => Err(u),
                }
            } else {
                Ok(c)
            };
            if let Ok(c) = handled {
                let c = c.at_depth(lower::above(base));
                let c = if rescues {
                    c.emit(Insn::GetLocal(errinfo, 0)).emit(Insn::SetErrinfo)
                } else {
                    c
                };
                if let Some(body) = node.ensure_body {
                    let c = c.owe(lower::below(c.open_ensures));
                    let protected_end = c.here();
                    let c = c.emit(Insn::EnterEnsure);
                    let ensure_start = c.here();
                    keep_body(a, c, body@, 0, true);
                }
            }
        }
    }
}

/// [`lower::lower_rescues`] leaves alone what was there.
pub proof fn keep_rescues(
    a: Code,
    c: Code,
    clauses: Seq<Rescue>,
    from: nat,
    body_start: nat,
    base: nat,
    done: Seq<usize>,
)
    requires
        kept(a, c),
    ensures
        lower::lower_rescues(c, clauses, from, body_start, base, done) matches Ok((after, made)) ==> stays(a, c, after) && (behind(a, c, done)
            ==> behind(a, after, made)),
    decreases clauses, clauses.len() - from,
{
    broadcast use group_kept;

    if from >= clauses.len() {
        if behind(a, c, done) {
            lemma_behind_grown(a, c, c.emit(Insn::Raise), done);
        }
    } else {
        keep_rescue(a, c, clauses[from as int], body_start, base, done);
        if let Ok((c, done)) = lower::lower_rescue(c, clauses[from as int], body_start, base, done) {
            keep_rescues(a, c, clauses, from + 1, body_start, base, done);
        }
    }
}

/// [`lower::lower_rescue`] leaves alone what was there.
pub proof fn keep_rescue(
    a: Code,
    c: Code,
    clause: Rescue,
    body_start: nat,
    base: nat,
    done: Seq<usize>,
)
    requires
        kept(a, c),
    ensures
        lower::lower_rescue(c, clause, body_start, base, done) matches Ok((after, made)) ==> stays(a, c, after) && (behind(a, c, done)
            ==> behind(a, after, made)),
    decreases clause, 0nat,
{
    broadcast use group_kept;

    let was = c;

    if clause.exceptions@.len() == 0 {
        keep_standard_error(a, c);
    } else {
        keep_exceptions(a, c, clause.exceptions@, 0, Seq::empty());
    }
    let tested = if clause.exceptions@.len() == 0 {
        let c = lower::standard_error(c);
        Ok((c.emit(Insn::JumpIf(0)), seq![c.here() as usize]))
    } else {
        lower::lower_exceptions(c, clause.exceptions@, 0, Seq::empty())
    };
    if clause.exceptions@.len() == 0 {
        let asked = lower::standard_error(c);
        lemma_behind_one(a, asked, asked.emit(Insn::JumpIf(0)));
    }
    if let Ok((c, hits)) = tested {
        let miss = c.here();
        let c = c.emit(Insn::Jump(0));
        let c = c.patch_all(hits, c.here()).at_depth(lower::above(base));
        if let Some(target) = clause.reference {
            keep_place(a, c, target);
            if let Ok((c, place)) = lower::lower_place(c, target) {
                keep_write_place(a, c, place);
            }
        }
        let bound = match clause.reference {
            Some(target) => match lower::lower_place(c, target) {
                Ok((c, place)) => Ok(lower::write_place(c, place)),
                Err(u) => Err(u),
            },
            None => Ok(c.emit(Insn::Pop)),
        };
        if let Ok(c) = bound {
            let ready = c.push_retry(body_start, base);
            keep_body(a, ready, clause.body@, 0, true);
            if let Ok(ran) = lower::lower_body(ready, clause.body@, 0, true) {
                let c = ran.pop_retry();
                let out = c.emit(Insn::Jump(0)).patch_here(miss).at_depth(lower::above(base));
                if behind(a, was, done) {
                    lemma_behind_push(a, was, c, done, out);
                }
            }
        }
    }
}

/// [`lower::standard_error`] leaves alone what was there.
pub proof fn keep_standard_error(
    a: Code,
    c: Code,
)
    requires
        kept(a, c),
    ensures
        ({
            let after = lower::standard_error(c);
            stays(a, c, after)
        }),
{
    broadcast use group_kept;
}

/// [`lower::lower_exceptions`] leaves alone what was there.
pub proof fn keep_exceptions(
    a: Code,
    c: Code,
    exceptions: Seq<Expr>,
    from: nat,
    hits: Seq<usize>,
)
    requires
        kept(a, c),
        behind(a, c, hits),
    ensures
        lower::lower_exceptions(c, exceptions, from, hits) matches Ok((after, made)) ==> stays(a, c, after) && behind(a, after, made),
    decreases exceptions, exceptions.len() - from,
{
    broadcast use group_kept;

    let was = c;
    if from < exceptions.len() {
        let exception = exceptions[from as int];
        match exception.kind {
            ExprKind::Splat(inner) => {
                if let Some(inner) = inner {
                    keep_expr(a, c.emit(Insn::NewArray(0)), *inner);
                }
            },
            _ => {
                keep_expr(a, c, exception);
            },
        }
        let tested = match exception.kind {
            ExprKind::Splat(inner) => match inner {
                None => code::refused("an anonymous splat", exception.span),
                Some(inner) => match lower::lower_expr(c.emit(Insn::NewArray(0)), *inner) {
                    Ok(c) => Ok(c.send("__concat_splat__"@, 1, false).emit(Insn::CheckMatchAny)),
                    Err(u) => Err(u),
                },
            },
            _ => match lower::lower_expr(c, exception) {
                Ok(c) => Ok(c.emit(Insn::CheckMatch)),
                Err(u) => Err(u),
            },
        };
        if let Ok(c) = tested {
            lemma_behind_push(a, was, c, hits, c.emit(Insn::JumpIf(0)));
            keep_exceptions(a, c.emit(Insn::JumpIf(0)),
                exceptions,
                from + 1,
                hits.push(c.here() as usize),
            );
        }
    }
}

/// [`lower::lower_rescue_mod`] leaves alone what was there.
pub proof fn keep_rescue_mod(
    a: Code,
    c: Code,
    node: RescueMod,
)
    requires
        kept(a, c),
    ensures
        lower::lower_rescue_mod(c, node) matches Ok(after) ==> stays(a, c, after),
    decreases node, 0nat,
{
    broadcast use group_kept;

    let base = c.depth;
    keep_save_errinfo(a, c);
    let (c, errinfo) = lower::save_errinfo(c);
    let body_start = c.here();
    keep_expr(a, c, node.value);
    if let Ok(c) = lower::lower_expr(c, node.value) {
        let body_end = c.here();
        let first = c.here();
        let c = c.emit(Insn::Jump(0));
        let rescue_start = c.here();
        keep_standard_error(a, c.handle_at(lower::above(base)));
        let c = lower::standard_error(c.handle_at(lower::above(base)));
        let hit = c.here();
        let c = c.emit(Insn::JumpIf(0));
        let miss = c.here();
        let c = c.emit(Insn::Jump(0)).patch_here(hit).at_depth(lower::above(base)).emit(Insn::Pop);
        keep_expr(a, c.push_retry(body_start, base), node.rescue_value);
    }
}

/// [`lower::open_key`] leaves alone what was there.
pub proof fn keep_open_key(
    a: Code,
    c: Code,
    wanted: bool,
)
    requires
        kept(a, c),
    ensures
        ({
            let after = lower::open_key(c, wanted);
            stays(a, c, after)
        }),
{
    broadcast use group_kept;
}

/// [`lower::pattern_failure`] leaves alone what was there.
pub proof fn keep_pattern_failure(
    a: Code,
    c: Code,
    subject: u16,
)
    requires
        kept(a, c),
    ensures
        ({
            let after = lower::pattern_failure(c, subject);
            stays(a, c, after)
        }),
{
    broadcast use group_kept;
}

/// [`lower::lower_case_in`] leaves alone what was there.
pub proof fn keep_case_in(
    a: Code,
    c: Code,
    node: Case,
    span: Span,
)
    requires
        kept(a, c),
    ensures
        lower::lower_case_in(c, node, span) matches Ok(after) ==> stays(a, c, after),
    decreases node, 0nat,
{
    broadcast use group_kept;

    if let (Some(predicate), CaseBranches::In(clauses)) = (node.predicate, node.branches) {
        keep_expr(a, c, predicate);
        if let Ok(c) = lower::lower_expr(c, predicate) {
            let subject = lower::pattern_slot(c, "subject"@);
            let c = lower::with_pattern_slot(c, "subject"@).emit(Insn::SetLocal(subject, 0));
            let cache = lower::pattern_slot(c, "deconstructed"@);
            let c = lower::with_pattern_slot(c, "deconstructed"@)
                .emit(Insn::PushNil)
                .emit(Insn::SetLocal(cache, 0));
            let outer_cache = c.pattern_cache;
            let outer_key = c.pattern_key;
            keep_open_key(a, c.with_pattern_cache(Some(cache)), clauses@.len() == 1);
            let c = lower::open_key(c.with_pattern_cache(Some(cache)), clauses@.len() == 1);
            let tests = c.depth;
            keep_in_tests(a, c, clauses@, 0, subject, tests, Seq::empty());
            if let Ok((c, entries)) = lower::lower_in_tests(c, clauses@, 0, subject, tests, Seq::empty()) {
                let tested = c;
                match node.else_body {
                    Some(body) => {
                        keep_body(a, c, body@, 0, true);
                    },
                    None => {
                        keep_pattern_failure(a, c, subject);
                    },
                }
                let otherwise = match node.else_body {
                    Some(body) => lower::lower_body(c, body@, 0, true),
                    None => Ok(lower::pattern_failure(c, subject)),
                };
                if let Ok(c) = otherwise {
                    let end = c.depth;
                    let to_end = seq![c.here() as usize];
                    let next = c.emit(Insn::Jump(0));
                    lemma_behind_one(a, c, next);
                    lemma_behind_grown(a, tested, next, entries);
                    keep_ins(a, c.emit(Insn::Jump(0)), clauses@, 0, entries, tests, to_end);
                }
            }
        }
    }
}

/// [`lower::lower_in_tests`] leaves alone what was there.
pub proof fn keep_in_tests(
    a: Code,
    c: Code,
    clauses: Seq<InClause>,
    from: nat,
    subject: u16,
    tests: nat,
    entries: Seq<usize>,
)
    requires
        kept(a, c),
        behind(a, c, entries),
    ensures
        lower::lower_in_tests(c, clauses, from, subject, tests, entries) matches Ok((after, made)) ==> stays(a, c, after) && behind(a, after, made)
            && (from <= clauses.len() ==> made.len() == entries.len() + clauses.len() - from),
    decreases clauses, clauses.len() - from,
{
    broadcast use group_kept;

    let was = c;
    if from < clauses.len() {
        keep_in_test(a, c, clauses[from as int], subject, tests);
        if let Ok((c, entry)) = lower::lower_in_test(c, clauses[from as int], subject, tests) {
            lemma_behind_both(a, was, c, entries, entry);
            keep_in_tests(a, c, clauses, from + 1, subject, tests, entries.push(entry));
        }
    }
}

/// [`lower::lower_in_test`] leaves alone what was there.
pub proof fn keep_in_test(
    a: Code,
    c: Code,
    clause: InClause,
    subject: u16,
    tests: nat,
)
    requires
        kept(a, c),
    ensures
        lower::lower_in_test(c, clause, subject, tests) matches Ok((after, entry)) ==> stays(a, c, after) && behind(a, after, seq![entry]),
    decreases clause, 0nat,
{
    broadcast use group_kept;

    keep_pattern(a, c.emit(Insn::GetLocal(subject, 0)), clause.pattern);
    if let Ok(c) = lower::lower_pattern(c.emit(Insn::GetLocal(subject, 0)), clause.pattern) {
        let entry = c.here();
        lemma_behind_one(a, c, c.emit(Insn::JumpIf(0)));
        let c = c.emit(Insn::JumpIf(0));
        if let Some(guard) = clause.guard {
            let skip = c.here();
            let c = c.emit(Insn::Jump(0)).patch_here(entry).at_depth(tests);
            match guard {
                Guard::If(condition) => {
                    keep_expr(a, c, condition);
                    if let Ok(asked) = lower::lower_expr(c, condition) {
                        lemma_behind_one(a, asked, asked.emit(Insn::JumpIf(0)));
                        lemma_behind_one(a, asked, asked.emit(Insn::JumpUnless(0)));
                        lemma_guard_tested(a, asked, skip, tests);
                    }
                },
                Guard::Unless(condition) => {
                    keep_expr(a, c, condition);
                    if let Ok(asked) = lower::lower_expr(c, condition) {
                        lemma_behind_one(a, asked, asked.emit(Insn::JumpIf(0)));
                        lemma_behind_one(a, asked, asked.emit(Insn::JumpUnless(0)));
                        lemma_guard_tested(a, asked, skip, tests);
                    }
                },
            }
        }
    }
}

/// [`lower::lower_ins`] leaves alone what was there.
pub proof fn keep_ins(
    a: Code,
    c: Code,
    clauses: Seq<InClause>,
    from: nat,
    entries: Seq<usize>,
    tests: nat,
    to_end: Seq<usize>,
)
    requires
        kept(a, c),
        behind(a, c, entries),
        entries.len() >= clauses.len(),
        behind(a, c, to_end),
    ensures
        lower::lower_ins(c, clauses, from, entries, tests, to_end) matches Ok((after, made)) ==> stays(a, c, after) && behind(a, after, made),
    decreases clauses, clauses.len() - from,
{
    broadcast use group_kept;

    let was = c;
    if from < clauses.len() {
        lemma_kept_entry(a, c, entries, from as int);
        keep_body(a, c.patch_here(entries[from as int] as nat).at_depth(tests),
            clauses[from as int].body@,
            0,
            true,
        );
        if let Ok(c) = lower::lower_body(
            c.patch_here(entries[from as int] as nat).at_depth(tests),
            clauses[from as int].body@,
            0,
            true,
        ) {
            let next = c.emit(Insn::Jump(0));
            lemma_behind_push(a, was, c, to_end, next);
            lemma_behind_grown(a, was, next, entries);
            keep_ins(a, c.emit(Insn::Jump(0)),
                clauses,
                from + 1,
                entries,
                tests,
                to_end.push(c.here() as usize),
            );
        }
    }
}

/// [`lower::lower_match`] leaves alone what was there.
pub proof fn keep_match(
    a: Code,
    c: Code,
    node: MatchPattern,
)
    requires
        kept(a, c),
    ensures
        lower::lower_match(c, node) matches Ok(after) ==> stays(a, c, after),
    decreases node, 0nat,
{
    broadcast use group_kept;

    keep_expr(a, c, node.value);
    if let Ok(c) = lower::lower_expr(c, node.value) {
        let outer_key = c.pattern_key;
        if !node.raises {
            keep_open_key(a, c, false);
            keep_pattern(a, lower::open_key(c, false), node.pattern);
        } else {
            let subject = lower::pattern_slot(c, "subject"@);
            keep_open_key(a, lower::with_pattern_slot(c, "subject"@).emit(Insn::SetLocal(subject, 0)),
                true,
            );
            let c = lower::open_key(
                lower::with_pattern_slot(c, "subject"@).emit(Insn::SetLocal(subject, 0)),
                true,
            );
            let before = c.depth;
            keep_pattern(a, c.emit(Insn::GetLocal(subject, 0)), node.pattern);
            if let Ok(c) = lower::lower_pattern(c.emit(Insn::GetLocal(subject, 0)), node.pattern) {
                let to_ok = c.here();
                keep_pattern_failure(a, c.emit(Insn::JumpIf(0)), subject);
            }
        }
    }
}

/// [`lower::lower_pattern`] leaves alone what was there.
pub proof fn keep_pattern(
    a: Code,
    c: Code,
    pat: Expr,
)
    requires
        kept(a, c),
    ensures
        lower::lower_pattern(c, pat) matches Ok(after) ==> stays(a, c, after),
    decreases pat, 1nat,
{
    broadcast use group_kept;

    match pat.kind {
        ExprKind::Var(VarRef::Local { name, depth }) => {
            keep_write_local(a, c, name@, depth, pat.span);
        },
        ExprKind::Pin(inner) => {
            keep_expr(a, c, *inner);
        },
        ExprKind::AltPattern(alt) => {
            keep_pattern(a, c.emit(Insn::Dup), alt.left);
            if let Ok(c) = lower::lower_pattern(c.emit(Insn::Dup), alt.left) {
                let to_right = c.here();
                let c = c.emit(Insn::JumpUnless(0));
                let matched = c.depth;
                let c = c.emit(Insn::Pop).emit(Insn::PushTrue);
                let to_end = c.here();
                let c = c.emit(Insn::Jump(0)).patch_here(to_right).at_depth(matched);
                keep_pattern(a, c, alt.right);
            }
        },
        ExprKind::CapturePattern(capture) => {
            keep_capture(a, c, *capture);
        },
        ExprKind::ArrayPattern(node) => {
            keep_array_pattern(a, lower::deeper(c), *node, pat.span);
        },
        ExprKind::FindPattern(node) => {
            keep_find_pattern(a, lower::deeper(c), *node);
        },
        ExprKind::HashPattern(node) => {
            keep_hash_pattern(a, lower::deeper(c), *node, pat.span);
        },
        _ => {
            keep_expr(a, c, pat);
        },
    }
}

/// [`lower::lower_capture`] leaves alone what was there.
pub proof fn keep_capture(
    a: Code,
    c: Code,
    capture: CapturePattern,
)
    requires
        kept(a, c),
    ensures
        lower::lower_capture(c, capture) matches Ok(after) ==> stays(a, c, after),
    decreases capture, 0nat,
{
    broadcast use group_kept;

    keep_pattern(a, c.emit(Insn::Dup), capture.value);
    if let Ok(c) = lower::lower_pattern(c.emit(Insn::Dup), capture.value) {
        let to_fail = c.here();
        let c = c.emit(Insn::JumpUnless(0));
        let held = c.depth;
        keep_place(a, c, capture.target);
        if let Ok((c, place)) = lower::lower_place(c, capture.target) {
            keep_write_place(a, c, place);
        }
    }
}

/// [`lower::lower_pattern_class`] leaves alone what was there.
pub proof fn keep_pattern_class(
    a: Code,
    c: Code,
    constant: Option<Expr>,
    subject: u16,
)
    requires
        kept(a, c),
    ensures
        lower::lower_pattern_class(c, constant, subject) matches Ok((after, made)) ==> stays(a, c, after) && behind(a, after, made),
    decreases constant, 0nat,
{
    broadcast use group_kept;

    if let Some(constant) = constant {
        keep_expr(a, c.emit(Insn::GetLocal(subject, 0)), constant);
        if let Ok(c) = lower::lower_expr(c.emit(Insn::GetLocal(subject, 0)), constant) {
            let c = c.emit(Insn::CaseEq);
            lemma_behind_one(a, c, c.emit(Insn::JumpUnless(0)));
        }
    }
}

/// [`lower::deconstructed`] leaves alone what was there.
pub proof fn keep_deconstructed(
    a: Code,
    c: Code,
    parts: u16,
    subject: u16,
    cache: Option<u16>,
)
    requires
        kept(a, c),
    ensures
        ({
            let after = lower::deconstructed(c, parts, subject, cache);
            stays(a, c, after)
        }),
{
    broadcast use group_kept;
}

/// [`lower::finish_pattern`] leaves alone what was there.
pub proof fn keep_finish_pattern(
    a: Code,
    c: Code,
    base: nat,
    fails: Seq<usize>,
)
    requires
        kept(a, c),
        behind(a, c, fails),
    ensures
        ({
            let after = lower::finish_pattern(c, base, fails);
            stays(a, c, after)
        }),
{
    broadcast use group_kept;
}

/// [`lower::measured`] leaves alone what was there.
pub proof fn keep_measured(
    a: Code,
    c: Code,
    parts: u16,
    length: u16,
)
    requires
        kept(a, c),
    ensures
        ({
            let after = lower::measured(c, parts, length);
            stays(a, c, after)
        }),
{
    broadcast use group_kept;
}

/// [`lower::lower_array_pattern`] leaves alone what was there.
pub proof fn keep_array_pattern(
    a: Code,
    c: Code,
    node: ArrayPattern,
    span: Span,
)
    requires
        kept(a, c),
    ensures
        lower::lower_array_pattern(c, node, span) matches Ok(after) ==> stays(a, c, after),
    decreases node, 0nat,
{
    broadcast use group_kept;

    let subject = lower::pattern_slot(c, "subject"@);
    let c = lower::with_pattern_slot(c, "subject"@);
    let parts = lower::pattern_slot(c, "parts"@);
    let c = lower::with_pattern_slot(c, "parts"@);
    let length = lower::pattern_slot(c, "length"@);
    let c = lower::with_pattern_slot(c, "length"@).emit(Insn::SetLocal(subject, 0));
    let base = c.depth;
    keep_pattern_class(a, c, node.constant, subject);
    if let Ok((c, fails)) = lower::lower_pattern_class(c, node.constant, subject) {
        let cache = c.pattern_cache;
        let asked = c;
        keep_deconstructed(a, c, parts, subject, cache);
        let c = lower::deconstructed(c, parts, subject, cache);
        lemma_behind_push(a, asked, c, fails, c);
        let fails = fails.push(c.here() as usize);
        let asked = c;
        keep_measured(a, c.emit(Insn::JumpUnless(0)), parts, length);
        let c = lower::measured(c.emit(Insn::JumpUnless(0)), parts, length);
        if !(node.requireds@.len() > WIDEST || node.posts@.len() > WIDEST) {
            let fixed = node.requireds@.len() + node.posts@.len();
            let c = c.emit(Insn::GetLocal(length, 0))
                .emit(Insn::PushInt(fixed as i64))
                .emit(Insn::BinOp(if node.rest is Some { BinOp::Ge } else { BinOp::Eq }));
            lemma_behind_push(a, asked, c, fails, c.emit(Insn::JumpUnless(0)));
            let fails = fails.push(c.here() as usize);
            keep_requireds(a, c.emit(Insn::JumpUnless(0)), node.requireds@, 0, parts, fails);
            if let Ok((c, fails)) = lower::lower_requireds(c.emit(Insn::JumpUnless(0)), node.requireds@, 0, parts, fails) {
                keep_posts(a, c, node.posts@, 0, parts, length, fails);
                if let Ok((c, fails)) = lower::lower_posts(c, node.posts@, 0, parts, length, fails) {
                    let asked = c;
                    if let Some(rest) = node.rest {
                        if let Some((name, depth)) = names::rest_local(rest) {
                            keep_write_local(a, c.emit(Insn::GetLocal(parts, 0))
                                    .emit(Insn::PushInt(node.requireds@.len() as i64))
                                    .emit(Insn::GetLocal(length, 0))
                                    .emit(Insn::PushInt(fixed as i64))
                                    .emit(Insn::BinOp(BinOp::Sub))
                                    .send("__take__"@, 2, false),
                                name,
                                depth,
                                span,
                            );
                        }
                    }
                    let taken = match node.rest {
                        Some(rest) => match names::rest_local(rest) {
                            Some((name, depth)) => lower::write_local(
                                c.emit(Insn::GetLocal(parts, 0))
                                    .emit(Insn::PushInt(node.requireds@.len() as i64))
                                    .emit(Insn::GetLocal(length, 0))
                                    .emit(Insn::PushInt(fixed as i64))
                                    .emit(Insn::BinOp(BinOp::Sub))
                                    .send("__take__"@, 2, false),
                                name,
                                depth,
                                span,
                            ),
                            None => Ok(c),
                        },
                        None => Ok(c),
                    };
                    if let Ok(c) = taken {
                        lemma_behind_grown(a, asked, c.with_pattern_cache(cache), fails);
                        keep_finish_pattern(a, c.with_pattern_cache(cache), base, fails);
                    }
                }
            }
        }
    }
}

/// [`lower::lower_requireds`] leaves alone what was there.
pub proof fn keep_requireds(
    a: Code,
    c: Code,
    elements: Seq<Expr>,
    from: nat,
    parts: u16,
    fails: Seq<usize>,
)
    requires
        kept(a, c),
        behind(a, c, fails),
    ensures
        lower::lower_requireds(c, elements, from, parts, fails) matches Ok((after, made)) ==> stays(a, c, after) && behind(a, after, made),
    decreases elements, elements.len() - from,
{
    broadcast use group_kept;

    let was = c;
    if from < elements.len() {
        keep_pattern(a, c.emit(Insn::GetLocal(parts, 0)).emit(Insn::PushInt(from as i64)).send("[]"@, 1, false),
            elements[from as int],
        );
        if let Ok(c) = lower::lower_pattern(
            c.emit(Insn::GetLocal(parts, 0)).emit(Insn::PushInt(from as i64)).send("[]"@, 1, false),
            elements[from as int],
        ) {
            lemma_behind_push(a, was, c, fails, c.emit(Insn::JumpUnless(0)));
            keep_requireds(a, c.emit(Insn::JumpUnless(0)),
                elements,
                from + 1,
                parts,
                fails.push(c.here() as usize),
            );
        }
    }
}

/// [`lower::lower_posts`] leaves alone what was there.
pub proof fn keep_posts(
    a: Code,
    c: Code,
    elements: Seq<Expr>,
    from: nat,
    parts: u16,
    length: u16,
    fails: Seq<usize>,
)
    requires
        kept(a, c),
        behind(a, c, fails),
    ensures
        lower::lower_posts(c, elements, from, parts, length, fails) matches Ok((after, made)) ==> stays(a, c, after) && behind(a, after, made),
    decreases elements, elements.len() - from,
{
    broadcast use group_kept;

    let was = c;
    if from < elements.len() {
        keep_pattern(a, c.emit(Insn::GetLocal(parts, 0))
                .emit(Insn::GetLocal(length, 0))
                .emit(Insn::PushInt((elements.len() - from) as i64))
                .emit(Insn::BinOp(BinOp::Sub))
                .send("[]"@, 1, false),
            elements[from as int],
        );
        if let Ok(c) = lower::lower_pattern(
            c.emit(Insn::GetLocal(parts, 0))
                .emit(Insn::GetLocal(length, 0))
                .emit(Insn::PushInt((elements.len() - from) as i64))
                .emit(Insn::BinOp(BinOp::Sub))
                .send("[]"@, 1, false),
            elements[from as int],
        ) {
            lemma_behind_push(a, was, c, fails, c.emit(Insn::JumpUnless(0)));
            keep_posts(a, c.emit(Insn::JumpUnless(0)),
                elements,
                from + 1,
                parts,
                length,
                fails.push(c.here() as usize),
            );
        }
    }
}

/// [`lower::lower_find_pattern`] leaves alone what was there.
pub proof fn keep_find_pattern(
    a: Code,
    c: Code,
    node: FindPattern,
)
    requires
        kept(a, c),
    ensures
        lower::lower_find_pattern(c, node) matches Ok(after) ==> stays(a, c, after),
    decreases node, 0nat,
{
    broadcast use group_kept;

    let subject = lower::pattern_slot(c, "subject"@);
    let c = lower::with_pattern_slot(c, "subject"@);
    let parts = lower::pattern_slot(c, "parts"@);
    let c = lower::with_pattern_slot(c, "parts"@);
    let length = lower::pattern_slot(c, "length"@);
    let c = lower::with_pattern_slot(c, "length"@);
    let cursor = lower::pattern_slot(c, "cursor"@);
    let c = lower::with_pattern_slot(c, "cursor"@).emit(Insn::SetLocal(subject, 0));
    let base = c.depth;
    keep_pattern_class(a, c, node.constant, subject);
    if let Ok((c, fails)) = lower::lower_pattern_class(c, node.constant, subject) {
        let cache = c.pattern_cache;
        let asked = c;
        keep_deconstructed(a, c, parts, subject, cache);
        let c = lower::deconstructed(c, parts, subject, cache);
        lemma_behind_push(a, asked, c, fails, c);
        let fails = fails.push(c.here() as usize);
        let asked = c;
        let width = node.requireds@.len() as i64;
        keep_measured(a, c.emit(Insn::JumpUnless(0)), parts, length);
        let c = lower::measured(c.emit(Insn::JumpUnless(0)), parts, length)
            .emit(Insn::PushInt(0))
            .emit(Insn::SetLocal(cursor, 0));
        let top = c.here();
        keep_past_cursor(a, c, cursor, width);
        let c = lower::past_cursor(c, cursor, width)
            .emit(Insn::GetLocal(length, 0))
            .emit(Insn::BinOp(BinOp::Le));
        lemma_behind_push(a, asked, c, fails, c);
        let fails = fails.push(c.here() as usize);
        let asked = c;
        keep_found(a, c.emit(Insn::JumpUnless(0)), node.requireds@, 0, parts, cursor, Seq::empty());
        if let Ok((c, retry)) = lower::lower_found(
            c.emit(Insn::JumpUnless(0)),
            node.requireds@,
            0,
            parts,
            cursor,
            Seq::empty(),
        ) {
            let found = c;
            if let Some((name, depth)) = names::rest_local(node.left) {
                keep_write_local(a, c.emit(Insn::GetLocal(parts, 0))
                        .emit(Insn::PushInt(0))
                        .emit(Insn::GetLocal(cursor, 0))
                        .send("__take__"@, 2, false),
                    name,
                    depth,
                    node.left.span,
                );
            }
            let before = match names::rest_local(node.left) {
                Some((name, depth)) => lower::write_local(
                    c.emit(Insn::GetLocal(parts, 0))
                        .emit(Insn::PushInt(0))
                        .emit(Insn::GetLocal(cursor, 0))
                        .send("__take__"@, 2, false),
                    name,
                    depth,
                    node.left.span,
                ),
                None => Ok(c),
            };
            if let Ok(c) = before {
                if let Some((name, depth)) = names::rest_local(node.right) {
                    keep_past_cursor(a, c.emit(Insn::GetLocal(parts, 0)), cursor, width);
                    keep_past_cursor(a, lower::past_cursor(c.emit(Insn::GetLocal(parts, 0)), cursor, width)
                            .emit(Insn::GetLocal(length, 0)),
                        cursor,
                        width,
                    );
                    keep_write_local(a, lower::past_cursor(
                            lower::past_cursor(c.emit(Insn::GetLocal(parts, 0)), cursor, width)
                                .emit(Insn::GetLocal(length, 0)),
                            cursor,
                            width,
                        )
                            .emit(Insn::BinOp(BinOp::Sub))
                            .send("__take__"@, 2, false),
                        name,
                        depth,
                        node.right.span,
                    );
                }
                let after = match names::rest_local(node.right) {
                    Some((name, depth)) => lower::write_local(
                        lower::past_cursor(
                            lower::past_cursor(c.emit(Insn::GetLocal(parts, 0)), cursor, width)
                                .emit(Insn::GetLocal(length, 0)),
                            cursor,
                            width,
                        )
                            .emit(Insn::BinOp(BinOp::Sub))
                            .send("__take__"@, 2, false),
                        name,
                        depth,
                        node.right.span,
                    ),
                    None => Ok(c),
                };
                if let Ok(c) = after {
                    let matched = c.here();
                    let c = c.emit(Insn::Jump(0));
                    lemma_behind_grown(a, found, c, retry);
                    keep_past_cursor(a, c.patch_all(retry, c.here()).at_depth(base), cursor, 1);
                    let c = lower::past_cursor(c.patch_all(retry, c.here()).at_depth(base), cursor, 1)
                        .emit(Insn::SetLocal(cursor, 0));
                    let c = c.emit(Insn::Jump(0)).patch(c.here(), top).patch_here(matched).at_depth(base);
                    lemma_behind_grown(a, asked, c.with_pattern_cache(cache), fails);
                    keep_finish_pattern(a, c.with_pattern_cache(cache), base, fails);
                }
            }
        }
    }
}

/// [`lower::past_cursor`] leaves alone what was there.
pub proof fn keep_past_cursor(
    a: Code,
    c: Code,
    cursor: u16,
    width: i64,
)
    requires
        kept(a, c),
    ensures
        ({
            let after = lower::past_cursor(c, cursor, width);
            stays(a, c, after)
        }),
{
    broadcast use group_kept;
}

/// [`lower::lower_found`] leaves alone what was there.
pub proof fn keep_found(
    a: Code,
    c: Code,
    elements: Seq<Expr>,
    from: nat,
    parts: u16,
    cursor: u16,
    retry: Seq<usize>,
)
    requires
        kept(a, c),
        behind(a, c, retry),
    ensures
        lower::lower_found(c, elements, from, parts, cursor, retry) matches Ok((after, made)) ==> stays(a, c, after) && behind(a, after, made),
    decreases elements, elements.len() - from,
{
    broadcast use group_kept;

    let was = c;
    if from < elements.len() {
        keep_past_cursor(a, c.emit(Insn::GetLocal(parts, 0)), cursor, from as i64);
        keep_pattern(a, lower::past_cursor(c.emit(Insn::GetLocal(parts, 0)), cursor, from as i64)
                .send("[]"@, 1, false),
            elements[from as int],
        );
        if let Ok(c) = lower::lower_pattern(
            lower::past_cursor(c.emit(Insn::GetLocal(parts, 0)), cursor, from as i64)
                .send("[]"@, 1, false),
            elements[from as int],
        ) {
            lemma_behind_push(a, was, c, retry, c.emit(Insn::JumpUnless(0)));
            keep_found(a, c.emit(Insn::JumpUnless(0)),
                elements,
                from + 1,
                parts,
                cursor,
                retry.push(c.here() as usize),
            );
        }
    }
}

/// [`lower::pattern_keys`] leaves alone what was there.
pub proof fn keep_pattern_keys(
    a: Code,
    c: Code,
    elements: Seq<HashEntry>,
    from: nat,
    keys: Seq<u32>,
)
    requires
        kept(a, c),
    ensures
        lower::pattern_keys(c, elements, from, keys) matches Ok((after, _)) ==> stays(a, c, after),
    decreases elements.len() - from,
{
    broadcast use group_kept;

    if from < elements.len() {
        if let Ok(key) = lower::pattern_key_of(elements[from as int]) {
            keep_pattern_keys(a, c.symbol(key), elements, from + 1, keys.push(c.symbol_at(key)));
        }
    }
}

/// [`lower::push_symbols`] leaves alone what was there.
pub proof fn keep_push_symbols(
    a: Code,
    c: Code,
    symbols: Seq<u32>,
    from: nat,
)
    requires
        kept(a, c),
    ensures
        ({
            let after = lower::push_symbols(c, symbols, from);
            stays(a, c, after)
        }),
    decreases symbols.len() - from,
{
    broadcast use group_kept;

    if from < symbols.len() {
        keep_push_symbols(a, c.emit(Insn::PushSym(symbols[from as int])), symbols, from + 1);
    }
}

/// [`lower::sized`] leaves alone what was there.
pub proof fn keep_sized(
    a: Code,
    c: Code,
    pairs: u16,
    count: i64,
)
    requires
        kept(a, c),
    ensures
        ({
            let after = lower::sized(c, pairs, count);
            stays(a, c, after)
        }),
{
    broadcast use group_kept;
}

/// [`lower::lower_hash_pattern`] leaves alone what was there.
pub proof fn keep_hash_pattern(
    a: Code,
    c: Code,
    node: HashPattern,
    span: Span,
)
    requires
        kept(a, c),
    ensures
        lower::lower_hash_pattern(c, node, span) matches Ok(after) ==> stays(a, c, after),
    decreases node, 0nat,
{
    broadcast use group_kept;

    let subject = lower::pattern_slot(c, "subject"@);
    let c = lower::with_pattern_slot(c, "subject"@);
    let pairs = lower::pattern_slot(c, "pairs"@);
    let c = lower::with_pattern_slot(c, "pairs"@).emit(Insn::SetLocal(subject, 0));
    let base = c.depth;
    keep_pattern_class(a, c, node.constant, subject);
    if let Ok((c, fails)) = lower::lower_pattern_class(c, node.constant, subject) {
        let asked = c;
        keep_pattern_keys(a, c, node.elements@, 0, Seq::empty());
        if let Ok((c, keys)) = lower::pattern_keys(c, node.elements@, 0, Seq::empty()) {
            let c = c.emit(Insn::PushSelf).emit(Insn::GetLocal(subject, 0));
            let all = node.rest matches Some(PatternRest::Splat(_));
            if !(!all && keys.len() > u32::MAX) {
                if !all {
                    keep_push_symbols(a, c, keys, 0);
                }
                let c = if all {
                    c.emit(Insn::PushNil)
                } else {
                    lower::push_symbols(c, keys, 0).emit(Insn::NewArray(keys.len() as u32))
                };
                let c = c.send("__pattern_deconstruct_keys__"@, 2, true)
                    .emit(Insn::Dup)
                    .emit(Insn::SetLocal(pairs, 0));
                lemma_behind_push(a, asked, c, fails, c.emit(Insn::JumpUnless(0)).with_pattern_cache(None));
                let fails = fails.push(c.here() as usize);
                let cache = c.pattern_cache;
                let c = c.emit(Insn::JumpUnless(0)).with_pattern_cache(None);
                keep_pairs(a, c, node.elements@, 0, keys, pairs, fails);
                if let Ok((c, fails)) = lower::lower_pairs(c, node.elements@, 0, keys, pairs, fails) {
                    keep_pattern_rest(a, c, node, keys, pairs, fails, span);
                    if let Ok((c, fails)) = lower::lower_pattern_rest(c, node, keys, pairs, fails, span) {
                        lemma_behind_grown(a, c, c.with_pattern_cache(cache), fails);
                        keep_finish_pattern(a, c.with_pattern_cache(cache), base, fails);
                    }
                }
            }
        }
    }
}

/// [`lower::key_tested`] leaves alone what was there.
pub proof fn keep_key_tested(
    a: Code,
    c: Code,
    key: u32,
    pairs: u16,
    fails: Seq<usize>,
)
    requires
        kept(a, c),
        behind(a, c, fails),
    ensures
        ({
            let (after, made) = lower::key_tested(c, key, pairs, fails);
            stays(a, c, after) && behind(a, after, made)
        }),
{
    broadcast use group_kept;

    let was = c;
    let c = c.emit(Insn::GetLocal(pairs, 0)).emit(Insn::PushSym(key)).send("key?"@, 1, false);
    match c.pattern_key {
        None => {
            lemma_behind_push(a, was, c, fails, c.emit(Insn::JumpUnless(0)));
        },
        Some(slot) => {
            let found = c.here();
            let c = c.emit(Insn::JumpIf(0));
            let missed = c.depth;
            let c = c.emit(Insn::PushSym(key)).emit(Insn::SetLocal(slot, 0));
            lemma_behind_push(
                a,
                was,
                c,
                fails,
                c.emit(Insn::Jump(0)).patch_here(found).at_depth(missed),
            );
        },
    }
}

/// [`lower::lower_pairs`] leaves alone what was there.
pub proof fn keep_pairs(
    a: Code,
    c: Code,
    elements: Seq<HashEntry>,
    from: nat,
    keys: Seq<u32>,
    pairs: u16,
    fails: Seq<usize>,
)
    requires
        kept(a, c),
        behind(a, c, fails),
    ensures
        lower::lower_pairs(c, elements, from, keys, pairs, fails) matches Ok((after, made)) ==> stays(a, c, after) && behind(a, after, made),
    decreases elements, elements.len() - from,
{
    broadcast use group_kept;

    if from < elements.len() {
        if let HashEntryKind::Pair { key: _, value } = elements[from as int].kind {
            let key = keys[from as int];
            keep_key_tested(a, c, key, pairs, fails);
            let (c, fails) = lower::key_tested(c, key, pairs, fails);
            let was = c;
            let c = c.emit(Insn::GetLocal(pairs, 0)).emit(Insn::PushSym(key)).send("[]"@, 1, false);
            match value.kind {
                ExprKind::Implicit(inner) => {
                    keep_pattern(a, c, *inner);
                },
                _ => {
                    keep_pattern(a, c, value);
                },
            }
            let matched = match value.kind {
                ExprKind::Implicit(inner) => lower::lower_pattern(c, *inner),
                _ => lower::lower_pattern(c, value),
            };
            if let Ok(c) = matched {
                lemma_behind_push(a, was, c, fails, c.emit(Insn::JumpUnless(0)));
                keep_pairs(a, c.emit(Insn::JumpUnless(0)),
                    elements,
                    from + 1,
                    keys,
                    pairs,
                    fails.push(c.here() as usize),
                );
            }
        }
    }
}

/// [`lower::lower_pattern_rest`] leaves alone what was there.
pub proof fn keep_pattern_rest(
    a: Code,
    c: Code,
    node: HashPattern,
    keys: Seq<u32>,
    pairs: u16,
    fails: Seq<usize>,
    span: Span,
)
    requires
        kept(a, c),
        behind(a, c, fails),
    ensures
        lower::lower_pattern_rest(c, node, keys, pairs, fails, span) matches Ok((after, made)) ==> stays(a, c, after) && behind(a, after, made),
{
    broadcast use group_kept;

    match node.rest {
        Some(PatternRest::Forbidden) => {
            keep_sized(a, c, pairs, keys.len() as i64);
            let tested = lower::sized(c, pairs, keys.len() as i64);
            lemma_behind_push(a, c, tested, fails, tested.emit(Insn::JumpUnless(0)));
        },
        Some(PatternRest::Splat(Some(target))) => {
            let was = c;
            keep_push_symbols(a, c.emit(Insn::PushSelf).emit(Insn::GetLocal(pairs, 0)), keys, 0);
            let c = lower::push_symbols(c.emit(Insn::PushSelf).emit(Insn::GetLocal(pairs, 0)), keys, 0)
                .emit(Insn::NewArray(keys.len() as u32))
                .send("__pattern_rest__"@, 2, true);
            if let Some((name, depth)) = names::rest_local(target) {
                keep_write_local(a, c, name, depth, span);
                if let Ok(written) = lower::write_local(c, name, depth, span) {
                    lemma_behind_grown(a, was, written, fails);
                }
            } else {
                lemma_behind_grown(a, was, c.emit(Insn::Pop), fails);
            }
        },
        None => {
            if node.elements@.len() == 0 {
                keep_sized(a, c, pairs, 0);
                let tested = lower::sized(c, pairs, 0);
                lemma_behind_push(a, c, tested, fails, tested.emit(Insn::JumpUnless(0)));
            }
        },
        _ => {},
    }
}

} // verus!
