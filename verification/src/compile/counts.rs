//! What each operation on code does to the number of instructions and of
//! operands.

use vstd::prelude::*;

use crate::bytecode::{BinOp, BlockRef, CatchEntry, ClassDef, ConstScope, Insn, MatchRef};
use crate::compile::code::{Code, IseqModel, LiteralModel, ParamModel, SiteModel, ZsuperModel};
use crate::compile::lower::Place;

verus! {

/// Whether code is small enough for its tables: places, call sites and class
/// definitions are told apart by 32 bits.
pub open spec fn fits(c: Code) -> bool {
    &&& c.insns.len() <= u32::MAX
    &&& c.call_sites.len() <= u32::MAX
    &&& c.class_defs.len() <= u32::MAX
}

/// Whether there are no more operands than instructions to have pushed them.
pub open spec fn level(c: Code) -> bool {
    c.depth <= c.insns.len()
}

/// Whether code only grew.
pub open spec fn grown(a: Code, b: Code) -> bool {
    &&& a.insns.len() <= b.insns.len()
    &&& a.call_sites.len() <= b.call_sites.len()
    &&& a.class_defs.len() <= b.class_defs.len()
}

/// Whether code grew from `a` to `b`, and what was added takes what it needs
/// of at least `need` operands and leaves `delta` more.
pub open spec fn leaves(a: Code, b: Code, delta: int, need: int) -> bool {
    &&& grown(a, b)
    &&& level(a) ==> level(b)
    &&& level(a) && fits(b) && a.depth >= need ==> b.depth == a.depth + delta
}

/// Whether a place has no more arguments than a call can be written with.
pub open spec fn narrow(place: Place) -> bool {
    place matches Place::Send { receiver: _, args, get: _ } ==> args.len() < u16::MAX
}

/// Whether all of several places are.
pub open spec fn all_narrow(places: Seq<Option<Place>>) -> bool {
    forall|i: int|
        0 <= i < places.len() ==> ((#[trigger] places[i]) matches Some(place) ==> narrow(place))
}

/// One, where something holds.
pub open spec fn one_if(b: bool) -> int {
    if b {
        1
    } else {
        0
    }
}

/// How many there are from some place on.
pub open spec fn rest(len: nat, from: nat) -> int {
    if from < len {
        len - from
    } else {
        0
    }
}

// ---------------------------------------------------------------------------
// What each operation on code does to the counts
// ---------------------------------------------------------------------------

/// Whether two codes have the same counts.
pub open spec fn counts_kept(a: Code, b: Code) -> bool {
    &&& b.insns.len() == a.insns.len()
    &&& b.depth == a.depth
    &&& b.call_sites == a.call_sites
    &&& b.class_defs == a.class_defs
}

/// What [`Code::emit`] does to the counts.
pub broadcast proof fn lemma_emit(c: Code, insn: Insn)
    ensures
        (#[trigger] c.emit(insn)).insns.len() == c.insns.len() + 1,
        0 <= c.depth + c.effect(insn) <= usize::MAX ==> c.emit(insn).depth == c.depth + c.effect(
            insn,
        ),
        level(c) ==> level(c.emit(insn)),
        c.emit(insn).call_sites == c.call_sites,
        c.emit(insn).class_defs == c.class_defs,
{
    reveal(Code::emit);
    reveal(Code::effect);
    reveal(Code::site_operands);
}

/// What [`Code::slot`] does to the counts.
pub broadcast proof fn lemma_slot(c: Code, name: Seq<char>)
    ensures
        counts_kept(c, #[trigger] c.slot(name)),
{
    reveal(Code::slot);
}

/// What [`Code::symbol`] does to the counts.
pub broadcast proof fn lemma_symbol(c: Code, name: Seq<char>)
    ensures
        counts_kept(c, #[trigger] c.symbol(name)),
{
    reveal(Code::symbol);
}

/// What [`Code::literal`] does to the counts.
pub broadcast proof fn lemma_literal(c: Code, literal: LiteralModel)
    ensures
        counts_kept(c, #[trigger] c.literal(literal)),
{
    reveal(Code::literal);
}

/// What [`Code::patch`] does to the counts.
pub broadcast proof fn lemma_patch(c: Code, at: nat, target: nat)
    ensures
        counts_kept(c, #[trigger] c.patch(at, target)),
{
    reveal(Code::patch);
}

/// What [`Code::patch_here`] does to the counts.
pub broadcast proof fn lemma_patch_here(c: Code, at: nat)
    ensures
        counts_kept(c, #[trigger] c.patch_here(at)),
{
    reveal(Code::patch_here);
    reveal(Code::patch);
}

/// What [`Code::push_child`] does to the counts.
pub broadcast proof fn lemma_push_child(c: Code, child: IseqModel)
    ensures
        counts_kept(c, #[trigger] c.push_child(child)),
{
    reveal(Code::push_child);
}

/// What [`Code::push_definition`] does to the counts.
pub broadcast proof fn lemma_push_definition(c: Code, name: u32, child: u32)
    ensures
        counts_kept(c, #[trigger] c.push_definition(name, child)),
{
    reveal(Code::push_definition);
}

/// What [`Code::guard`] does to the counts.
pub broadcast proof fn lemma_guard(c: Code, entry: CatchEntry)
    ensures
        counts_kept(c, #[trigger] c.guard(entry)),
{
    reveal(Code::guard);
}

/// What [`Code::push_loop`] does to the counts.
pub broadcast proof fn lemma_push_loop(c: Code)
    ensures
        counts_kept(c, #[trigger] c.push_loop()),
{
    reveal(Code::push_loop);
}

/// What [`Code::pop_loop`] does to the counts.
pub broadcast proof fn lemma_pop_loop(c: Code)
    ensures
        counts_kept(c, #[trigger] c.pop_loop()),
{
    reveal(Code::pop_loop);
}

/// What [`Code::next_at`] does to the counts.
pub broadcast proof fn lemma_next_at(c: Code, target: nat)
    ensures
        counts_kept(c, #[trigger] c.next_at(target)),
{
    reveal(Code::next_at);
}

/// What [`Code::redo_at`] does to the counts.
pub broadcast proof fn lemma_redo_at(c: Code, target: nat)
    ensures
        counts_kept(c, #[trigger] c.redo_at(target)),
{
    reveal(Code::redo_at);
}

/// What [`Code::add_break`] does to the counts.
pub broadcast proof fn lemma_add_break(c: Code, at: nat)
    ensures
        counts_kept(c, #[trigger] c.add_break(at)),
{
    reveal(Code::add_break);
}

/// What [`Code::push_retry`] does to the counts.
pub broadcast proof fn lemma_push_retry(c: Code, body_start: nat, base: nat)
    ensures
        counts_kept(c, #[trigger] c.push_retry(body_start, base)),
{
    reveal(Code::push_retry);
}

/// What [`Code::pop_retry`] does to the counts.
pub broadcast proof fn lemma_pop_retry(c: Code)
    ensures
        counts_kept(c, #[trigger] c.pop_retry()),
{
    reveal(Code::pop_retry);
}

/// What [`Code::owe`] does to the counts.
pub broadcast proof fn lemma_owe(c: Code, owed: nat)
    ensures
        counts_kept(c, #[trigger] c.owe(owed)),
{
    reveal(Code::owe);
}

/// What [`Code::at_pattern_depth`] does to the counts.
pub broadcast proof fn lemma_at_pattern_depth(c: Code, depth: nat)
    ensures
        counts_kept(c, #[trigger] c.at_pattern_depth(depth)),
{
    reveal(Code::at_pattern_depth);
}

/// What [`Code::with_pattern_key`] does to the counts.
pub broadcast proof fn lemma_with_pattern_key(c: Code, key: Option<u16>)
    ensures
        counts_kept(c, #[trigger] c.with_pattern_key(key)),
{
    reveal(Code::with_pattern_key);
}

/// What [`Code::with_pattern_cache`] does to the counts.
pub broadcast proof fn lemma_with_pattern_cache(c: Code, cache: Option<u16>)
    ensures
        counts_kept(c, #[trigger] c.with_pattern_cache(cache)),
{
    reveal(Code::with_pattern_cache);
}

/// What [`Code::another_once`] does to the counts.
pub broadcast proof fn lemma_another_once(c: Code)
    ensures
        counts_kept(c, #[trigger] c.another_once()),
{
    reveal(Code::another_once);
}

/// What [`Code::patch_all`] does to the counts.
pub broadcast proof fn lemma_patch_all(c: Code, at: Seq<usize>, target: nat)
    ensures
        counts_kept(c, #[trigger] c.patch_all(at, target)),
    decreases at.len(),
{
    reveal(Code::patch_all);
    if at.len() > 0 {
        lemma_patch(c, at[0] as nat, target);
        lemma_patch_all(c.patch(at[0] as nat, target), at.skip(1), target);
    }
}

/// What [`Code::at_depth`] does to the counts.
pub broadcast proof fn lemma_at_depth(c: Code, depth: nat)
    ensures
        (#[trigger] c.at_depth(depth)).depth == depth,
        c.at_depth(depth).insns == c.insns,
        c.at_depth(depth).call_sites == c.call_sites,
        c.at_depth(depth).class_defs == c.class_defs,
{
    reveal(Code::at_depth);
}

/// What [`Code::handle_at`] does to the counts.
pub broadcast proof fn lemma_handle_at(c: Code, depth: nat)
    ensures
        (#[trigger] c.handle_at(depth)).depth == depth,
        c.handle_at(depth).insns == c.insns,
        c.handle_at(depth).call_sites == c.call_sites,
        c.handle_at(depth).class_defs == c.class_defs,
{
    reveal(Code::handle_at);
}

/// What [`Code::push_site`] does to the counts.
pub broadcast proof fn lemma_push_site(c: Code, site: SiteModel)
    ensures
        (#[trigger] c.push_site(site)).call_sites == c.call_sites.push(site),
        c.push_site(site).insns == c.insns,
        c.push_site(site).depth == c.depth,
        c.push_site(site).class_defs == c.class_defs,
{
    reveal(Code::push_site);
}

/// What [`Code::push_class_def`] does to the counts.
pub broadcast proof fn lemma_push_class_def(c: Code, def: ClassDef)
    ensures
        (#[trigger] c.push_class_def(def)).class_defs == c.class_defs.push(def),
        c.push_class_def(def).insns == c.insns,
        c.push_class_def(def).depth == c.depth,
        c.push_class_def(def).call_sites == c.call_sites,
{
    reveal(Code::push_class_def);
}

/// What [`Code::push_literal`] does to the counts.
pub broadcast proof fn lemma_push_literal(c: Code, literal: LiteralModel)
    ensures
        leaves(c, #[trigger] c.push_literal(literal), 1, 0),
        c.push_literal(literal).insns.len() == c.insns.len() + 1,
{
    reveal(Code::push_literal);
    reveal(Code::effect);
    lemma_literal(c, literal);
    lemma_emit(c.literal(literal), Insn::PushLit(c.literals.len() as u32));
}

/// What [`Code::push_const`] does to the counts.
pub broadcast proof fn lemma_push_const(c: Code, name: Seq<char>)
    ensures
        leaves(c, #[trigger] c.push_const(name), 1, 0),
        c.push_const(name).insns.len() == c.insns.len() + 1,
{
    reveal(Code::push_const);
    reveal(Code::effect);
    lemma_symbol(c, name);
    lemma_emit(c.symbol(name), Insn::GetConst(c.symbol_at(name), ConstScope::Lexical));
}

/// What [`Code::send`] does to the counts.
pub broadcast proof fn lemma_send(c: Code, name: Seq<char>, argc: u16, implicit_self: bool)
    ensures
        leaves(c, #[trigger] c.send(name, argc, implicit_self), -argc, argc + 1),
        c.send(name, argc, implicit_self).insns.len() == c.insns.len() + 1,
{
    reveal(Code::send);
    reveal(Code::effect);
    reveal(Code::site_operands);
    lemma_symbol(c, name);
    let site = SiteModel {
        name: c.symbol_at(name),
        argc,
        splats: Seq::empty(),
        keywords: Seq::empty(),
        block: BlockRef::Absent,
        implicit_self,
    };
    let with = c.symbol(name).push_site(site);
    lemma_push_site(c.symbol(name), site);
    lemma_emit(with, Insn::Send(c.call_sites.len() as u32));
}

/// What [`Code::pops`] does to the counts.
pub broadcast proof fn lemma_pops(c: Code, n: nat)
    ensures
        grown(c, #[trigger] c.pops(n)),
        level(c) ==> level(c.pops(n)),
    decreases n,
{
    reveal(Code::pops);
    reveal(Code::effect);
    if n > 0 {
        lemma_emit(c, Insn::Pop);
        lemma_pops(c.emit(Insn::Pop), (n - 1) as nat);
    }
}

/// What [`Code::goto_insn`] does to the counts.
pub broadcast proof fn lemma_goto(c: Code, depth: nat, carries: bool)
    ensures
        c.effect(#[trigger] c.goto_insn(depth, carries)) == 0,
{
    reveal(Code::goto_insn);
    reveal(Code::effect);
}

/// What [`Code::param_slot`] does to the counts.
pub broadcast proof fn lemma_param_slot(c: Code, name: Seq<char>, at: nat)
    ensures
        counts_kept(c, #[trigger] c.param_slot(name, at)),
{
    reveal(Code::param_slot);
    reveal(Code::slot);
}

/// What [`Code::with_params`] does to the counts.
pub broadcast proof fn lemma_with_params(c: Code, params: ParamModel)
    ensures
        counts_kept(c, #[trigger] c.with_params(params)),
{
    reveal(Code::with_params);
}

/// What [`Code::with_zsuper`] does to the counts.
pub broadcast proof fn lemma_with_zsuper(c: Code, zsuper: ZsuperModel)
    ensures
        counts_kept(c, #[trigger] c.with_zsuper(zsuper)),
{
    reveal(Code::with_zsuper);
}

/// What setting up a body's parameters does to the counts.
pub broadcast group group_heads {
    lemma_slot,
    lemma_symbol,
    lemma_param_slot,
    lemma_with_params,
    lemma_with_zsuper,
}

pub broadcast group group_counts {
    lemma_emit,
    lemma_slot,
    lemma_symbol,
    lemma_literal,
    lemma_patch,
    lemma_patch_here,
    lemma_push_child,
    lemma_push_definition,
    lemma_guard,
    lemma_push_loop,
    lemma_pop_loop,
    lemma_next_at,
    lemma_redo_at,
    lemma_add_break,
    lemma_push_retry,
    lemma_pop_retry,
    lemma_owe,
    lemma_at_pattern_depth,
    lemma_with_pattern_key,
    lemma_with_pattern_cache,
    lemma_another_once,
    lemma_patch_all,
    lemma_at_depth,
    lemma_handle_at,
    lemma_push_site,
    lemma_push_class_def,
    lemma_push_literal,
    lemma_push_const,
    lemma_send,
    lemma_pops,
    lemma_goto,
}

/// What an instruction leaves.
pub broadcast proof fn lemma_effect_push_nil(c: Code)
    ensures
        #[trigger] c.effect(Insn::PushNil) == 1,
{
    reveal(Code::effect);
}

/// What an instruction leaves.
pub broadcast proof fn lemma_effect_push_true(c: Code)
    ensures
        #[trigger] c.effect(Insn::PushTrue) == 1,
{
    reveal(Code::effect);
}

/// What an instruction leaves.
pub broadcast proof fn lemma_effect_push_false(c: Code)
    ensures
        #[trigger] c.effect(Insn::PushFalse) == 1,
{
    reveal(Code::effect);
}

/// What an instruction leaves.
pub broadcast proof fn lemma_effect_push_self(c: Code)
    ensures
        #[trigger] c.effect(Insn::PushSelf) == 1,
{
    reveal(Code::effect);
}

/// What an instruction leaves.
pub broadcast proof fn lemma_effect_push_int(c: Code, x0: i64)
    ensures
        #[trigger] c.effect(Insn::PushInt(x0)) == 1,
{
    reveal(Code::effect);
}

/// What an instruction leaves.
pub broadcast proof fn lemma_effect_push_lit(c: Code, x0: u32)
    ensures
        #[trigger] c.effect(Insn::PushLit(x0)) == 1,
{
    reveal(Code::effect);
}

/// What an instruction leaves.
pub broadcast proof fn lemma_effect_push_sym(c: Code, x0: u32)
    ensures
        #[trigger] c.effect(Insn::PushSym(x0)) == 1,
{
    reveal(Code::effect);
}

/// What an instruction leaves.
pub broadcast proof fn lemma_effect_pop(c: Code)
    ensures
        #[trigger] c.effect(Insn::Pop) == -1,
{
    reveal(Code::effect);
}

/// What an instruction leaves.
pub broadcast proof fn lemma_effect_dup(c: Code)
    ensures
        #[trigger] c.effect(Insn::Dup) == 1,
{
    reveal(Code::effect);
}

/// What an instruction leaves.
pub broadcast proof fn lemma_effect_get_local(c: Code, x0: u16, x1: u16)
    ensures
        #[trigger] c.effect(Insn::GetLocal(x0, x1)) == 1,
{
    reveal(Code::effect);
}

/// What an instruction leaves.
pub broadcast proof fn lemma_effect_set_local(c: Code, x0: u16, x1: u16)
    ensures
        #[trigger] c.effect(Insn::SetLocal(x0, x1)) == -1,
{
    reveal(Code::effect);
}

/// What an instruction leaves.
pub broadcast proof fn lemma_effect_jump(c: Code, x0: i32)
    ensures
        #[trigger] c.effect(Insn::Jump(x0)) == 0,
{
    reveal(Code::effect);
}

/// What an instruction leaves.
pub broadcast proof fn lemma_effect_jump_unless(c: Code, x0: i32)
    ensures
        #[trigger] c.effect(Insn::JumpUnless(x0)) == -1,
{
    reveal(Code::effect);
}

/// What an instruction leaves.
pub broadcast proof fn lemma_effect_jump_if(c: Code, x0: i32)
    ensures
        #[trigger] c.effect(Insn::JumpIf(x0)) == -1,
{
    reveal(Code::effect);
}

/// What an instruction leaves.
pub broadcast proof fn lemma_effect_jump_unless_keep(c: Code, x0: i32)
    ensures
        #[trigger] c.effect(Insn::JumpUnlessKeep(x0)) == 0,
{
    reveal(Code::effect);
}

/// What an instruction leaves.
pub broadcast proof fn lemma_effect_jump_if_keep(c: Code, x0: i32)
    ensures
        #[trigger] c.effect(Insn::JumpIfKeep(x0)) == 0,
{
    reveal(Code::effect);
}

/// What an instruction leaves.
pub broadcast proof fn lemma_effect_jump_unless_undef(c: Code, x0: i32)
    ensures
        #[trigger] c.effect(Insn::JumpUnlessUndef(x0)) == -1,
{
    reveal(Code::effect);
}

/// What an instruction leaves.
pub broadcast proof fn lemma_effect_bin_op(c: Code, x0: BinOp)
    ensures
        #[trigger] c.effect(Insn::BinOp(x0)) == -1,
{
    reveal(Code::effect);
}

/// What an instruction leaves.
pub broadcast proof fn lemma_effect_neg(c: Code)
    ensures
        #[trigger] c.effect(Insn::Neg) == 0,
{
    reveal(Code::effect);
}

/// What an instruction leaves.
pub broadcast proof fn lemma_effect_not(c: Code)
    ensures
        #[trigger] c.effect(Insn::Not) == 0,
{
    reveal(Code::effect);
}

/// What an instruction leaves.
pub broadcast proof fn lemma_effect_new_array(c: Code, x0: u32)
    ensures
        #[trigger] c.effect(Insn::NewArray(x0)) == 1 - x0,
{
    reveal(Code::effect);
}

/// What an instruction leaves.
pub broadcast proof fn lemma_effect_case_eq(c: Code)
    ensures
        #[trigger] c.effect(Insn::CaseEq) == -1,
{
    reveal(Code::effect);
}

/// What an instruction leaves.
pub broadcast proof fn lemma_effect_make_proc(c: Code, x0: u32, x1: bool)
    ensures
        #[trigger] c.effect(Insn::MakeProc(x0, x1)) == 1,
{
    reveal(Code::effect);
}

/// What an instruction leaves.
pub broadcast proof fn lemma_effect_define_method(c: Code, x0: u32)
    ensures
        #[trigger] c.effect(Insn::DefineMethod(x0)) == 1,
{
    reveal(Code::effect);
}

/// What an instruction leaves.
pub broadcast proof fn lemma_effect_define_singleton(c: Code, x0: u32)
    ensures
        #[trigger] c.effect(Insn::DefineSingleton(x0)) == 0,
{
    reveal(Code::effect);
}

/// What an instruction leaves.
pub broadcast proof fn lemma_effect_get_const(c: Code, x0: u32, x1: ConstScope)
    ensures
        #[trigger] c.effect(Insn::GetConst(x0, x1)) == 1 - one_if(x1 is Qualified),
{
    reveal(Code::effect);
}

/// What an instruction leaves.
pub broadcast proof fn lemma_effect_set_const(c: Code, x0: u32, x1: ConstScope)
    ensures
        #[trigger] c.effect(Insn::SetConst(x0, x1)) == -one_if(x1 is Qualified),
{
    reveal(Code::effect);
}

/// What an instruction leaves.
pub broadcast proof fn lemma_effect_defined_const(c: Code, x0: u32, x1: ConstScope)
    ensures
        #[trigger] c.effect(Insn::DefinedConst(x0, x1)) == 1 - one_if(x1 is Qualified),
{
    reveal(Code::effect);
}

/// What an instruction leaves.
pub broadcast proof fn lemma_effect_defined_method(c: Code, x0: u32)
    ensures
        #[trigger] c.effect(Insn::DefinedMethod(x0)) == 0,
{
    reveal(Code::effect);
}

/// What an instruction leaves.
pub broadcast proof fn lemma_effect_defined_self_method(c: Code, x0: u32)
    ensures
        #[trigger] c.effect(Insn::DefinedSelfMethod(x0)) == 1,
{
    reveal(Code::effect);
}

/// What an instruction leaves.
pub broadcast proof fn lemma_effect_defined_yield(c: Code)
    ensures
        #[trigger] c.effect(Insn::DefinedYield) == 1,
{
    reveal(Code::effect);
}

/// What an instruction leaves.
pub broadcast proof fn lemma_effect_leave(c: Code)
    ensures
        #[trigger] c.effect(Insn::Leave) == -1,
{
    reveal(Code::effect);
}

/// What an instruction leaves.
pub broadcast proof fn lemma_effect_leave_through_ensure(c: Code)
    ensures
        #[trigger] c.effect(Insn::LeaveThroughEnsure) == -1,
{
    reveal(Code::effect);
}

/// What an instruction leaves.
pub broadcast proof fn lemma_effect_return(c: Code)
    ensures
        #[trigger] c.effect(Insn::Return) == 0,
{
    reveal(Code::effect);
}

/// What an instruction leaves.
pub broadcast proof fn lemma_effect_break(c: Code)
    ensures
        #[trigger] c.effect(Insn::Break) == 0,
{
    reveal(Code::effect);
}

/// What an instruction leaves.
pub broadcast proof fn lemma_effect_raise(c: Code)
    ensures
        #[trigger] c.effect(Insn::Raise) == 0,
{
    reveal(Code::effect);
}

/// What an instruction leaves.
pub broadcast proof fn lemma_effect_check_match(c: Code)
    ensures
        #[trigger] c.effect(Insn::CheckMatch) == 0,
{
    reveal(Code::effect);
}

/// What an instruction leaves.
pub broadcast proof fn lemma_effect_check_match_any(c: Code)
    ensures
        #[trigger] c.effect(Insn::CheckMatchAny) == 0,
{
    reveal(Code::effect);
}

/// What an instruction leaves.
pub broadcast proof fn lemma_effect_goto(c: Code, x0: i32, x1: u32)
    ensures
        #[trigger] c.effect(Insn::Goto(x0, x1)) == 0,
{
    reveal(Code::effect);
}

/// What an instruction leaves.
pub broadcast proof fn lemma_effect_goto_value(c: Code, x0: i32, x1: u32)
    ensures
        #[trigger] c.effect(Insn::GotoValue(x0, x1)) == 0,
{
    reveal(Code::effect);
}

/// What an instruction leaves.
pub broadcast proof fn lemma_effect_enter_ensure(c: Code)
    ensures
        #[trigger] c.effect(Insn::EnterEnsure) == -1,
{
    reveal(Code::effect);
}

/// What an instruction leaves.
pub broadcast proof fn lemma_effect_leave_ensure(c: Code)
    ensures
        #[trigger] c.effect(Insn::LeaveEnsure) == 1,
{
    reveal(Code::effect);
}

/// What an instruction leaves.
pub broadcast proof fn lemma_effect_get_cvar(c: Code, x0: u32)
    ensures
        #[trigger] c.effect(Insn::GetCvar(x0)) == 1,
{
    reveal(Code::effect);
}

/// What an instruction leaves.
pub broadcast proof fn lemma_effect_get_ivar(c: Code, x0: u32)
    ensures
        #[trigger] c.effect(Insn::GetIvar(x0)) == 1,
{
    reveal(Code::effect);
}

/// What an instruction leaves.
pub broadcast proof fn lemma_effect_set_ivar(c: Code, x0: u32)
    ensures
        #[trigger] c.effect(Insn::SetIvar(x0)) == -1,
{
    reveal(Code::effect);
}

/// What an instruction leaves.
pub broadcast proof fn lemma_effect_defined_ivar(c: Code, x0: u32)
    ensures
        #[trigger] c.effect(Insn::DefinedIvar(x0)) == 1,
{
    reveal(Code::effect);
}

/// What an instruction leaves.
pub broadcast proof fn lemma_effect_get_global(c: Code, x0: u32)
    ensures
        #[trigger] c.effect(Insn::GetGlobal(x0)) == 1,
{
    reveal(Code::effect);
}

/// What an instruction leaves.
pub broadcast proof fn lemma_effect_set_global(c: Code, x0: u32)
    ensures
        #[trigger] c.effect(Insn::SetGlobal(x0)) == -1,
{
    reveal(Code::effect);
}

/// What an instruction leaves.
pub broadcast proof fn lemma_effect_defined_global(c: Code, x0: u32)
    ensures
        #[trigger] c.effect(Insn::DefinedGlobal(x0)) == 1,
{
    reveal(Code::effect);
}

/// What an instruction leaves.
pub broadcast proof fn lemma_effect_last_match(c: Code, x0: MatchRef)
    ensures
        #[trigger] c.effect(Insn::LastMatch(x0)) == 1,
{
    reveal(Code::effect);
}

/// What an instruction leaves.
pub broadcast proof fn lemma_effect_errinfo(c: Code)
    ensures
        #[trigger] c.effect(Insn::Errinfo) == 1,
{
    reveal(Code::effect);
}

/// What an instruction leaves.
pub broadcast proof fn lemma_effect_set_errinfo(c: Code)
    ensures
        #[trigger] c.effect(Insn::SetErrinfo) == -1,
{
    reveal(Code::effect);
}

/// What an instruction leaves.
pub broadcast proof fn lemma_effect_capture_splat(c: Code)
    ensures
        #[trigger] c.effect(Insn::CaptureSplat) == 0,
{
    reveal(Code::effect);
}

/// What an instruction leaves.
pub broadcast proof fn lemma_effect_new_regexp(c: Code, x0: i64)
    ensures
        #[trigger] c.effect(Insn::NewRegexp(x0)) == 0,
{
    reveal(Code::effect);
}

/// What an instruction leaves.
pub broadcast proof fn lemma_effect_new_regexp_once(c: Code, x0: i64, x1: u32)
    ensures
        #[trigger] c.effect(Insn::NewRegexpOnce(x0, x1)) == 0,
{
    reveal(Code::effect);
}

/// What an instruction leaves.
pub broadcast proof fn lemma_effect_intern(c: Code)
    ensures
        #[trigger] c.effect(Insn::Intern) == 0,
{
    reveal(Code::effect);
}

/// What an instruction leaves.
pub broadcast proof fn lemma_effect_alias(c: Code, x0: u32, x1: u32)
    ensures
        #[trigger] c.effect(Insn::Alias(x0, x1)) == 0,
{
    reveal(Code::effect);
}

/// What an instruction leaves.
pub broadcast proof fn lemma_effect_undef(c: Code, x0: u32)
    ensures
        #[trigger] c.effect(Insn::Undef(x0)) == 0,
{
    reveal(Code::effect);
}

/// How many operands a call takes.
pub open spec fn operands(site: SiteModel, receiver: bool) -> int {
    one_if(receiver) + site.argc + site.keywords.len() + one_if(site.block is Pass)
}

/// What an instruction leaves.
pub broadcast proof fn lemma_effect_send(c: Code, x0: u32)
    ensures
        x0 < c.call_sites.len() ==> #[trigger] c.effect(Insn::Send(x0)) == 1 - operands(
            c.call_sites[x0 as int],
            true,
        ),
{
    reveal(Code::effect);
    reveal(Code::site_operands);
}

/// What an instruction leaves.
pub broadcast proof fn lemma_effect_yield(c: Code, x0: u32)
    ensures
        x0 < c.call_sites.len() ==> #[trigger] c.effect(Insn::Yield(x0)) == 1 - operands(
            c.call_sites[x0 as int],
            false,
        ),
{
    reveal(Code::effect);
    reveal(Code::site_operands);
}

/// What an instruction leaves.
pub broadcast proof fn lemma_effect_super(c: Code, x0: u32)
    ensures
        x0 < c.call_sites.len() ==> #[trigger] c.effect(Insn::Super(x0)) == 1 - operands(
            c.call_sites[x0 as int],
            false,
        ),
{
    reveal(Code::effect);
    reveal(Code::site_operands);
}

/// What an instruction leaves.
pub broadcast proof fn lemma_effect_open_class(c: Code, x0: u32)
    ensures
        x0 < c.class_defs.len() ==> #[trigger] c.effect(Insn::OpenClass(x0)) == 1 - one_if(
            c.class_defs[x0 as int].scoped,
        ) - one_if(c.class_defs[x0 as int].superclass) - one_if(
            c.class_defs[x0 as int].kind is Singleton,
        ),
{
    reveal(Code::effect);
}

pub broadcast group group_effects {
    lemma_effect_send,
    lemma_effect_yield,
    lemma_effect_super,
    lemma_effect_open_class,
    lemma_effect_push_nil,
    lemma_effect_push_true,
    lemma_effect_push_false,
    lemma_effect_push_self,
    lemma_effect_push_int,
    lemma_effect_push_lit,
    lemma_effect_push_sym,
    lemma_effect_pop,
    lemma_effect_dup,
    lemma_effect_get_local,
    lemma_effect_set_local,
    lemma_effect_jump,
    lemma_effect_jump_unless,
    lemma_effect_jump_if,
    lemma_effect_jump_unless_keep,
    lemma_effect_jump_if_keep,
    lemma_effect_jump_unless_undef,
    lemma_effect_bin_op,
    lemma_effect_neg,
    lemma_effect_not,
    lemma_effect_new_array,
    lemma_effect_case_eq,
    lemma_effect_make_proc,
    lemma_effect_define_method,
    lemma_effect_define_singleton,
    lemma_effect_get_const,
    lemma_effect_set_const,
    lemma_effect_defined_const,
    lemma_effect_defined_method,
    lemma_effect_defined_self_method,
    lemma_effect_defined_yield,
    lemma_effect_leave,
    lemma_effect_leave_through_ensure,
    lemma_effect_return,
    lemma_effect_break,
    lemma_effect_raise,
    lemma_effect_check_match,
    lemma_effect_check_match_any,
    lemma_effect_goto,
    lemma_effect_goto_value,
    lemma_effect_enter_ensure,
    lemma_effect_leave_ensure,
    lemma_effect_get_cvar,
    lemma_effect_get_ivar,
    lemma_effect_set_ivar,
    lemma_effect_defined_ivar,
    lemma_effect_get_global,
    lemma_effect_set_global,
    lemma_effect_defined_global,
    lemma_effect_last_match,
    lemma_effect_errinfo,
    lemma_effect_set_errinfo,
    lemma_effect_capture_splat,
    lemma_effect_new_regexp,
    lemma_effect_new_regexp_once,
    lemma_effect_intern,
    lemma_effect_alias,
    lemma_effect_undef,
}

} // verus!
