//! Frames, operands, and how control leaves a frame.

use std::sync::Arc;

use vstd::prelude::*;

use crate::bytecode::{CatchEntry, CatchKind, Iseq};
use crate::class::CrefId;
use crate::double::Floats;
use crate::heap::{HandleScope, HeapModel};
use crate::interp::equal;
use crate::interp::error;
use crate::interp::error::Error;
use crate::interp::object;
use crate::method::{Definition, MAX_DEFINITIONS};
use crate::text;
use crate::value;
use crate::value::{SymbolId, Value};

verus! {

/// Why control is leaving a frame.
#[derive(Debug, Clone, Copy, PartialEq, Eq, Structural)]
pub enum Unwind {
    /// A raised exception. Stops at a `rescue`.
    Exception(Value),
    /// `throw`. Stops at the frame that `catch` opened for the tag.
    Throw { tag: Value, value: Value },
    /// `break`. Stops at the frame the block was passed to.
    Break { frame: u64, value: Value },
    /// `return` from a block. Stops at the method it was written in.
    Return { frame: u64, value: Value },
    /// A jump inside one frame that has `ensure` bodies to run on the way.
    Goto { frame: u64, target: usize, depth: usize, value: Option<Value> },
}

/// Why an `ensure` body was entered, kept until it finishes.
#[derive(Debug, Clone, Copy, PartialEq, Eq, Structural)]
pub enum Parked {
    /// The protected body finished, with this value.
    Value(Value),
    /// An unwind that goes on afterwards.
    Unwind(Unwind),
}

/// What an instruction did.
#[derive(Debug, Clone, Copy, PartialEq, Eq, Structural)]
pub enum Step {
    /// The next instruction runs.
    Next,
    /// The outermost frame returned.
    Done(Value),
    /// Control leaves the frame.
    Unwind(Unwind),
}

/// Where an unwind ended.
#[derive(Debug, Clone, Copy, PartialEq, Eq, Structural)]
pub enum Landing {
    /// Something took it, and the loop goes on.
    Caught,
    /// It left the outermost frame with a value.
    Finished(Value),
    /// It left the outermost frame and nothing wanted it.
    Escaped,
}

/// A call in flight.
pub struct Call {
    /// The place of the code in the body table; `None` for the code of an
    /// evaluation, which is not in it.
    pub definition: Option<usize>,
    pub iseq: Arc<Iseq>,
    /// The code's symbols, linked.
    pub symbols: Vec<SymbolId>,
    /// The locals.
    pub env: Value,
    pub receiver: Value,
    /// The block the call was passed, or `nil`.
    pub block: Value,
    pub cref: CrefId,
    pub pc: usize,
    /// Where the operands start in the shared stack.
    pub base: usize,
    /// Whether the value below `base` is the result, whatever the body
    /// computes.
    pub keeps_receiver: bool,
    /// Unlike a place in the stack of frames, never used again.
    pub id: u64,
    /// The frame a `return` leaves.
    pub home: u64,
    /// The frame a `break` ends; zero where there is none.
    pub breaks: u64,
    /// The `catch` tag the frame is the boundary of.
    pub tag: Option<Value>,
    /// The exception a `rescue` in the frame is handling.
    pub rescued: Option<Value>,
    /// Why the `ensure` bodies that are running were entered, innermost last.
    pub parked: Vec<Parked>,
}

/// A call in flight.
#[verifier::ext_equal]
pub struct CallModel {
    pub definition: Option<usize>,
    pub iseq: Iseq,
    pub symbols: Seq<SymbolId>,
    pub env: Value,
    pub receiver: Value,
    pub block: Value,
    pub cref: CrefId,
    pub pc: usize,
    pub base: usize,
    pub keeps_receiver: bool,
    pub id: u64,
    pub home: u64,
    pub breaks: u64,
    pub tag: Option<Value>,
    pub rescued: Option<Value>,
    pub parked: Seq<Parked>,
}

impl View for Call {
    type V = CallModel;

    open spec fn view(&self) -> CallModel {
        CallModel {
            definition: self.definition,
            iseq: *self.iseq,
            symbols: self.symbols@,
            env: self.env,
            receiver: self.receiver,
            block: self.block,
            cref: self.cref,
            pc: self.pc,
            base: self.base,
            keeps_receiver: self.keeps_receiver,
            id: self.id,
            home: self.home,
            breaks: self.breaks,
            tag: self.tag,
            rescued: self.rescued,
            parked: self.parked@,
        }
    }
}

/// The operands and the frames of an evaluation.
pub struct Machine {
    pub stack: Vec<Value>,
    pub frames: Vec<Call>,
    /// The last frame id handed out.
    pub ids: u64,
}

/// The operands and the frames of an evaluation.
#[verifier::ext_equal]
pub struct MachineModel {
    pub stack: Seq<Value>,
    pub frames: Seq<CallModel>,
    pub ids: u64,
}

impl View for Machine {
    type V = MachineModel;

    open spec fn view(&self) -> MachineModel {
        MachineModel {
            stack: self.stack@,
            frames: Seq::new(self.frames@.len(), |i: int| self.frames@[i]@),
            ids: self.ids,
        }
    }
}

impl MachineModel {
    /// The frame that runs.
    pub open spec fn top(self) -> CallModel {
        self.frames.last()
    }

    /// The machine with the frame that runs replaced.
    pub open spec fn with_top(self, call: CallModel) -> MachineModel {
        MachineModel { frames: self.frames.update(self.frames.len() - 1, call), ..self }
    }

    /// The machine with another operand.
    pub open spec fn pushing(self, v: Value) -> MachineModel {
        MachineModel { stack: self.stack.push(v), ..self }
    }

    /// The machine without its last operand.
    pub open spec fn popped(self) -> MachineModel {
        MachineModel { stack: self.stack.drop_last(), ..self }
    }
}

// ---------------------------------------------------------------------------
// What the machine holds is rooted
// ---------------------------------------------------------------------------

/// Whether a value is an immediate, or an object rooted in an open scope.
pub open spec fn held(m: HeapModel, v: Value) -> bool {
    v@ is Heap ==> m.roots.contains(v)
}

/// Whether every value of a list is.
pub open spec fn all_held(m: HeapModel, vs: Seq<Value>) -> bool {
    forall|i: int| 0 <= i < vs.len() ==> held(m, #[trigger] vs[i])
}

/// Whether what an unwind carries is.
pub open spec fn unwind_held(m: HeapModel, u: Unwind) -> bool {
    match u {
        Unwind::Exception(v) => held(m, v),
        Unwind::Throw { tag, value } => held(m, tag) && held(m, value),
        Unwind::Break { frame: _, value } => held(m, value),
        Unwind::Return { frame: _, value } => held(m, value),
        Unwind::Goto { frame: _, target: _, depth: _, value } => value matches Some(v) ==> held(
            m,
            v,
        ),
    }
}

/// Whether what an `ensure` body keeps is.
pub open spec fn parked_held(m: HeapModel, p: Parked) -> bool {
    match p {
        Parked::Value(v) => held(m, v),
        Parked::Unwind(u) => unwind_held(m, u),
    }
}

/// A frame in order: what it holds is rooted, its code is where it is said to
/// be in the body table, its symbols are linked, its lexical scope exists and a `Proc` can note the
/// frame it returns from.
pub open spec fn call_ok(m: HeapModel, c: CallModel) -> bool {
    &&& held(m, c.env)
    &&& held(m, c.receiver)
    &&& held(m, c.block)
    &&& c.tag matches Some(v) ==> held(m, v)
    &&& c.rescued matches Some(v) ==> held(m, v)
    &&& forall|i: int| 0 <= i < c.parked.len() ==> parked_held(m, #[trigger] c.parked[i])
    &&& c.definition matches Some(place) ==> m.definitions.holds_unit(place as int, c.iseq)
    &&& c.symbols.len() == c.iseq.symbols@.len()
    &&& c.cref.0 < m.classes.scopes().len()
    &&& value::fits_fixnum(c.home as int)
}

/// A machine in order on a heap.
pub open spec fn machine_ok(m: HeapModel, s: MachineModel) -> bool {
    &&& all_held(m, s.stack)
    &&& forall|i: int| 0 <= i < s.frames.len() ==> call_ok(m, #[trigger] s.frames[i])
}

/// What the interpreter leaves of a heap: what was rooted still is, and the
/// tables have only grown.
pub open spec fn grown(m: HeapModel, after: HeapModel) -> bool {
    &&& m.roots.is_prefix_of(after.roots)
    &&& m.definitions.all().is_prefix_of(after.definitions.all())
    &&& m.classes.scopes().is_prefix_of(after.classes.scopes())
    &&& m.classes.table().len() <= after.classes.table().len()
    &&& m.symbols@.is_prefix_of(after.symbols@)
}

/// A machine in order stays so as the heap grows.
pub proof fn lemma_grown(m: HeapModel, after: HeapModel)
    requires
        grown(m, after),
    ensures
        forall|v: Value| #[trigger] held(m, v) ==> held(after, v),
        forall|vs: Seq<Value>| #[trigger] all_held(m, vs) ==> all_held(after, vs),
        forall|u: Unwind| #[trigger] unwind_held(m, u) ==> unwind_held(after, u),
        forall|c: CallModel| #[trigger] call_ok(m, c) ==> call_ok(after, c),
        forall|s: MachineModel| #[trigger] machine_ok(m, s) ==> machine_ok(after, s),
{
    assert forall|v: Value| #[trigger] held(m, v) implies held(after, v) by {
        if v@ is Heap {
            let k = m.roots.index_of(v);
            assert(after.roots[k] == v);
        }
    }
    assert forall|vs: Seq<Value>| #[trigger] all_held(m, vs) implies all_held(after, vs) by {
        assert forall|i: int| 0 <= i < vs.len() implies held(after, #[trigger] vs[i]) by {
            assert(held(m, vs[i]));
        }
    }
    assert forall|u: Unwind| #[trigger] unwind_held(m, u) implies unwind_held(after, u) by {
        match u {
            Unwind::Exception(v) => {
                assert(held(m, v));
            },
            Unwind::Throw { tag, value } => {
                assert(held(m, tag) && held(m, value));
            },
            Unwind::Break { frame: _, value } => {
                assert(held(m, value));
            },
            Unwind::Return { frame: _, value } => {
                assert(held(m, value));
            },
            Unwind::Goto { frame: _, target: _, depth: _, value } => {
                if let Some(v) = value {
                    assert(held(m, v));
                }
            },
        }
    }
    assert forall|c: CallModel| #[trigger] call_ok(m, c) implies call_ok(after, c) by {
        assert(held(m, c.env) && held(m, c.receiver) && held(m, c.block));
        if let Some(v) = c.tag {
            assert(held(m, v));
        }
        if let Some(v) = c.rescued {
            assert(held(m, v));
        }
        assert forall|i: int| 0 <= i < c.parked.len() implies parked_held(
            after,
            #[trigger] c.parked[i],
        ) by {
            assert(parked_held(m, c.parked[i]));
            match c.parked[i] {
                Parked::Value(v) => {
                    assert(held(m, v));
                },
                Parked::Unwind(u) => {
                    assert(unwind_held(m, u));
                },
            }
        }
        if let Some(place) = c.definition {
            assert(m.definitions.all()[place as int] == after.definitions.all()[place as int]);
        }
    }
    assert forall|s: MachineModel| #[trigger] machine_ok(m, s) implies machine_ok(after, s) by {
        assert(all_held(m, s.stack));
        assert forall|i: int| 0 <= i < s.frames.len() implies call_ok(
            after,
            #[trigger] s.frames[i],
        ) by {
            assert(call_ok(m, s.frames[i]));
        }
    }
}

// ---------------------------------------------------------------------------
// What work costs
// ---------------------------------------------------------------------------

/// Whether a heap, or a table of it, has no room for `n` entries more.
pub open spec fn tight(m: HeapModel, room: int, n: nat) -> bool {
    ||| room < n
    ||| m.classes.table().len() + n > u32::MAX
    ||| m.classes.scopes().len() + n > u32::MAX
    ||| m.definitions.all().len() + n > MAX_DEFINITIONS
    ||| m.symbols@.len() + n > u32::MAX
}

/// Whether a heap has taken up no more than `n` entries, and no table of it
/// has either.
pub open spec fn spends(before: HeapModel, room: int, after: HeapModel, left: int, n: nat) -> bool {
    &&& left >= room - n
    &&& after.classes.table().len() <= before.classes.table().len() + n
    &&& after.classes.scopes().len() <= before.classes.scopes().len() + n
    &&& after.definitions.all().len() <= before.definitions.all().len() + n
    &&& after.symbols@.len() <= before.symbols@.len() + n
}

/// Whether a receiver and an argument are arrays that are too long together
/// for one.
pub open spec fn overlong(m: HeapModel, receiver: Value, args: Seq<Value>) -> bool {
    exists|i: int|
        {
            &&& 0 <= i < args.len()
            &&& object::elements_in(m, receiver) matches Some(left)
            &&& object::elements_in(m, #[trigger] args[i]) matches Some(right)
            &&& left.len() + right.len() > u32::MAX
        }
}

/// Whether a heap runs out of room with a result.
pub open spec fn runs_out<T>(r: Result<T, Error>) -> bool {
    r matches Err(e) && e is Exhausted
}

/// What work that needs at most `n` entries comes to: it takes up no more, and
/// runs out of room only where there is less.
pub open spec fn costs<T>(
    before: HandleScope,
    after: HandleScope,
    r: Result<T, Error>,
    n: nat,
) -> bool {
    &&& spends(before@, before.room(), after@, after.room(), n)
    &&& runs_out(r) ==> tight(before@, before.room(), n)
}

/// How many entries the locals and the names of a code take.
pub open spec fn weight(iseq: Iseq) -> nat {
    iseq.locals@.len() + iseq.symbols@.len()
}

/// How many entries the codes of a body table take together.
pub open spec fn weights(all: Seq<Definition>) -> nat
    decreases all.len(),
{
    if all.len() == 0 {
        0
    } else {
        weights(all.drop_last()) + match all.last() {
            Definition::Iseq(iseq) => weight(*iseq),
            _ => 0,
        }
    }
}

/// A code takes no more than all do.
pub proof fn lemma_weight(all: Seq<Definition>, i: int)
    requires
        0 <= i < all.len(),
    ensures
        all[i] matches Definition::Iseq(iseq) ==> weight(*iseq) <= weights(all),
    decreases all.len(),
{
    if i < all.len() - 1 {
        lemma_weight(all.drop_last(), i);
        assert(all.drop_last()[i] == all[i]);
    }
}

/// How many entries the codes nested in one take together.
pub open spec fn nested(children: Seq<Arc<Iseq>>) -> nat
    decreases children.len(),
{
    if children.len() == 0 {
        0
    } else {
        nested(children.drop_last()) + weight(*children.last())
    }
}

/// A nested code takes no more than all do.
pub proof fn lemma_nested(children: Seq<Arc<Iseq>>, i: int)
    requires
        0 <= i < children.len(),
    ensures
        weight(*children[i]) <= nested(children),
    decreases children.len(),
{
    if i < children.len() - 1 {
        lemma_nested(children.drop_last(), i);
        assert(children.drop_last()[i] == children[i]);
    }
}

/// A held value of a sound heap is alive.
pub proof fn lemma_held_is_live(m: HeapModel, v: Value)
    requires
        m.sound(),
        held(m, v),
    ensures
        m.live(v),
        v@ is Heap ==> m.is_root(v),
{
    if v@ is Heap {
        assert(m.is_root(v));
    }
}

// ---------------------------------------------------------------------------
// Unwinding
// ---------------------------------------------------------------------------

/// Where a jump goes: the displacement counts from the next instruction.
pub open spec fn jump_target(pc: usize, displacement: i32) -> Option<usize> {
    if 0 <= pc + displacement <= usize::MAX {
        Some((pc + displacement) as usize)
    } else {
        None
    }
}

/// Where a jump goes.
pub fn jump(pc: usize, displacement: i32) -> (r: Option<usize>)
    ensures
        r == jump_target(pc, displacement),
{
    if displacement >= 0 {
        let d: usize = displacement as usize;
        if d <= usize::MAX - pc {
            Some(pc + d)
        } else {
            None
        }
    } else {
        let d: usize = (-(displacement as i64)) as usize;
        if d <= pc {
            Some(pc - d)
        } else {
            None
        }
    }
}

/// A stack cut back to `n` operands.
pub open spec fn cut(stack: Seq<Value>, n: int) -> Seq<Value> {
    if n < stack.len() {
        stack.take(n)
    } else {
        stack
    }
}

/// A place in the code as the catch table counts it.
pub open spec fn place(pc: int) -> u32 {
    if pc <= u32::MAX {
        pc as u32
    } else {
        u32::MAX
    }
}

/// The instruction that control leaves, as the catch table counts it.
pub open spec fn faulting(pc: usize) -> u32 {
    if pc == 0 {
        0
    } else {
        place(pc - 1)
    }
}

/// Whether an entry of a catch table wants an unwind: a `rescue` wants an
/// exception, and an `ensure` everything but a jump that stays inside it.
pub open spec fn wants(entry: CatchEntry, at: u32, unwind: Unwind) -> bool {
    &&& entry.covers(at)
    &&& match entry.kind {
        CatchKind::Rescue => unwind is Exception,
        CatchKind::Ensure => match unwind {
            Unwind::Goto { frame: _, target, depth: _, value: _ } => !entry.covers(
                place(target as int),
            ),
            _ => true,
        },
    }
}

/// The first entry that wants an unwind.
pub open spec fn handler(table: Seq<CatchEntry>, at: u32, unwind: Unwind) -> Option<CatchEntry>
    decreases table.len(),
{
    if table.len() == 0 {
        None
    } else if wants(table[0], at, unwind) {
        Some(table[0])
    } else {
        handler(table.skip(1), at, unwind)
    }
}

/// What an unwind carries to a frame that it ends.
pub open spec fn ends(call: CallModel, unwind: Unwind) -> Option<Value> {
    match unwind {
        Unwind::Break { frame, value } => if frame == call.id {
            Some(value)
        } else {
            None
        },
        Unwind::Return { frame, value } => if frame == call.id {
            Some(value)
        } else {
            None
        },
        Unwind::Throw { tag, value } => if call.tag == Some(tag) {
            Some(value)
        } else {
            None
        },
        _ => None,
    }
}

/// The machine and the landing that an unwind comes to. Frames are left from
/// the innermost out. In each the first entry of its catch table that wants
/// the unwind takes it; a jump that no entry wants lands in its own frame; a
/// frame that the unwind ends hands its value to the one around it.
pub open spec fn unwound(s: MachineModel, unwind: Unwind) -> (MachineModel, Landing)
    decreases s.frames.len(),
{
    if s.frames.len() == 0 {
        (s, Landing::Escaped)
    } else {
        let top = s.top();
        match handler(top.iseq.catch_table@, faulting(top.pc), unwind) {
            Some(entry) => {
                let stack = cut(s.stack, top.base + entry.stack_depth);
                let call = CallModel { pc: entry.target as usize, ..top };
                match entry.kind {
                    CatchKind::Rescue => (
                        MachineModel { stack: stack.push(unwind->Exception_0), ..s }.with_top(
                            CallModel { rescued: Some(unwind->Exception_0), ..call },
                        ),
                        Landing::Caught,
                    ),
                    CatchKind::Ensure => (
                        MachineModel { stack, ..s }.with_top(
                            CallModel { parked: call.parked.push(Parked::Unwind(unwind)), ..call },
                        ),
                        Landing::Caught,
                    ),
                }
            },
            None => if unwind is Goto && unwind->Goto_frame == top.id {
                let stack = cut(s.stack, top.base + unwind->Goto_depth);
                let stack = match unwind->Goto_value {
                    Some(v) => stack.push(v),
                    None => stack,
                };
                (
                    MachineModel { stack, ..s }.with_top(
                        CallModel { pc: unwind->Goto_target, ..top },
                    ),
                    Landing::Caught,
                )
            } else {
                let left = MachineModel {
                    stack: cut(s.stack, top.base as int),
                    frames: s.frames.drop_last(),
                    ..s
                };
                match ends(top, unwind) {
                    Some(v) => if left.frames.len() == 0 {
                        (left, Landing::Finished(v))
                    } else if top.keeps_receiver {
                        (left, Landing::Caught)
                    } else {
                        (left.pushing(v), Landing::Caught)
                    },
                    None => unwound(left, unwind),
                }
            },
        }
    }
}

fn place_of(pc: usize) -> (r: u32)
    ensures
        r == place(pc as int),
{
    if pc <= u32::MAX as usize {
        pc as u32
    } else {
        u32::MAX
    }
}

/// The first entry that wants an unwind.
fn find_handler(table: &Vec<CatchEntry>, at: u32, unwind: Unwind) -> (r: Option<CatchEntry>)
    ensures
        r == handler(table@, at, unwind),
{
    let mut i: usize = 0;
    assert(table@.skip(0) =~= table@);
    while i < table.len()
        invariant
            i <= table.len(),
            handler(table@, at, unwind) == handler(table@.skip(i as int), at, unwind),
        decreases table.len() - i,
    {
        let entry = table[i];
        proof {
            let rest = table@.skip(i as int);
            assert(rest[0] == entry);
            assert(rest.skip(1) =~= table@.skip(i + 1));
        }
        if entry.covers(at) {
            let wanted = match entry.kind {
                CatchKind::Rescue => match unwind {
                    Unwind::Exception(_) => true,
                    _ => false,
                },
                CatchKind::Ensure => match unwind {
                    Unwind::Goto { frame: _, target, depth: _, value: _ } => !entry.covers(
                        place_of(target),
                    ),
                    _ => true,
                },
            };
            if wanted {
                return Some(entry);
            }
        }
        i += 1;
    }
    None
}

impl Machine {
    /// Cut the operands back to `base + depth`.
    fn cut_to(&mut self, base: usize, depth: usize)
        ensures
            final(self)@ == (MachineModel {
                stack: cut(old(self)@.stack, base + depth),
                ..old(self)@
            }),
            final(self).frames == old(self).frames,
            final(self).ids == old(self).ids,
    {
        let len: usize = self.stack.len();
        if depth <= usize::MAX - base && base + depth < len {
            self.stack.truncate(base + depth);
        }
        proof {
            assert(self.stack@ =~= cut(old(self)@.stack, base + depth));
            assert(self@.frames =~= old(self)@.frames);
        }
    }

    /// Leave frames until something wants an unwind.
    pub fn unwind_to_handler(&mut self, unwind: Unwind) -> (r: Landing)
        ensures
            (final(self)@, r) == unwound(old(self)@, unwind),
    {
        while self.frames.len() > 0
            invariant
                unwound(old(self)@, unwind) == unwound(self@, unwind),
            decreases self.frames.len(),
        {
            let ghost s = self@;
            let top: usize = self.frames.len() - 1;
            let pc: usize = self.frames[top].pc;
            let base: usize = self.frames[top].base;
            let at: u32 = if pc == 0 {
                0
            } else {
                place_of(pc - 1)
            };
            assert(s.top() == self.frames@[top as int]@);
            let found = find_handler(&self.frames[top].iseq.catch_table, at, unwind);
            if let Some(entry) = found {
                let depth: usize = entry.stack_depth as usize;
                self.cut_to(base, depth);
                match entry.kind {
                    CatchKind::Rescue => {
                        if let Unwind::Exception(exception) = unwind {
                            self.frames[top].rescued = Some(exception);
                            self.stack.push(exception);
                        }
                    },
                    CatchKind::Ensure => {
                        self.frames[top].parked.push(Parked::Unwind(unwind));
                    },
                }
                self.frames[top].pc = entry.target as usize;
                proof {
                    lemma_wanted(s.top().iseq.catch_table@, at, unwind);
                    assert(self@ =~= unwound(s, unwind).0);
                }
                return Landing::Caught;
            }
            if let Unwind::Goto { frame, target, depth, value } = unwind {
                if frame == self.frames[top].id {
                    self.cut_to(base, depth);
                    if let Some(v) = value {
                        self.stack.push(v);
                    }
                    self.frames[top].pc = target;
                    assert(self@ =~= unwound(s, unwind).0);
                    return Landing::Caught;
                }
            }
            let popped = self.frames.pop();
            if let Some(done) = popped {
                assert(done@ == s.top());
                self.cut_to(base, 0);
                let ghost left = MachineModel {
                    stack: cut(s.stack, base as int),
                    frames: s.frames.drop_last(),
                    ..s
                };
                assert(self@ =~= left);
                let landed: Option<Value> = match unwind {
                    Unwind::Break { frame, value } => if frame == done.id {
                        Some(value)
                    } else {
                        None
                    },
                    Unwind::Return { frame, value } => if frame == done.id {
                        Some(value)
                    } else {
                        None
                    },
                    Unwind::Throw { tag, value } => match done.tag {
                        Some(t) => if t == tag {
                            Some(value)
                        } else {
                            None
                        },
                        None => None,
                    },
                    _ => None,
                };
                if let Some(value) = landed {
                    if self.frames.len() == 0 {
                        return Landing::Finished(value);
                    }
                    if !done.keeps_receiver {
                        self.stack.push(value);
                        assert(self@ =~= left.pushing(value));
                    }
                    return Landing::Caught;
                }
            }
        }
        Landing::Escaped
    }
}

/// A handler wants what it handles.
proof fn lemma_wanted(table: Seq<CatchEntry>, at: u32, unwind: Unwind)
    ensures
        handler(table, at, unwind) matches Some(entry) ==> wants(entry, at, unwind),
    decreases table.len(),
{
    if table.len() > 0 && !wants(table[0], at, unwind) {
        lemma_wanted(table.skip(1), at, unwind);
    }
}

/// Unwinding keeps a machine in order, keeps the ids, and leaves a frame to go
/// on with where the unwind was caught.
pub proof fn law_unwinding(m: HeapModel, s: MachineModel, unwind: Unwind)
    requires
        machine_ok(m, s),
        unwind_held(m, unwind),
    ensures
        machine_ok(m, unwound(s, unwind).0),
        unwound(s, unwind).0.ids == s.ids,
        unwound(s, unwind).1 is Caught ==> unwound(s, unwind).0.frames.len() > 0,
        unwound(s, unwind).1 matches Landing::Finished(v) ==> held(m, v),
        unwound(s, unwind).0.frames.len() <= s.frames.len(),
    decreases s.frames.len(),
{
    if s.frames.len() > 0 {
        let top = s.top();
        assert(call_ok(m, s.frames[s.frames.len() - 1]));
        let after = unwound(s, unwind).0;
        let table = top.iseq.catch_table@;
        lemma_wanted(table, faulting(top.pc), unwind);
        assert forall|i: int| 0 <= i < s.stack.len() implies held(m, #[trigger] s.stack[i]) by {}
        if handler(table, faulting(top.pc), unwind) is Some || (unwind is Goto
            && unwind->Goto_frame == top.id) {
            assert forall|i: int| 0 <= i < after.frames.len() implies call_ok(
                m,
                #[trigger] after.frames[i],
            ) by {
                assert(call_ok(m, s.frames[i]));
            }
        } else {
            let left = MachineModel {
                stack: cut(s.stack, top.base as int),
                frames: s.frames.drop_last(),
                ..s
            };
            assert(machine_ok(m, left)) by {
                assert forall|i: int| 0 <= i < left.frames.len() implies call_ok(
                    m,
                    #[trigger] left.frames[i],
                ) by {
                    assert(left.frames[i] == s.frames[i]);
                }
            }
            if ends(top, unwind) is None {
                law_unwinding(m, left, unwind);
            } else {
                assert forall|i: int| 0 <= i < after.frames.len() implies call_ok(
                    m,
                    #[trigger] after.frames[i],
                ) by {
                    assert(left.frames[i] == s.frames[i]);
                }
            }
        }
    }
}

/// An `ensure` body runs whatever leaves the code it protects: where the
/// innermost entry that covers the instruction is an `ensure`, everything but
/// a jump that stays inside it enters the body, with the reason kept.
pub proof fn law_ensure_runs_on_every_exit(s: MachineModel, unwind: Unwind)
    requires
        s.frames.len() > 0,
        s.top().iseq.catch_table@.len() > 0,
        s.top().iseq.catch_table@[0].kind is Ensure,
        s.top().iseq.catch_table@[0].covers(faulting(s.top().pc)),
        unwind matches Unwind::Goto { frame: _, target, depth: _, value: _ }
            ==> !s.top().iseq.catch_table@[0].covers(place(target as int)),
    ensures
        unwound(s, unwind).1 is Caught,
        unwound(s, unwind).0.frames.len() == s.frames.len(),
        unwound(s, unwind).0.top().pc == s.top().iseq.catch_table@[0].target,
        unwound(s, unwind).0.top().parked == s.top().parked.push(Parked::Unwind(unwind)),
{
    let table = s.top().iseq.catch_table@;
    assert(wants(table[0], faulting(s.top().pc), unwind));
}

/// What an unwind that nothing wanted says, as an error.
pub open spec fn escaping<F: Floats>(floats: &F, m: HeapModel, unwind: Unwind, e: Error) -> bool {
    match unwind {
        Unwind::Exception(v) => error::escapes(
            e,
            object::reported_class(m, v),
            object::message_in(m, v),
        ),
        Unwind::Throw { tag, value: _ } => exists|shown: Seq<char>|
            {
                &&& #[trigger] equal::looks(floats, m, tag, equal::nesting(m), shown)
                &&& error::escapes(e, "UncaughtThrowError"@, "uncaught throw "@ + shown)
            },
        Unwind::Break { frame: _, value: _ } => error::escapes(
            e,
            "LocalJumpError"@,
            "break from proc-closure"@,
        ),
        Unwind::Return { frame: _, value: _ } => error::escapes(
            e,
            "LocalJumpError"@,
            "unexpected return"@,
        ),
        Unwind::Goto { frame: _, target: _, depth: _, value: _ } => error::escapes(
            e,
            "LocalJumpError"@,
            "a jump left its own frame"@,
        ),
    }
}

/// What an unwind that nothing wanted says, as an error.
pub fn escaped<F: Floats>(scope: &HandleScope, unwind: Unwind, floats: &F) -> (r: Error)
    requires
        scope.wf(),
        object::kernel_in(scope@),
        unwind_held(scope@, unwind),
    ensures
        escaping(floats, scope@, unwind, r),
{
    match unwind {
        Unwind::Exception(exception) => {
            proof {
                lemma_held_is_live(scope@, exception);
            }
            Error::Uncaught {
                class: object::class_name_of(scope, exception),
                message: object::exception_message(scope, exception),
            }
        },
        Unwind::Throw { tag, value: _ } => {
            proof {
                lemma_held_is_live(scope@, tag);
            }
            let shown = equal::inspect(scope, tag, floats);
            Error::Uncaught {
                class: "UncaughtThrowError".to_owned(),
                message: text::join("uncaught throw ", shown.as_str()),
            }
        },
        Unwind::Break { frame: _, value: _ } => Error::Uncaught {
            class: "LocalJumpError".to_owned(),
            message: "break from proc-closure".to_owned(),
        },
        Unwind::Return { frame: _, value: _ } => Error::Uncaught {
            class: "LocalJumpError".to_owned(),
            message: "unexpected return".to_owned(),
        },
        Unwind::Goto { frame: _, target: _, depth: _, value: _ } => Error::Uncaught {
            class: "LocalJumpError".to_owned(),
            message: "a jump left its own frame".to_owned(),
        },
    }
}

} // verus!
