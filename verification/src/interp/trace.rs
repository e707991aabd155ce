//! What the machine gets to, turn by turn.

use vstd::prelude::*;

use crate::bytecode::Insn;
use crate::double::Floats;
use crate::heap::HeapModel;
use crate::interp::error::Error;
use crate::interp::machine;
use crate::interp::machine::{MachineModel, Step};
use crate::interp::object;
use crate::interp::run;
use crate::interp::run::Turn;
use crate::interp::step;
use crate::value::{Unpacked, Value};

verus! {

/// Whether the machine can get from one state to another in so many turns of
/// the loop, of which none ends the evaluation.
pub open spec fn goes<F: Floats>(
    floats: &F,
    m: HeapModel,
    s: MachineModel,
    after: HeapModel,
    now: MachineModel,
    turns: nat,
) -> bool
    decreases turns,
{
    if turns == 0 {
        after == m && now == s
    } else {
        exists|mid: HeapModel, next: MachineModel|
            {
                &&& #[trigger] run::turned(floats, m, mid, s, next, Turn::On)
                &&& goes(floats, mid, next, after, now, (turns - 1) as nat)
            }
    }
}

/// Whether the machine can get from one state to another.
pub open spec fn reaches<F: Floats>(
    floats: &F,
    m: HeapModel,
    s: MachineModel,
    after: HeapModel,
    now: MachineModel,
) -> bool {
    exists|turns: nat| #[trigger] goes(floats, m, s, after, now, turns)
}

/// Whether two states have the same frames running the same code, with the
/// same locals; the last may be at another instruction.
pub open spec fn same_frame(s: MachineModel, now: MachineModel) -> bool {
    &&& s.frames.len() > 0
    &&& now.frames.len() == s.frames.len()
    &&& now.top().iseq == s.top().iseq
    &&& now.top().symbols == s.top().symbols
    &&& now.top().env == s.top().env
    &&& now.top().receiver == s.top().receiver
    &&& now.top().base == s.top().base
}

/// The state with its last frame at an instruction, and other operands.
pub open spec fn moved(s: MachineModel, pc: nat, stack: Seq<Value>) -> MachineModel {
    MachineModel { stack, ..step::at_pc(s, pc as usize) }
}

/// Whether running on from a state gets to an instruction of the same frame,
/// with certain operands.
pub open spec fn arrives<F: Floats>(
    floats: &F,
    m: HeapModel,
    s: MachineModel,
    after: HeapModel,
    now: MachineModel,
    pc: nat,
    stack: Seq<Value>,
) -> bool {
    &&& reaches(floats, m, s, after, now)
    &&& same_frame(s, now)
    &&& now.top().pc == pc
    &&& now.stack == stack
}

/// The instruction a state is at.
pub open spec fn at_insn(s: MachineModel, insn: Insn) -> bool {
    &&& s.frames.len() > 0
    &&& s.top().pc < s.top().iseq.insns@.len()
    &&& s.top().iseq.insns@[s.top().pc as int] == insn
}

proof fn lemma_goes_on<F: Floats>(
    floats: &F,
    a: HeapModel,
    r: MachineModel,
    b: HeapModel,
    s: MachineModel,
    c: HeapModel,
    t: MachineModel,
    first: nat,
    second: nat,
)
    requires
        goes(floats, a, r, b, s, first),
        goes(floats, b, s, c, t, second),
    ensures
        goes(floats, a, r, c, t, first + second),
    decreases first,
{
    if first > 0 {
        let (mid, next) = choose|mid: HeapModel, next: MachineModel|
            {
                &&& #[trigger] run::turned(floats, a, mid, r, next, Turn::On)
                &&& goes(floats, mid, next, b, s, (first - 1) as nat)
            };
        lemma_goes_on(floats, mid, next, b, s, c, t, (first - 1) as nat, second);
        assert((first + second - 1) as nat == (first - 1) as nat + second);
    }
}

/// What is reached from what is reached is reached.
pub proof fn lemma_reaches_on<F: Floats>(
    floats: &F,
    a: HeapModel,
    r: MachineModel,
    b: HeapModel,
    s: MachineModel,
    c: HeapModel,
    t: MachineModel,
)
    requires
        reaches(floats, a, r, b, s),
        reaches(floats, b, s, c, t),
    ensures
        reaches(floats, a, r, c, t),
{
    let first = choose|first: nat| #[trigger] goes(floats, a, r, b, s, first);
    let second = choose|second: nat| #[trigger] goes(floats, b, s, c, t, second);
    lemma_goes_on(floats, a, r, b, s, c, t, first, second);
}

/// Every state reaches itself.
pub proof fn lemma_reaches_itself<F: Floats>(floats: &F, m: HeapModel, s: MachineModel)
    ensures
        reaches(floats, m, s, m, s),
{
    assert(goes(floats, m, s, m, s, 0));
}

/// A turn reaches what it leads to.
pub proof fn lemma_turn_reaches<F: Floats>(
    floats: &F,
    m: HeapModel,
    s: MachineModel,
    after: HeapModel,
    now: MachineModel,
)
    requires
        run::turned(floats, m, after, s, now, Turn::On),
    ensures
        reaches(floats, m, s, after, now),
{
    assert(goes(floats, after, now, after, now, 0));
    assert(goes(floats, m, s, after, now, 1));
}

/// An instruction that goes on to the next one reaches it.
pub proof fn lemma_step_reaches<F: Floats>(
    floats: &F,
    m: HeapModel,
    s: MachineModel,
    after: HeapModel,
    now: MachineModel,
)
    requires
        step::stepped(floats, m, after, s, now, Ok(Step::Next)),
    ensures
        reaches(floats, m, s, after, now),
{
    reveal(run::turned);
    let r: Result<Step, Error> = Ok(Step::Next);
    assert(step::stepped(floats, m, after, s, now, r));
    assert(run::turned(floats, m, after, s, now, Turn::On));
    lemma_turn_reaches(floats, m, s, after, now);
}

/// Where a state goes in one turn that only moves values and jumps.
pub open spec fn next_state(s: MachineModel) -> Option<MachineModel> {
    let top = s.top();
    let pc = (top.pc + 1) as nat;
    let stack = s.stack;
    let some = stack.len() > 0;
    if top.pc >= top.iseq.insns@.len() || top.pc == usize::MAX {
        None
    } else {
        match top.iseq.insns@[top.pc as int] {
            Insn::PushNil => Some(moved(s, pc, stack.push(Value::pack(Unpacked::Nil)))),
            Insn::PushTrue => Some(moved(s, pc, stack.push(object::truth(true)))),
            Insn::PushFalse => Some(moved(s, pc, stack.push(object::truth(false)))),
            Insn::Pop => if some {
                Some(moved(s, pc, stack.drop_last()))
            } else {
                None
            },
            Insn::Dup => if some {
                Some(moved(s, pc, stack.push(stack.last())))
            } else {
                None
            },
            Insn::Jump(d) => if 0 <= pc + d <= usize::MAX {
                Some(moved(s, (pc + d) as nat, stack))
            } else {
                None
            },
            Insn::JumpUnless(d) => if !some {
                None
            } else if object::truthy(stack.last()) {
                Some(moved(s, pc, stack.drop_last()))
            } else if 0 <= pc + d <= usize::MAX {
                Some(moved(s, (pc + d) as nat, stack.drop_last()))
            } else {
                None
            },
            Insn::JumpIf(d) => if !some {
                None
            } else if !object::truthy(stack.last()) {
                Some(moved(s, pc, stack.drop_last()))
            } else if 0 <= pc + d <= usize::MAX {
                Some(moved(s, (pc + d) as nat, stack.drop_last()))
            } else {
                None
            },
            Insn::JumpUnlessKeep(d) => if !some {
                None
            } else if object::truthy(stack.last()) {
                Some(moved(s, pc, stack))
            } else if 0 <= pc + d <= usize::MAX {
                Some(moved(s, (pc + d) as nat, stack))
            } else {
                None
            },
            Insn::JumpIfKeep(d) => if !some {
                None
            } else if !object::truthy(stack.last()) {
                Some(moved(s, pc, stack))
            } else if 0 <= pc + d <= usize::MAX {
                Some(moved(s, (pc + d) as nat, stack))
            } else {
                None
            },
            _ => None,
        }
    }
}

/// Such a turn reaches where it goes.
pub proof fn lemma_next<F: Floats>(floats: &F, m: HeapModel, s: MachineModel)
    requires
        s.frames.len() > 0,
        next_state(s) is Some,
    ensures
        reaches(floats, m, s, m, next_state(s)->0),
        same_frame(s, next_state(s)->0),
{
    reveal(step::stepped);
    let now = next_state(s)->0;
    let ahead = step::at_pc(s, (s.top().pc + 1) as usize);
    assert(now.frames =~= step::at_pc(ahead, now.top().pc).frames);
    assert(now =~= MachineModel { stack: now.stack, ..step::at_pc(ahead, now.top().pc) });
    assert(ahead.top().pc == s.top().pc + 1);
    assert(step::at_pc(ahead, ahead.top().pc).frames =~= ahead.frames);
    lemma_step_reaches(floats, m, s, m, now);
}

} // verus!
