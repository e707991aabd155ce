//! What `rescue` means: which clause takes an exception.

use vstd::prelude::*;

use crate::ast::{Begin, Expr, ExprKind, Rescue};
use crate::bytecode::{CatchEntry, CatchKind, ConstScope, Insn};
use crate::class;
use crate::class::ClassId;
use crate::compile::code;
use crate::compile::code::Code;
use crate::compile::extent;
use crate::compile::lower;
use crate::compile::sense;
use crate::double::Floats;
use crate::heap::HeapModel;
use crate::interp::error::Error;
use crate::interp::machine::{MachineModel, Step, Unwind};
use crate::interp::object;
use crate::interp::step;
use crate::interp::trace;
use crate::value::Value;

verus! {

broadcast use Value::law_pack;

/// Where the parts of a clause are.
pub struct ClauseParts {
    /// For each class that the clause names, where the code of the class starts
    /// and ends.
    pub tests: Seq<(Code, Code)>,
    /// Where an exception goes that one of the classes takes.
    pub body: nat,
    /// Where the code of the clause's statements starts and ends.
    pub statements: (Code, Code),
    /// Where one goes that none of them takes.
    pub next: nat,
}

/// Whether a class takes an exception: it is among the ancestors of the
/// exception's class.
pub open spec fn takes(m: HeapModel, exception: Value, wanted: ClassId) -> bool {
    object::class_of_value(m, exception) matches Some(actual) && class::ancestors_of(
        m.classes.table(),
        actual.0 as int,
    ).contains(wanted)
}

/// Where the machine goes on behind a test that did not take the exception.
pub open spec fn after_test(parts: ClauseParts, j: int) -> nat {
    if j + 1 < parts.tests.len() {
        parts.tests[j + 1].0.here()
    } else {
        parts.next
    }
}

/// Whether a test sends the exception on top to the body where the class that
/// its code left takes it, and to the next test where it does not.
pub open spec fn test_decides<F: Floats>(
    floats: &F,
    s: MachineModel,
    parts: ClauseParts,
    j: int,
) -> bool {
    forall|mid: HeapModel, now: MachineModel, k: Value, wanted: ClassId| #[trigger]
        sense::comes(s, now, parts.tests[j].1.here(), s.stack.push(k)) && #[trigger] is_class(
            mid,
            k,
            wanted,
        ) ==> {
            &&& takes(mid, s.stack.last(), wanted) ==> sense::leads(
                floats,
                mid,
                now,
                parts.body,
                s.stack,
            )
            &&& !takes(mid, s.stack.last(), wanted) ==> sense::leads(
                floats,
                mid,
                now,
                after_test(parts, j),
                s.stack,
            )
        }
}

/// Whether a value is a class.
pub open spec fn is_class(m: HeapModel, v: Value, class: ClassId) -> bool {
    object::class_id_of_value(m, v) == Some(class)
}

/// Whether a clause's tests are those of its classes, or of `StandardError`
/// where it names none, what they decide, and where its statements are.
pub open spec fn clause_tests<F: Floats>(
    floats: &F,
    clause: Rescue,
    s: MachineModel,
    parts: ClauseParts,
) -> bool {
    let classes = clause.exceptions@;
    &&& parts.tests.len() == if classes.len() == 0 {
        1
    } else {
        classes.len()
    }
    &&& forall|j: int|
        0 <= j < classes.len() ==> sense::expr_at(
            s.top().iseq,
            (#[trigger] parts.tests[j]).0,
            classes[j],
            parts.tests[j].1,
        )
    &&& classes.len() == 0 ==> {
        let (from, to) = parts.tests[0];
        let symbol = from.symbol_at("StandardError"@);
        &&& to.here() == from.here() + 1
        &&& from.here() < s.top().iseq.insns@.len()
        &&& s.top().iseq.insns@[from.here() as int] == Insn::GetConst(symbol, ConstScope::Top)
    }
    &&& forall|j: int| 0 <= j < parts.tests.len() ==> #[trigger] test_decides(floats, s, parts, j)
    &&& sense::body_at(
        s.top().iseq,
        parts.statements.0,
        clause.body@,
        true,
        parts.statements.1,
    )
    &&& parts.body <= parts.statements.0.here()
    &&& clause.reference is None ==> {
        &&& s.top().iseq.insns@[parts.body as int] == Insn::Pop
        &&& parts.statements.0.here() == parts.body + 1
    }
}

/// Whether the code of a class, started with the operands of a state, leaves
/// the class on top of them.
pub open spec fn leaves_class<F: Floats>(
    floats: &F,
    m: HeapModel,
    s: MachineModel,
    test: (Code, Code),
    wanted: ClassId,
) -> bool {
    exists|k: Value|
        #![trigger s.stack.push(k)]
        is_class(m, k, wanted) && sense::leads(
            floats,
            m,
            trace::moved(s, test.0.here(), s.stack),
            test.1.here(),
            s.stack.push(k),
        )
}

/// Whether the code of the classes of all clauses leaves those classes.
pub open spec fn leaves_classes<F: Floats>(
    floats: &F,
    m: HeapModel,
    s: MachineModel,
    parts: Seq<ClauseParts>,
    classes: Seq<Seq<ClassId>>,
) -> bool {
    &&& classes.len() == parts.len()
    &&& forall|i: int|
        0 <= i < parts.len() ==> (#[trigger] classes[i]).len() == parts[i].tests.len()
    &&& forall|i: int, j: int|
        0 <= i < parts.len() && 0 <= j < parts[i].tests.len() ==> leaves_class(
            floats,
            m,
            s,
            #[trigger] parts[i].tests[j],
            classes[i][j],
        )
}

/// Whether one of several classes takes an exception.
pub open spec fn one_takes(m: HeapModel, exception: Value, classes: Seq<ClassId>) -> bool {
    exists|j: int| 0 <= j < classes.len() && takes(m, exception, #[trigger] classes[j])
}

/// Whether the machine, at the first test with an exception on top, gets to the
/// body of the first clause of which a class takes the exception, and behind the
/// last clause where there is none.
pub open spec fn first_takes<F: Floats>(
    floats: &F,
    m: HeapModel,
    s: MachineModel,
    parts: Seq<ClauseParts>,
    classes: Seq<Seq<ClassId>>,
) -> bool {
    let start = trace::moved(s, parts[0].tests[0].0.here(), s.stack);
    let exception = s.stack.last();
    &&& forall|i: int|
        0 <= i < parts.len() && one_takes(m, exception, #[trigger] classes[i]) && (forall|h: int|
            0 <= h < i ==> !one_takes(m, exception, #[trigger] classes[h])) ==> sense::leads(
            floats,
            m,
            start,
            parts[i].body,
            s.stack,
        )
    &&& (forall|i: int| 0 <= i < parts.len() ==> !one_takes(m, exception, #[trigger] classes[i]))
        ==> sense::leads(floats, m, start, parts.last().next, s.stack)
}

// ---------------------------------------------------------------------------
// The machine
// ---------------------------------------------------------------------------

/// The machine goes on from where it got to.
proof fn lemma_on<F: Floats>(
    floats: &F,
    m: HeapModel,
    s: MachineModel,
    first: nat,
    second: nat,
    third: nat,
)
    requires
        s.frames.len() > 0,
        sense::leads(floats, m, trace::moved(s, first, s.stack), second, s.stack),
        sense::leads(floats, m, trace::moved(s, second, s.stack), third, s.stack),
    ensures
        sense::leads(floats, m, trace::moved(s, first, s.stack), third, s.stack),
{
    let start = trace::moved(s, first, s.stack);
    assert(trace::moved(start, second, s.stack) =~= trace::moved(s, second, s.stack));
    sense::lemma_leads_on(floats, m, start, second, s.stack, third, s.stack);
}

/// One test, from its start on.
proof fn lemma_one_test<F: Floats>(
    floats: &F,
    m: HeapModel,
    s: MachineModel,
    parts: ClauseParts,
    j: int,
    wanted: ClassId,
)
    requires
        s.frames.len() > 0,
        parts.tests[j].1.here() <= usize::MAX,
        test_decides(floats, s, parts, j),
        leaves_class(floats, m, s, parts.tests[j], wanted),
    ensures
        sense::leads(
            floats,
            m,
            trace::moved(s, parts.tests[j].0.here(), s.stack),
            if takes(m, s.stack.last(), wanted) {
                parts.body
            } else {
                after_test(parts, j)
            },
            s.stack,
        ),
{
    let test = parts.tests[j];
    let start = trace::moved(s, test.0.here(), s.stack);
    let k = choose|k: Value|
        #![trigger s.stack.push(k)]
        is_class(m, k, wanted) && sense::leads(floats, m, start, test.1.here(), s.stack.push(k));
    let now = trace::moved(start, test.1.here(), s.stack.push(k));
    assert(sense::comes(s, now, test.1.here(), s.stack.push(k)));
    let place = if takes(m, s.stack.last(), wanted) {
        parts.body
    } else {
        after_test(parts, j)
    };
    assert(is_class(m, k, wanted));
    assert(sense::leads(floats, m, now, place, s.stack));
    sense::lemma_leads_on(
        floats,
        m,
        start,
        test.1.here(),
        s.stack.push(k),
        place,
        s.stack,
    );
}

/// The tests of a clause from one on.
proof fn lemma_tests_pass<F: Floats>(
    floats: &F,
    m: HeapModel,
    s: MachineModel,
    parts: ClauseParts,
    j: int,
    classes: Seq<ClassId>,
)
    requires
        s.frames.len() > 0,
        0 <= j < parts.tests.len(),
        classes.len() == parts.tests.len(),
        forall|i: int| 0 <= i < parts.tests.len() ==> #[trigger] test_decides(floats, s, parts, i),
        forall|i: int|
            0 <= i < parts.tests.len() ==> leaves_class(
                floats,
                m,
                s,
                #[trigger] parts.tests[i],
                classes[i],
            ),
        forall|i: int| 0 <= i < parts.tests.len() ==> (#[trigger] parts.tests[i]).1.here() <= usize::MAX,
        forall|i: int| 0 <= i < j ==> !takes(m, s.stack.last(), #[trigger] classes[i]),
    ensures
        sense::leads(
            floats,
            m,
            trace::moved(s, parts.tests[j].0.here(), s.stack),
            if one_takes(m, s.stack.last(), classes) {
                parts.body
            } else {
                parts.next
            },
            s.stack,
        ),
    decreases parts.tests.len() - j,
{
    assert(test_decides(floats, s, parts, j));
    assert(leaves_class(floats, m, s, parts.tests[j], classes[j]));
    lemma_one_test(floats, m, s, parts, j, classes[j]);
    if !takes(m, s.stack.last(), classes[j]) && j + 1 < parts.tests.len() {
        lemma_tests_pass(floats, m, s, parts, j + 1, classes);
        lemma_on(
            floats,
            m,
            s,
            parts.tests[j].0.here(),
            parts.tests[j + 1].0.here(),
            if one_takes(m, s.stack.last(), classes) {
                parts.body
            } else {
                parts.next
            },
        );
    }
}

/// Whether the tests of clauses decide, and one clause starts where the one
/// before it sends what it does not take.
spec fn clauses_decide<F: Floats>(floats: &F, s: MachineModel, parts: Seq<ClauseParts>) -> bool {
    &&& forall|i: int| 0 <= i < parts.len() ==> (#[trigger] parts[i]).tests.len() > 0
    &&& forall|i: int, j: int|
        0 <= i < parts.len() && 0 <= j < parts[i].tests.len() ==> #[trigger] test_decides(
            floats,
            s,
            parts[i],
            j,
        )
    &&& forall|i: int, j: int|
        0 <= i < parts.len() && 0 <= j < parts[i].tests.len() ==> (
        #[trigger] parts[i].tests[j]).1.here() <= usize::MAX
    &&& forall|i: int|
        0 < i < parts.len() ==> (#[trigger] parts[i]).tests[0].0.here() == parts[i - 1].next
}

/// The machine gets to a clause when those before it do not take the exception,
/// and from there to its body or behind it.
proof fn lemma_clauses_pass<F: Floats>(
    floats: &F,
    m: HeapModel,
    s: MachineModel,
    parts: Seq<ClauseParts>,
    classes: Seq<Seq<ClassId>>,
    i: int,
)
    requires
        s.frames.len() > 0,
        clauses_decide(floats, s, parts),
        leaves_classes(floats, m, s, parts, classes),
        0 <= i < parts.len(),
        forall|h: int| 0 <= h < i ==> !one_takes(m, s.stack.last(), #[trigger] classes[h]),
    ensures
        sense::leads(
            floats,
            m,
            trace::moved(s, parts[0].tests[0].0.here(), s.stack),
            if one_takes(m, s.stack.last(), classes[i]) {
                parts[i].body
            } else {
                parts[i].next
            },
            s.stack,
        ),
    decreases i,
{
    let part = parts[i];
    assert(part.tests.len() > 0);
    assert(classes[i].len() == part.tests.len());
    assert forall|j: int| 0 <= j < part.tests.len() implies leaves_class(
        floats,
        m,
        s,
        #[trigger] part.tests[j],
        classes[i][j],
    ) by {
        assert(leaves_class(floats, m, s, parts[i].tests[j], classes[i][j]));
    }
    assert forall|j: int| 0 <= j < part.tests.len() implies (#[trigger] part.tests[j]).1.here()
        <= usize::MAX by {
        assert(parts[i].tests[j].1.here() <= usize::MAX);
    }
    lemma_tests_pass(floats, m, s, part, 0, classes[i]);
    if i > 0 {
        lemma_clauses_pass(floats, m, s, parts, classes, i - 1);
        assert(!one_takes(m, s.stack.last(), classes[i - 1]));
        assert(part.tests[0].0.here() == parts[i - 1].next);
        lemma_on(
            floats,
            m,
            s,
            parts[0].tests[0].0.here(),
            parts[i - 1].next,
            if one_takes(m, s.stack.last(), classes[i]) {
                part.body
            } else {
                part.next
            },
        );
    }
}

/// The machine gets to the first clause that takes the exception.
proof fn lemma_first_takes<F: Floats>(
    floats: &F,
    m: HeapModel,
    s: MachineModel,
    parts: Seq<ClauseParts>,
    classes: Seq<Seq<ClassId>>,
)
    requires
        s.frames.len() > 0,
        parts.len() > 0,
        clauses_decide(floats, s, parts),
        leaves_classes(floats, m, s, parts, classes),
    ensures
        first_takes(floats, m, s, parts, classes),
{
    let start = trace::moved(s, parts[0].tests[0].0.here(), s.stack);
    let exception = s.stack.last();
    assert forall|i: int|
        0 <= i < parts.len() && one_takes(m, exception, #[trigger] classes[i]) && (forall|h: int|
            0 <= h < i ==> !one_takes(m, exception, #[trigger] classes[h])) implies sense::leads(
        floats,
        m,
        start,
        parts[i].body,
        s.stack,
    ) by {
        lemma_clauses_pass(floats, m, s, parts, classes, i);
    }
    if forall|i: int| 0 <= i < parts.len() ==> !one_takes(m, exception, #[trigger] classes[i]) {
        let n = parts.len() - 1;
        lemma_clauses_pass(floats, m, s, parts, classes, n);
        assert(!one_takes(m, exception, classes[n]));
    }
}

/// A test at a place, with a jump behind it, and what it decides.
proof fn lemma_test<F: Floats>(
    floats: &F,
    s: MachineModel,
    at: nat,
    body: nat,
    mid: HeapModel,
    now: MachineModel,
    k: Value,
    wanted: ClassId,
)
    requires
        s.frames.len() > 0,
        s.stack.len() > 0,
        at + 2 <= s.top().iseq.insns@.len(),
        at + 2 <= i32::MAX,
        body <= i32::MAX,
        s.top().iseq.insns@[at as int] == Insn::CheckMatch,
        s.top().iseq.insns@[(at + 1) as int] == Insn::JumpIf(
            code::displacement((at + 1) as int, body as int),
        ),
        sense::comes(s, now, at, s.stack.push(k)),
        is_class(mid, k, wanted),
    ensures
        sense::leads(
            floats,
            mid,
            now,
            if takes(mid, s.stack.last(), wanted) {
                body
            } else {
                at + 2
            },
            s.stack,
        ),
{
    reveal(step::stepped);
    let answer = object::truth(takes(mid, s.stack.last(), wanted));
    let ahead = step::at_pc(now, (at + 1) as usize);
    let asked = trace::moved(now, at + 1, s.stack.push(answer));
    assert(ahead.stack[ahead.stack.len() - 2] == s.stack.last());
    assert(now.stack.drop_last() =~= s.stack);
    assert(asked =~= ahead.popped().pushing(answer));
    trace::lemma_step_reaches(floats, mid, now, mid, asked);
    assert(sense::leads(floats, mid, now, at + 1, s.stack.push(answer)));
    assert(s.stack.push(answer).drop_last() =~= s.stack);
    sense::lemma_then(
        floats,
        mid,
        now,
        at + 1,
        s.stack.push(answer),
        if takes(mid, s.stack.last(), wanted) {
            body
        } else {
            at + 2
        },
        s.stack,
    );
}

// ---------------------------------------------------------------------------
// The code
// ---------------------------------------------------------------------------

/// The tests of classes that were lowered one behind the other, with the jumps
/// behind them still to be aimed.
#[verifier::opaque]
spec fn tested(c: Code, after: Code, tests: Seq<(Code, Code)>) -> bool {
    &&& extent::kept(c, after)
    &&& sense::sane(after)
    &&& tests.len() == 0 ==> after.here() == c.here()
    &&& tests.len() > 0 ==> tests[0].0.here() == c.here()
    &&& forall|j: int|
        0 <= j < tests.len() ==> {
            &&& sense::sane((#[trigger] tests[j]).0)
            &&& c.here() <= tests[j].0.here() <= tests[j].1.here()
            &&& tests[j].1.here() + 2 <= after.here()
            &&& sense::fixed(after, tests[j].1.here(), Insn::CheckMatch)
            &&& sense::fixed(after, tests[j].1.here() + 1, Insn::JumpIf(0))
        }
    &&& tests.len() > 0 ==> tests.last().1.here() + 2 == after.here()
    &&& forall|j: int, k: int|
        0 <= j < k < tests.len() ==> (#[trigger] tests[j]).1.here() + 2 <= (
        #[trigger] tests[k]).0.here()
    &&& forall|j: int, k: int|
        0 <= j && k == j + 1 && k < tests.len() ==> (#[trigger] tests[j]).1.here() + 2 == (
        #[trigger] tests[k]).0.here()
    &&& forall|j: int, at: nat, insn: Insn|
        0 <= j < tests.len() && #[trigger] sense::fixed((#[trigger] tests[j]).1, at, insn)
            ==> sense::fixed(after, at, insn)
}

/// Whether places are those of the jumps behind tests.
spec fn hits_of(hits: Seq<usize>, tests: Seq<(Code, Code)>) -> bool {
    &&& hits.len() == tests.len()
    &&& forall|j: int| 0 <= j < tests.len() ==> (#[trigger] hits[j]) == tests[j].1.here() + 1
}

/// No tests at all.
proof fn lemma_tested_none(c: Code)
    requires
        sense::sane(c),
    ensures
        tested(c, c, Seq::empty()),
{
    reveal(tested);
    extent::lemma_kept_itself(c);
}

/// One more test in front of tests.
proof fn lemma_tested_first(
    c: Code,
    class: Code,
    rest: Code,
    after: Code,
    tests: Seq<(Code, Code)>,
)
    requires
        sense::sane(c),
        extent::kept(c, class),
        rest == class.emit(Insn::CheckMatch).emit(Insn::JumpIf(0)),
        tested(rest, after, tests),
        after.insns.len() <= i32::MAX,
    ensures
        tested(c, after, seq![(c, class)] + tests),
{
    reveal(tested);
    let all = seq![(c, class)] + tests;
    let checked = class.emit(Insn::CheckMatch);
    sense::lemma_len_emit(class, Insn::CheckMatch);
    sense::lemma_len_emit(checked, Insn::JumpIf(0));
    extent::lemma_kept_len(c, class);
    extent::lemma_kept_len(rest, after);
    sense::lemma_fixed_kept(c, class);
    sense::lemma_fixed_emit(class, Insn::CheckMatch);
    sense::lemma_fixed_emit(checked, Insn::JumpIf(0));
    sense::lemma_fixed_over_emit(checked, class.here(), Insn::CheckMatch, Insn::JumpIf(0));
    sense::lemma_fixed_kept(rest, after);
    extent::lemma_kept_emit(c, class, Insn::CheckMatch);
    extent::lemma_kept_emit(c, checked, Insn::JumpIf(0));
    extent::lemma_kept_trans(c, rest, after);
    assert(all[0] == (c, class));
    assert forall|at: nat, insn: Insn| #[trigger] sense::fixed(class, at, insn) implies sense::fixed(
        after,
        at,
        insn,
    ) by {
        sense::lemma_fixed_over_emit(class, at, insn, Insn::CheckMatch);
        sense::lemma_fixed_over_emit(checked, at, insn, Insn::JumpIf(0));
        assert(sense::fixed(rest, at, insn));
    }
    assert forall|j: int| 0 <= j < all.len() implies {
        &&& sense::sane((#[trigger] all[j]).0)
        &&& c.here() <= all[j].0.here() <= all[j].1.here()
        &&& all[j].1.here() + 2 <= after.here()
        &&& sense::fixed(after, all[j].1.here(), Insn::CheckMatch)
        &&& sense::fixed(after, all[j].1.here() + 1, Insn::JumpIf(0))
    } by {
        if j > 0 {
            assert(all[j] == tests[j - 1]);
        }
    }
    if tests.len() > 0 {
        assert(all.last() == tests.last());
    }
    assert forall|j: int, k: int| 0 <= j < k < all.len() implies (#[trigger] all[j]).1.here() + 2
        <= (#[trigger] all[k]).0.here() by {
        assert(all[k] == tests[k - 1]);
        if j > 0 {
            assert(all[j] == tests[j - 1]);
        }
    }
    assert forall|j: int, k: int| 0 <= j && k == j + 1 && k < all.len() implies (
    #[trigger] all[j]).1.here() + 2 == (#[trigger] all[k]).0.here() by {
        assert(all[k] == tests[k - 1]);
        if j > 0 {
            assert(all[j] == tests[j - 1]);
        }
    }
    assert forall|j: int, at: nat, insn: Insn|
        0 <= j < all.len() && #[trigger] sense::fixed((#[trigger] all[j]).1, at, insn) implies sense::fixed(
        after,
        at,
        insn,
    ) by {
        if j > 0 {
            assert(all[j] == tests[j - 1]);
        }
    }
}

/// The tests of the classes a clause names.
proof fn lemma_exception_tests(
    c: Code,
    exceptions: Seq<Expr>,
    from: nat,
    hits: Seq<usize>,
    after: Code,
    made: Seq<usize>,
) -> (tests: Seq<(Code, Code)>)
    requires
        sense::sane(c),
        from <= exceptions.len(),
        forall|j: int|
            from <= j < exceptions.len() ==> !((#[trigger] exceptions[j]).kind is Splat),
        lower::lower_exceptions(c, exceptions, from, hits) == Ok::<
            (Code, Seq<usize>),
            code::Unsupported,
        >((after, made)),
        after.insns.len() <= i32::MAX,
    ensures
        tested(c, after, tests),
        tests.len() == exceptions.len() - from,
        forall|j: int|
            0 <= j < tests.len() ==> lower::lower_expr((#[trigger] tests[j]).0, exceptions[from + j])
                == Ok::<Code, code::Unsupported>(tests[j].1),
        made.len() == hits.len() + tests.len(),
        forall|k: int| 0 <= k < hits.len() ==> (#[trigger] made[k]) == hits[k],
        forall|j: int|
            0 <= j < tests.len() ==> (#[trigger] tests[j]).1.here() + 1 == made[hits.len() + j],
    decreases exceptions.len() - from,
{
    if from >= exceptions.len() {
        lemma_tested_none(c);
        Seq::empty()
    } else {
        let exception = exceptions[from as int];
        let class = lower::lower_expr(c, exception)->Ok_0;
        let checked = class.emit(Insn::CheckMatch);
        let rest = checked.emit(Insn::JumpIf(0));
        let next = hits.push(checked.here() as usize);
        sense::lemma_expr_kept(c, exception, class);
        sense::lemma_len_emit(class, Insn::CheckMatch);
        sense::lemma_len_emit(checked, Insn::JumpIf(0));
        assert(lower::lower_exceptions(rest, exceptions, from + 1, next) == Ok::<
            (Code, Seq<usize>),
            code::Unsupported,
        >((after, made)));
        lemma_tests_grow(rest, exceptions, from + 1, next, after, made);
        sense::lemma_fixed_kept(c, class);
        sense::lemma_fixed_emit(class, Insn::CheckMatch);
        sense::lemma_fixed_emit(checked, Insn::JumpIf(0));
        let tests = lemma_exception_tests(rest, exceptions, from + 1, next, after, made);
        lemma_tested_first(c, class, rest, after, tests);
        let all = seq![(c, class)] + tests;
        assert(next[hits.len() as int] == checked.here());
        assert forall|j: int| 0 <= j < all.len() implies lower::lower_expr(
            (#[trigger] all[j]).0,
            exceptions[from + j],
        ) == Ok::<Code, code::Unsupported>(all[j].1) by {
            if j > 0 {
                assert(all[j] == tests[j - 1]);
            }
        }
        assert forall|j: int| 0 <= j < all.len() implies (#[trigger] all[j]).1.here() + 1
            == made[hits.len() + j] by {
            if j > 0 {
                assert(all[j] == tests[j - 1]);
                assert(tests[j - 1].1.here() + 1 == made[next.len() + (j - 1)]);
            } else {
                assert(made[hits.len() as int] == next[hits.len() as int]);
            }
        }
        assert forall|k: int| 0 <= k < hits.len() implies (#[trigger] made[k]) == hits[k] by {
            assert(made[k] == next[k]);
        }
        all
    }
}

/// Tests only add code.
proof fn lemma_tests_grow(
    c: Code,
    exceptions: Seq<Expr>,
    from: nat,
    hits: Seq<usize>,
    after: Code,
    made: Seq<usize>,
)
    requires
        lower::lower_exceptions(c, exceptions, from, hits) == Ok::<
            (Code, Seq<usize>),
            code::Unsupported,
        >((after, made)),
    ensures
        c.insns.len() <= after.insns.len(),
    decreases exceptions.len() - from,
{
    if from < exceptions.len() {
        let exception = exceptions[from as int];
        let asked = match exception.kind {
            ExprKind::Splat(inner) => {
                let array = c.emit(Insn::NewArray(0));
                let inner = *inner->0;
                let list = lower::lower_expr(array, inner)->Ok_0;
                sense::lemma_expr_kept(array, inner, list);
                sense::lemma_len_emit(c, Insn::NewArray(0));
                extent::lemma_kept_itself(list);
                extent::lemma_kept_send(list, list, "__concat_splat__"@, 1, false);
                sense::lemma_len_emit(list.send("__concat_splat__"@, 1, false), Insn::CheckMatchAny);
                list.send("__concat_splat__"@, 1, false).emit(Insn::CheckMatchAny)
            },
            _ => {
                let class = lower::lower_expr(c, exception)->Ok_0;
                sense::lemma_expr_kept(c, exception, class);
                sense::lemma_len_emit(class, Insn::CheckMatch);
                class.emit(Insn::CheckMatch)
            },
        };
        sense::lemma_len_emit(asked, Insn::JumpIf(0));
        lemma_tests_grow(
            asked.emit(Insn::JumpIf(0)),
            exceptions,
            from + 1,
            hits.push(asked.here() as usize),
            after,
            made,
        );
    }
}

/// A jump of several that is aimed.
proof fn lemma_patched(c: Code, jumps: Seq<usize>, target: nat, at: nat, insn: Insn)
    requires
        sense::fixed(c, at, insn),
    ensures
        (exists|k: int| 0 <= k < jumps.len() && (#[trigger] jumps[k]) == at) ==> sense::fixed(
            c.patch_all(jumps, target),
            at,
            code::retargeted(insn, code::displacement(at as int, target as int)),
        ),
    decreases jumps.len(),
{
    reveal(Code::patch_all);
    if jumps.len() > 0 {
        let by = code::displacement(at as int, target as int);
        let next = c.patch(jumps[0] as nat, target);
        let rest = jumps.skip(1);
        sense::lemma_fixed_over_patch(c, at, insn, jumps[0] as nat, target);
        let now = if jumps[0] == at {
            code::retargeted(insn, by)
        } else {
            insn
        };
        lemma_patched(next, rest, target, at, now);
        if exists|k: int| 0 <= k < jumps.len() && (#[trigger] jumps[k]) == at {
            let k = choose|k: int| 0 <= k < jumps.len() && (#[trigger] jumps[k]) == at;
            if exists|j: int| 0 <= j < rest.len() && (#[trigger] rest[j]) == at {
                assert(code::retargeted(now, by) == code::retargeted(insn, by));
            } else {
                if k > 0 {
                    assert(rest[k - 1] == at);
                }
                sense::lemma_fixed_patch_all(next, rest, target);
                assert forall|j: int| 0 <= j < rest.len() implies rest[j] != at by {
                }
            }
        }
    }
}

/// Whether code has the tests of a clause, aimed.
#[verifier::opaque]
pub open spec fn clause_code(clause: Rescue, parts: ClauseParts, c: Code) -> bool {
    let classes = clause.exceptions@;
    let tests = parts.tests;
    &&& tests.len() > 0
    &&& tests.len() == if classes.len() == 0 {
        1
    } else {
        classes.len()
    }
    &&& forall|j: int|
        0 <= j < classes.len() ==> lower::lower_expr((#[trigger] tests[j]).0, classes[j]) == Ok::<
            Code,
            code::Unsupported,
        >(tests[j].1)
    &&& classes.len() == 0 ==> {
        &&& tests[0].1.here() == tests[0].0.here() + 1
        &&& sense::fixed(
            c,
            tests[0].0.here(),
            Insn::GetConst(tests[0].0.symbol_at("StandardError"@), ConstScope::Top),
        )
    }
    &&& parts.body <= parts.statements.0.here() <= parts.statements.1.here() < parts.next
        <= c.here()
    &&& sense::sane(parts.statements.0)
    &&& lower::lower_body(parts.statements.0, clause.body@, 0, true) == Ok::<
        Code,
        code::Unsupported,
    >(parts.statements.1)
    &&& clause.reference is None ==> {
        &&& sense::fixed(c, parts.body, Insn::Pop)
        &&& parts.statements.0.here() == parts.body + 1
    }
    &&& forall|at: nat, insn: Insn|
        parts.statements.0.here() <= at && #[trigger] sense::fixed(parts.statements.1, at, insn)
            ==> sense::fixed(c, at, insn)
    &&& forall|j: int|
        0 <= j < tests.len() ==> {
            &&& sense::sane((#[trigger] tests[j]).0)
            &&& tests[0].0.here() <= tests[j].0.here() <= tests[j].1.here()
            &&& tests[j].1.here() + 3 <= parts.body
            &&& sense::fixed(c, tests[j].1.here(), Insn::CheckMatch)
            &&& sense::fixed(
                c,
                tests[j].1.here() + 1,
                Insn::JumpIf(
                    code::displacement((tests[j].1.here() + 1) as int, parts.body as int),
                ),
            )
        }
    &&& forall|j: int, k: int|
        0 <= j && k == j + 1 && k < tests.len() ==> (#[trigger] tests[j]).1.here() + 2 == (
        #[trigger] tests[k]).0.here()
    &&& ({
        let miss = tests.last().1.here() + 2;
        sense::fixed(c, miss, Insn::Jump(code::displacement(miss as int, parts.next as int)))
    })
    &&& forall|j: int, at: nat, insn: Insn|
        0 <= j < tests.len() && (#[trigger] tests[j]).0.here() <= at && #[trigger] sense::fixed(
            tests[j].1,
            at,
            insn,
        ) ==> sense::fixed(c, at, insn)
}

/// Whether a place is outside the tests and the statements of a clause.
spec fn free(parts: ClauseParts, at: nat) -> bool {
    at < parts.tests[0].0.here() || parts.statements.1.here() <= at
}

/// Whether what stands in the tests of a clause in one code does in another.
spec fn tests_stay(parts: ClauseParts, a: Code, b: Code) -> bool {
    forall|at: nat, insn: Insn|
        !free(parts, at) && #[trigger] sense::fixed(a, at, insn) ==> sense::fixed(b, at, insn)
}

/// The tests of a clause stay as more is done.
proof fn lemma_clause_stays(clause: Rescue, parts: ClauseParts, a: Code, b: Code)
    requires
        clause_code(clause, parts, a),
        a.here() <= b.here(),
        tests_stay(parts, a, b),
    ensures
        clause_code(clause, parts, b),
{
    reveal(clause_code);
    let tests = parts.tests;
    assert forall|j: int| 0 <= j < tests.len() implies {
        &&& sense::sane((#[trigger] tests[j]).0)
        &&& tests[0].0.here() <= tests[j].0.here() <= tests[j].1.here()
        &&& tests[j].1.here() + 3 <= parts.body
        &&& sense::fixed(b, tests[j].1.here(), Insn::CheckMatch)
        &&& sense::fixed(
            b,
            tests[j].1.here() + 1,
            Insn::JumpIf(code::displacement((tests[j].1.here() + 1) as int, parts.body as int)),
        )
    } by {
    }
    let last = tests[tests.len() - 1];
    assert(last.1.here() + 3 <= parts.body);
    assert forall|j: int, at: nat, insn: Insn|
        0 <= j < tests.len() && (#[trigger] tests[j]).0.here() <= at && #[trigger] sense::fixed(
            tests[j].1,
            at,
            insn,
        ) implies sense::fixed(b, at, insn) by {
        sense::lemma_fixed_inside(tests[j].1, at, insn);
        assert(sense::fixed(a, at, insn));
    }
    assert(tests[0].1.here() + 3 <= parts.body);
    assert forall|at: nat, insn: Insn|
        parts.statements.0.here() <= at && #[trigger] sense::fixed(parts.statements.1, at, insn) implies sense::fixed(
        b,
        at,
        insn,
    ) by {
        sense::lemma_fixed_inside(parts.statements.1, at, insn);
        assert(sense::fixed(a, at, insn));
    }
}

/// The order of the parts of a clause.
proof fn lemma_clause_order(clause: Rescue, parts: ClauseParts, c: Code)
    requires
        clause_code(clause, parts, c),
    ensures
        parts.tests.len() > 0,
        parts.tests[0].0.here() < parts.body <= parts.statements.1.here() < parts.next <= c.here(),
{
    reveal(clause_code);
    assert(parts.tests[0].1.here() + 3 <= parts.body);
}

/// The code of a clause, its tests aimed at its body and at what comes next.
proof fn lemma_clause_core(
    c: Code,
    asked: Code,
    tests: Seq<(Code, Code)>,
    hits: Seq<usize>,
    depth: nat,
    ran: Code,
    after_depth: nat,
    end: Code,
) -> (body: nat)
    requires
        sense::sane(c),
        tests.len() > 0,
        tested(c, asked, tests),
        hits_of(hits, tests),
        ({
            let jumped = asked.emit(Insn::Jump(0));
            extent::kept(jumped.patch_all(hits, jumped.here()).at_depth(depth), ran)
        }),
        end == ran.emit(Insn::Jump(0)).patch_here(asked.here()).at_depth(after_depth),
        end.insns.len() <= i32::MAX,
    ensures
        sense::sane(end),
        c.here() <= asked.here(),
        body == asked.here() + 1,
        body <= ran.here(),
        end.here() == ran.here() + 1,
        sense::fixed(end, ran.here(), Insn::Jump(0)),
        forall|at: nat, insn: Insn| #[trigger] sense::fixed(c, at, insn) ==> sense::fixed(end, at, insn),
        forall|j: int|
            0 <= j < tests.len() ==> {
                &&& sense::fixed(end, (#[trigger] tests[j]).1.here(), Insn::CheckMatch)
                &&& sense::fixed(
                    end,
                    tests[j].1.here() + 1,
                    Insn::JumpIf(code::displacement((tests[j].1.here() + 1) as int, body as int)),
                )
            },
        sense::fixed(
            end,
            asked.here(),
            Insn::Jump(code::displacement(asked.here() as int, end.here() as int)),
        ),
        forall|j: int, at: nat, insn: Insn|
            0 <= j < tests.len() && (#[trigger] tests[j]).0.here() <= at && #[trigger] sense::fixed(
                tests[j].1,
                at,
                insn,
            ) ==> sense::fixed(end, at, insn),
        forall|at: nat, insn: Insn|
            body <= at && #[trigger] sense::fixed(ran, at, insn) ==> sense::fixed(end, at, insn),
        sense::sane(
            asked.emit(Insn::Jump(0)).patch_all(hits, asked.emit(Insn::Jump(0)).here()).at_depth(
                depth,
            ),
        ),
{
    reveal(tested);
    let miss = asked.here();
    let jumped = asked.emit(Insn::Jump(0));
    let start = jumped.patch_all(hits, jumped.here()).at_depth(depth);
    extent::lemma_kept_len(c, asked);
    assert forall|k: int| 0 <= k < hits.len() implies (#[trigger] hits[k]) < miss by {
        assert(hits[k] == tests[k].1.here() + 1);
    }
    lemma_clause_aimed(asked, hits, depth, start);
    lemma_clause_end(start, ran, miss, after_depth, end);
    let body = start.here();
    sense::lemma_fixed_kept(c, asked);
    assert forall|at: nat, insn: Insn| #[trigger] sense::fixed(c, at, insn) implies sense::fixed(
        end,
        at,
        insn,
    ) by {
        sense::lemma_fixed_inside(c, at, insn);
        assert(sense::fixed(asked, at, insn));
        if among(hits, at) {
            let k = choose|k: int| 0 <= k < hits.len() && (#[trigger] hits[k]) == at;
            assert(hits[k] == tests[k].1.here() + 1);
        }
        assert(sense::fixed(start, at, insn));
    }
    assert forall|j: int| 0 <= j < tests.len() implies {
        &&& sense::fixed(end, (#[trigger] tests[j]).1.here(), Insn::CheckMatch)
        &&& sense::fixed(
            end,
            tests[j].1.here() + 1,
            Insn::JumpIf(code::displacement((tests[j].1.here() + 1) as int, body as int)),
        )
    } by {
        let at = tests[j].1.here();
        if among(hits, at) {
            let k = choose|k: int| 0 <= k < hits.len() && (#[trigger] hits[k]) == at;
            assert(hits[k] == tests[k].1.here() + 1);
            lemma_same_place(asked, at, Insn::CheckMatch, Insn::JumpIf(0));
        }
        assert(sense::fixed(start, at, Insn::CheckMatch));
        assert(hits[j] == at + 1);
        let aim = Insn::JumpIf(code::displacement((at + 1) as int, body as int));
        assert(sense::fixed(start, at + 1, aim));
    }
    assert forall|j: int, at: nat, insn: Insn|
        0 <= j < tests.len() && (#[trigger] tests[j]).0.here() <= at && #[trigger] sense::fixed(
            tests[j].1,
            at,
            insn,
        ) implies sense::fixed(end, at, insn) by {
        sense::lemma_fixed_inside(tests[j].1, at, insn);
        assert(sense::fixed(asked, at, insn));
        if among(hits, at) {
            let k = choose|k: int| 0 <= k < hits.len() && (#[trigger] hits[k]) == at;
            assert(hits[k] == tests[k].1.here() + 1);
            if k < j {
                lemma_test_order(c, asked, tests, k, j);
            } else if j < k {
                lemma_test_order(c, asked, tests, j, k);
            }
        }
        assert(sense::fixed(start, at, insn));
    }
    body
}

/// Whether a place is among places.
spec fn among(places: Seq<usize>, at: nat) -> bool {
    exists|k: int| 0 <= k < places.len() && (#[trigger] places[k]) == at
}

/// The jumps behind tests, aimed at the code behind the jump over it.
proof fn lemma_clause_aimed(asked: Code, hits: Seq<usize>, depth: nat, start: Code)
    requires
        sense::sane(asked),
        ({
            let jumped = asked.emit(Insn::Jump(0));
            start == jumped.patch_all(hits, jumped.here()).at_depth(depth)
        }),
        forall|k: int| 0 <= k < hits.len() ==> (#[trigger] hits[k]) < asked.here(),
    ensures
        sense::sane(start),
        start.here() == asked.here() + 1,
        sense::fixed(start, asked.here(), Insn::Jump(0)),
        forall|at: nat, insn: Insn| #[trigger]
            sense::fixed(asked, at, insn) && !among(hits, at) ==> sense::fixed(start, at, insn),
        forall|k: int|
            0 <= k < hits.len() && sense::fixed(asked, (#[trigger] hits[k]) as nat, Insn::JumpIf(0))
                ==> sense::fixed(
                start,
                hits[k] as nat,
                Insn::JumpIf(code::displacement(hits[k] as int, start.here() as int)),
            ),
{
    let jumped = asked.emit(Insn::Jump(0));
    let aimed = jumped.patch_all(hits, jumped.here());
    sense::lemma_len_emit(asked, Insn::Jump(0));
    sense::lemma_fixed_emit(asked, Insn::Jump(0));
    sense::lemma_fixed_patch_all(jumped, hits, jumped.here());
    sense::lemma_fixed_at_depth(aimed, depth);
    assert(sense::sane(aimed)) by {
        assert forall|at: int| #[trigger] sense::pending(aimed, at) implies sense::pending(
            jumped,
            at,
        ) by {
        }
    }
    assert forall|at: nat, insn: Insn| #[trigger] sense::fixed(asked, at, insn) && !among(
        hits,
        at,
    ) implies sense::fixed(start, at, insn) by {
        sense::lemma_fixed_over_emit(asked, at, insn, Insn::Jump(0));
        assert(sense::fixed(aimed, at, insn));
    }
    assert(sense::fixed(aimed, asked.here(), Insn::Jump(0)));
    assert forall|k: int|
        0 <= k < hits.len() && sense::fixed(asked, (#[trigger] hits[k]) as nat, Insn::JumpIf(0)) implies sense::fixed(
        start,
        hits[k] as nat,
        Insn::JumpIf(code::displacement(hits[k] as int, start.here() as int)),
    ) by {
        let at = hits[k] as nat;
        sense::lemma_fixed_over_emit(asked, at, Insn::JumpIf(0), Insn::Jump(0));
        lemma_patched(jumped, hits, jumped.here(), at, Insn::JumpIf(0));
    }
}

/// The end of a clause: a jump out, and the jump over the clause aimed.
proof fn lemma_clause_end(start: Code, ran: Code, miss: nat, depth: nat, end: Code)
    requires
        sense::sane(start),
        sense::fixed(start, miss, Insn::Jump(0)),
        extent::kept(start, ran),
        end == ran.emit(Insn::Jump(0)).patch_here(miss).at_depth(depth),
        end.insns.len() <= i32::MAX,
    ensures
        sense::sane(end),
        start.here() <= ran.here(),
        end.here() == ran.here() + 1,
        sense::fixed(end, ran.here(), Insn::Jump(0)),
        sense::fixed(
            end,
            miss,
            Insn::Jump(code::displacement(miss as int, end.here() as int)),
        ),
        forall|at: nat, insn: Insn| #[trigger]
            sense::fixed(start, at, insn) && at != miss ==> sense::fixed(end, at, insn),
        forall|at: nat, insn: Insn| #[trigger]
            sense::fixed(ran, at, insn) && at != miss ==> sense::fixed(end, at, insn),
{
    let left = ran.emit(Insn::Jump(0));
    let patched = left.patch_here(miss);
    extent::lemma_kept_len(start, ran);
    sense::lemma_fixed_inside(start, miss, Insn::Jump(0));
    sense::lemma_len_emit(ran, Insn::Jump(0));
    sense::lemma_len_patch_here(left, miss);
    sense::lemma_fixed_at_depth(patched, depth);
    sense::lemma_fixed_kept(start, ran);
    sense::lemma_fixed_emit(ran, Insn::Jump(0));
    sense::lemma_sane_patch_here(left, miss);
    assert forall|at: nat, insn: Insn| #[trigger] sense::fixed(ran, at, insn) && at
        != miss implies sense::fixed(end, at, insn) by {
        sense::lemma_fixed_over_emit(ran, at, insn, Insn::Jump(0));
        sense::lemma_fixed_over_patch_here(left, at, insn, miss);
    }
    assert forall|at: nat, insn: Insn| #[trigger] sense::fixed(start, at, insn) && at
        != miss implies sense::fixed(end, at, insn) by {
        assert(sense::fixed(ran, at, insn));
    }
    assert(sense::fixed(ran, miss, Insn::Jump(0)));
    sense::lemma_fixed_over_emit(ran, miss, Insn::Jump(0), Insn::Jump(0));
    sense::lemma_fixed_over_patch_here(left, miss, Insn::Jump(0), miss);
    sense::lemma_fixed_over_patch_here(left, ran.here(), Insn::Jump(0), miss);
}

/// One instruction stands at a place.
proof fn lemma_same_place(c: Code, at: nat, one: Insn, other: Insn)
    requires
        sense::fixed(c, at, one),
        sense::fixed(c, at, other),
    ensures
        one == other,
{
    reveal(sense::fixed);
}

/// Tests stand one behind the other.
proof fn lemma_test_order(c: Code, asked: Code, tests: Seq<(Code, Code)>, j: int, k: int)
    requires
        tested(c, asked, tests),
        0 <= j < k < tests.len(),
    ensures
        tests[j].1.here() + 2 <= tests[k].0.here() <= tests[k].1.here(),
{
    reveal(tested);
}

/// Whether a clause was lowered to code.
#[verifier::opaque]
spec fn one_clause(
    c: Code,
    clause: Rescue,
    body_start: nat,
    base: nat,
    done: Seq<usize>,
    end: Code,
    made: Seq<usize>,
) -> bool {
    lower::lower_rescue(c, clause, body_start, base, done) == Ok::<
        (Code, Seq<usize>),
        code::Unsupported,
    >((end, made))
}

/// Whether several were.
#[verifier::opaque]
spec fn all_clauses(
    c: Code,
    clauses: Seq<Rescue>,
    from: nat,
    body_start: nat,
    base: nat,
    done: Seq<usize>,
    end: Code,
    made: Seq<usize>,
) -> bool {
    lower::lower_rescues(c, clauses, from, body_start, base, done) == Ok::<
        (Code, Seq<usize>),
        code::Unsupported,
    >((end, made))
}

/// Whether the tests of a clause were lowered to code.
#[verifier::opaque]
spec fn clause_asks(c: Code, clause: Rescue, asked: Code, hits: Seq<usize>) -> bool {
    if clause.exceptions@.len() == 0 {
        let class = c.symbol("StandardError"@).emit(
            Insn::GetConst(c.symbol_at("StandardError"@), ConstScope::Top),
        );
        &&& asked == class.emit(Insn::CheckMatch).emit(Insn::JumpIf(0))
        &&& hits == seq![class.emit(Insn::CheckMatch).here() as usize]
    } else {
        lower::lower_exceptions(c, clause.exceptions@, 0, Seq::empty()) == Ok::<
            (Code, Seq<usize>),
            code::Unsupported,
        >((asked, hits))
    }
}

/// Whether what a clause does was lowered to code.
#[verifier::opaque]
spec fn clause_does(
    start: Code,
    clause: Rescue,
    body_start: nat,
    base: nat,
    inner: Code,
    ended: Code,
) -> bool {
    let bound = match clause.reference {
        Some(target) => {
            let (ready, place) = lower::lower_place(start, target)->Ok_0;
            lower::write_place(ready, place)
        },
        None => start.emit(Insn::Pop),
    };
    &&& inner == bound.push_retry(body_start, base)
    &&& clause.reference matches Some(target) ==> lower::lower_place(start, target) is Ok
    &&& lower::lower_body(inner, clause.body@, 0, true) == Ok::<Code, code::Unsupported>(ended)
}

/// The parts a clause is lowered to.
proof fn lemma_clause_shape(
    c: Code,
    clause: Rescue,
    body_start: nat,
    base: nat,
    done: Seq<usize>,
    end: Code,
    made: Seq<usize>,
) -> (shape: (Code, Seq<usize>, Code, Code))
    requires
        one_clause(c, clause, body_start, base, done, end, made),
    ensures
        ({
            let (asked, hits, inner, ended) = shape;
            let jumped = asked.emit(Insn::Jump(0));
            let start = jumped.patch_all(hits, jumped.here()).at_depth(lower::above(base));
            let ran = ended.pop_retry();
            &&& clause_asks(c, clause, asked, hits)
            &&& clause_does(start, clause, body_start, base, inner, ended)
            &&& end == ran.emit(Insn::Jump(0)).patch_here(asked.here()).at_depth(
                lower::above(base),
            )
            &&& made == done.push(ran.here() as usize)
        }),
{
    reveal(one_clause);
    reveal(clause_asks);
    reveal(clause_does);
    let named = clause.exceptions@.len() > 0;
    let class = c.symbol("StandardError"@).emit(
        Insn::GetConst(c.symbol_at("StandardError"@), ConstScope::Top),
    );
    let (asked, hits) = if named {
        lower::lower_exceptions(c, clause.exceptions@, 0, Seq::empty())->Ok_0
    } else {
        (
            class.emit(Insn::CheckMatch).emit(Insn::JumpIf(0)),
            seq![class.emit(Insn::CheckMatch).here() as usize],
        )
    };
    let jumped = asked.emit(Insn::Jump(0));
    let start = jumped.patch_all(hits, jumped.here()).at_depth(lower::above(base));
    let bound = match clause.reference {
        Some(target) => {
            let (ready, place) = lower::lower_place(start, target)->Ok_0;
            lower::write_place(ready, place)
        },
        None => start.emit(Insn::Pop),
    };
    let inner = bound.push_retry(body_start, base);
    let ended = lower::lower_body(inner, clause.body@, 0, true)->Ok_0;
    (asked, hits, inner, ended)
}

/// The tests of a clause.
proof fn lemma_clause_tests(c: Code, clause: Rescue, asked: Code, hits: Seq<usize>) -> (tests: Seq<
    (Code, Code),
>)
    requires
        sense::sane(c),
        forall|j: int|
            0 <= j < clause.exceptions@.len() ==> !((#[trigger] clause.exceptions@[j]).kind is Splat),
        clause_asks(c, clause, asked, hits),
        asked.insns.len() <= i32::MAX,
    ensures
        tested(c, asked, tests),
        hits_of(hits, tests),
        tests.len() > 0,
        named_tests(clause, tests),
{
    reveal(clause_asks);
    reveal(named_tests);
    if clause.exceptions@.len() == 0 {
        let pooled = c.symbol("StandardError"@);
        let class = pooled.emit(Insn::GetConst(c.symbol_at("StandardError"@), ConstScope::Top));
        lemma_standard_test(c, pooled, class, asked);
        sense::lemma_len_emit(class, Insn::CheckMatch);
        sense::lemma_len_emit(class.emit(Insn::CheckMatch), Insn::JumpIf(0));
        seq![(c, class)]
    } else {
        let tests = lemma_exception_tests(c, clause.exceptions@, 0, Seq::empty(), asked, hits);
        assert forall|j: int| 0 <= j < tests.len() implies (#[trigger] hits[j])
            == tests[j].1.here() + 1 by {
            assert(tests[j].1.here() + 1 == hits[0 + j]);
        }
        tests
    }
}

/// Whether tests are those of the classes of a clause.
#[verifier::opaque]
spec fn named_tests(clause: Rescue, tests: Seq<(Code, Code)>) -> bool {
    &&& tests.len() == if clause.exceptions@.len() == 0 {
        1
    } else {
        clause.exceptions@.len()
    }
    &&& forall|j: int|
        0 <= j < clause.exceptions@.len() ==> lower::lower_expr(
            (#[trigger] tests[j]).0,
            clause.exceptions@[j],
        ) == Ok::<Code, code::Unsupported>(tests[j].1)
    &&& clause.exceptions@.len() == 0 ==> {
        &&& tests[0].1.here() == tests[0].0.here() + 1
        &&& sense::fixed(
            tests[0].1,
            tests[0].0.here(),
            Insn::GetConst(tests[0].0.symbol_at("StandardError"@), ConstScope::Top),
        )
    }
}

/// The code of a clause.
proof fn lemma_clause(
    c: Code,
    clause: Rescue,
    body_start: nat,
    base: nat,
    done: Seq<usize>,
    end: Code,
    made: Seq<usize>,
) -> (parts: ClauseParts)
    requires
        sense::sane(c),
        forall|j: int|
            0 <= j < clause.exceptions@.len() ==> !((#[trigger] clause.exceptions@[j]).kind is Splat),
        one_clause(c, clause, body_start, base, done, end, made),
        end.insns.len() <= i32::MAX,
    ensures
        sense::sane(end),
        clause_code(clause, parts, end),
        parts.tests[0].0.here() == c.here(),
        parts.next == end.here(),
        made.len() == done.len() + 1,
        forall|k: int| 0 <= k < done.len() ==> (#[trigger] made[k]) == done[k],
        parts.statements.1.here() == made.last(),
        sense::fixed(end, made.last() as nat, Insn::Jump(0)),
        forall|at: nat, insn: Insn| #[trigger] sense::fixed(c, at, insn) ==> sense::fixed(end, at, insn),
{
    let (asked, hits, inner, ended) = lemma_clause_shape(
        c,
        clause,
        body_start,
        base,
        done,
        end,
        made,
    );
    let jumped = asked.emit(Insn::Jump(0));
    let aimed = jumped.patch_all(hits, jumped.here());
    let start = aimed.at_depth(lower::above(base));
    let ran = ended.pop_retry();
    let left = ran.emit(Insn::Jump(0));
    lemma_clause_body(start, clause, body_start, base, inner, ended, ran);
    extent::lemma_kept_len(start, ran);
    sense::lemma_len_emit(ran, Insn::Jump(0));
    sense::lemma_len_patch_here(left, asked.here());
    sense::lemma_fixed_at_depth(left.patch_here(asked.here()), lower::above(base));
    sense::lemma_len_emit(asked, Insn::Jump(0));
    assert(aimed.insns.len() == jumped.insns.len()) by {
        sense::lemma_fixed_patch_all(jumped, hits, jumped.here());
    }
    sense::lemma_fixed_at_depth(aimed, lower::above(base));
    let tests = lemma_clause_tests(c, clause, asked, hits);
    let body = lemma_clause_core(
        c,
        asked,
        tests,
        hits,
        lower::above(base),
        ran,
        lower::above(base),
        end,
    );
    let parts = ClauseParts { tests, body, statements: (inner, ended), next: end.here() };
    lemma_clause_statements(start, clause, inner, ended, ran, end, body);
    lemma_clause_whole(c, clause, asked, body_start, base, start, parts, end);
    parts
}

/// The test of `StandardError`.
proof fn lemma_standard_test(c: Code, pooled: Code, class: Code, standard: Code)
    requires
        sense::sane(c),
        pooled == c.symbol("StandardError"@),
        class == pooled.emit(Insn::GetConst(c.symbol_at("StandardError"@), ConstScope::Top)),
        standard == class.emit(Insn::CheckMatch).emit(Insn::JumpIf(0)),
        standard.insns.len() <= i32::MAX,
    ensures
        tested(c, standard, seq![(c, class)]),
        class.here() == c.here() + 1,
        sense::fixed(
            class,
            c.here(),
            Insn::GetConst(c.symbol_at("StandardError"@), ConstScope::Top),
        ),
{
    let insn = Insn::GetConst(c.symbol_at("StandardError"@), ConstScope::Top);
    extent::lemma_kept_itself(c);
    extent::lemma_kept_symbol(c, c, "StandardError"@);
    extent::lemma_kept_emit(c, pooled, insn);
    sense::lemma_len_emit(class, Insn::CheckMatch);
    sense::lemma_len_emit(class.emit(Insn::CheckMatch), Insn::JumpIf(0));
    sense::lemma_fixed_kept(c, pooled);
    sense::lemma_fixed_emit(pooled, insn);
    sense::lemma_fixed_emit(class, Insn::CheckMatch);
    sense::lemma_fixed_emit(class.emit(Insn::CheckMatch), Insn::JumpIf(0));
    lemma_tested_none(standard);
    lemma_tested_first(c, class, standard, standard, Seq::empty());
    assert(seq![(c, class)] + Seq::<(Code, Code)>::empty() =~= seq![(c, class)]);
}

/// What the body of a clause keeps.
proof fn lemma_clause_body(
    start: Code,
    clause: Rescue,
    body_start: nat,
    base: nat,
    inner: Code,
    ended: Code,
    ran: Code,
)
    requires
        clause_does(start, clause, body_start, base, inner, ended),
        ran == ended.pop_retry(),
    ensures
        extent::kept(start, inner),
        extent::kept(inner, ended),
        extent::kept(ended, ran),
        extent::kept(start, ran),
        ended.here() == ran.here(),
        clause.reference is None ==> extent::kept(start.emit(Insn::Pop), inner) && inner.here()
            == start.here() + 1,
{
    reveal(clause_does);
    extent::lemma_kept_itself(start);
    let bound = match clause.reference {
        Some(target) => {
            let (ready, place) = lower::lower_place(start, target)->Ok_0;
            extent::keep_place(start, start, target);
            extent::keep_write_place(start, ready, place);
            lower::write_place(ready, place)
        },
        None => {
            extent::lemma_kept_emit(start, start, Insn::Pop);
            start.emit(Insn::Pop)
        },
    };
    extent::lemma_kept_push_retry(start, bound, body_start, base);
    extent::lemma_kept_itself(bound);
    extent::lemma_kept_push_retry(bound, bound, body_start, base);
    sense::lemma_body_kept(inner, clause.body@, true, ended);
    extent::lemma_kept_itself(ended);
    extent::lemma_kept_pop_retry(ended, ended);
    extent::lemma_kept_trans(start, inner, ended);
    extent::lemma_kept_trans(start, ended, ran);
    reveal(Code::push_retry);
    reveal(Code::pop_retry);
    sense::lemma_len_emit(start, Insn::Pop);
}

/// The statements of a clause at its end.
proof fn lemma_clause_statements(
    start: Code,
    clause: Rescue,
    inner: Code,
    ended: Code,
    ran: Code,
    end: Code,
    body: nat,
)
    requires
        sense::sane(start),
        start.here() == body,
        extent::kept(start, inner),
        extent::kept(inner, ended),
        extent::kept(ended, ran),
        ended.here() == ran.here(),
        end.here() == ran.here() + 1,
        end.insns.len() <= i32::MAX,
        clause.reference is None ==> extent::kept(start.emit(Insn::Pop), inner),
        forall|at: nat, insn: Insn|
            body <= at && #[trigger] sense::fixed(ran, at, insn) ==> sense::fixed(end, at, insn),
    ensures
        sense::sane(inner),
        body <= inner.here() <= ended.here() < end.here(),
        clause.reference is None ==> sense::fixed(end, body, Insn::Pop),
        forall|at: nat, insn: Insn|
            inner.here() <= at && #[trigger] sense::fixed(ended, at, insn) ==> sense::fixed(
                end,
                at,
                insn,
            ),
{
    extent::lemma_kept_len(start, inner);
    extent::lemma_kept_len(inner, ended);
    extent::lemma_kept_len(ended, ran);
    sense::lemma_fixed_kept(start, inner);
    sense::lemma_fixed_kept(inner, ended);
    sense::lemma_fixed_kept(ended, ran);
    if clause.reference is None {
        sense::lemma_fixed_emit(start, Insn::Pop);
        sense::lemma_fixed_kept(start.emit(Insn::Pop), inner);
        assert(sense::fixed(inner, body, Insn::Pop));
        assert(sense::fixed(ended, body, Insn::Pop));
        assert(sense::fixed(ran, body, Insn::Pop));
    }
    assert forall|at: nat, insn: Insn|
        inner.here() <= at && #[trigger] sense::fixed(ended, at, insn) implies sense::fixed(
        end,
        at,
        insn,
    ) by {
        assert(sense::fixed(ran, at, insn));
    }
}

/// What was lowered of a clause, put together.
proof fn lemma_clause_whole(
    c: Code,
    clause: Rescue,
    asked: Code,
    body_start: nat,
    base: nat,
    start: Code,
    parts: ClauseParts,
    end: Code,
)
    requires
        tested(c, asked, parts.tests),
        parts.tests.len() > 0,
        named_tests(clause, parts.tests),
        clause_does(start, clause, body_start, base, parts.statements.0, parts.statements.1),
        parts.body == asked.here() + 1,
        parts.next == end.here(),
        parts.body <= parts.statements.0.here() <= parts.statements.1.here() < parts.next,
        sense::sane(parts.statements.0),
        clause.reference is None ==> sense::fixed(end, parts.body, Insn::Pop)
            && parts.statements.0.here() == parts.body + 1,
        forall|at: nat, insn: Insn|
            parts.statements.0.here() <= at && #[trigger] sense::fixed(
                parts.statements.1,
                at,
                insn,
            ) ==> sense::fixed(end, at, insn),
        forall|j: int|
            0 <= j < parts.tests.len() ==> {
                &&& sense::fixed(end, (#[trigger] parts.tests[j]).1.here(), Insn::CheckMatch)
                &&& sense::fixed(
                    end,
                    parts.tests[j].1.here() + 1,
                    Insn::JumpIf(
                        code::displacement(
                            (parts.tests[j].1.here() + 1) as int,
                            parts.body as int,
                        ),
                    ),
                )
            },
        sense::fixed(
            end,
            asked.here(),
            Insn::Jump(code::displacement(asked.here() as int, end.here() as int)),
        ),
        forall|j: int, at: nat, insn: Insn|
            0 <= j < parts.tests.len() && (#[trigger] parts.tests[j]).0.here() <= at
                && #[trigger] sense::fixed(parts.tests[j].1, at, insn) ==> sense::fixed(
                end,
                at,
                insn,
            ),
    ensures
        clause_code(clause, parts, end),
        parts.tests[0].0.here() == c.here(),
{
    reveal(tested);
    reveal(clause_code);
    reveal(named_tests);
    reveal(clause_does);
    let tests = parts.tests;
    let last = tests.len() - 1;
    assert(tests[last].1.here() + 2 == asked.here());
    assert(tests[0].0.here() == c.here());
    assert forall|j: int| 0 <= j < tests.len() implies {
        &&& sense::sane((#[trigger] tests[j]).0)
        &&& tests[0].0.here() <= tests[j].0.here() <= tests[j].1.here()
        &&& tests[j].1.here() + 3 <= parts.body
    } by {
    }
}

/// Where a clause starts: at the first place, or where the clause before it
/// sends what it does not take.
pub open spec fn clause_start(first: nat, parts: Seq<ClauseParts>, i: int) -> nat {
    if i == 0 {
        first
    } else {
        parts[i - 1].next
    }
}

/// One clause, and those behind it.
proof fn lemma_next_clause(
    c: Code,
    clauses: Seq<Rescue>,
    from: nat,
    body_start: nat,
    base: nat,
    done: Seq<usize>,
    after: Code,
    made: Seq<usize>,
) -> (first: (Code, Seq<usize>))
    requires
        from < clauses.len(),
        all_clauses(c, clauses, from, body_start, base, done, after, made),
    ensures
        one_clause(c, clauses[from as int], body_start, base, done, first.0, first.1),
        all_clauses(first.0, clauses, from + 1, body_start, base, first.1, after, made),
        first.0.insns.len() <= after.insns.len(),
{
    reveal(one_clause);
    reveal(all_clauses);
    let (end, next) = lower::lower_rescue(
        c,
        clauses[from as int],
        body_start,
        base,
        done,
    )->Ok_0;
    extent::lemma_kept_itself(end);
    extent::keep_rescues(end, end, clauses, from + 1, body_start, base, next);
    (end, next)
}

/// Clauses, one behind the other, and a raise behind them.
proof fn lemma_clauses(
    c: Code,
    clauses: Seq<Rescue>,
    from: nat,
    body_start: nat,
    base: nat,
    done: Seq<usize>,
    after: Code,
    made: Seq<usize>,
) -> (parts: Seq<ClauseParts>)
    requires
        sense::sane(c),
        from <= clauses.len(),
        forall|i: int, j: int|
            0 <= i < clauses.len() && 0 <= j < clauses[i].exceptions@.len()
                ==> !((#[trigger] clauses[i].exceptions@[j]).kind is Splat),
        all_clauses(c, clauses, from, body_start, base, done, after, made),
        after.insns.len() <= i32::MAX,
    ensures
        sense::sane(after),
        c.here() < after.here(),
        parts.len() == clauses.len() - from,
        forall|i: int|
            0 <= i < parts.len() ==> {
                &&& clause_code(clauses[from + i], #[trigger] parts[i], after)
                &&& parts[i].tests[0].0.here() == clause_start(c.here(), parts, i)
                &&& c.here() <= parts[i].tests[0].0.here()
            },
        sense::fixed(after, clause_start(c.here(), parts, parts.len() as int), Insn::Raise),
        forall|at: nat, insn: Insn| #[trigger] sense::fixed(c, at, insn) ==> sense::fixed(after, at, insn),
        done.len() <= made.len(),
        forall|k: int| 0 <= k < done.len() ==> (#[trigger] made[k]) == done[k],
        forall|k: int|
            done.len() <= k < made.len() ==> c.here() <= (#[trigger] made[k]) && sense::fixed(
                after,
                made[k] as nat,
                Insn::Jump(0),
            ),
        forall|k: int, i: int|
            done.len() <= k < made.len() && 0 <= i < parts.len() ==> free(
                #[trigger] parts[i],
                (#[trigger] made[k]) as nat,
            ),
    decreases clauses.len() - from,
{
    if from >= clauses.len() {
        reveal(all_clauses);
        sense::lemma_fixed_emit(c, Insn::Raise);
        sense::lemma_len_emit(c, Insn::Raise);
        assert forall|at: nat, insn: Insn| #[trigger] sense::fixed(c, at, insn) implies sense::fixed(
            after,
            at,
            insn,
        ) by {
            sense::lemma_fixed_over_emit(c, at, insn, Insn::Raise);
        }
        Seq::empty()
    } else {
        let clause = clauses[from as int];
        let (end, next) = lemma_next_clause(
            c,
            clauses,
            from,
            body_start,
            base,
            done,
            after,
            made,
        );
        let part = lemma_clause(c, clause, body_start, base, done, end, next);
        lemma_clause_order(clause, part, end);
        let rest = lemma_clauses(end, clauses, from + 1, body_start, base, next, after, made);
        lemma_clauses_first(c, clauses, from, done, end, next, part, rest, after, made);
        seq![part] + rest
    }
}

/// One more clause in front of clauses.
proof fn lemma_clauses_first(
    c: Code,
    clauses: Seq<Rescue>,
    from: nat,
    done: Seq<usize>,
    end: Code,
    next: Seq<usize>,
    part: ClauseParts,
    rest: Seq<ClauseParts>,
    after: Code,
    made: Seq<usize>,
)
    requires
        from < clauses.len(),
        clause_code(clauses[from as int], part, end),
        part.tests[0].0.here() == c.here(),
        part.next == end.here(),
        next.len() == done.len() + 1,
        forall|k: int| 0 <= k < done.len() ==> (#[trigger] next[k]) == done[k],
        part.statements.1.here() == next.last(),
        sense::fixed(end, next.last() as nat, Insn::Jump(0)),
        forall|at: nat, insn: Insn| #[trigger] sense::fixed(c, at, insn) ==> sense::fixed(end, at, insn),
        end.here() < after.here(),
        rest.len() == clauses.len() - from - 1,
        forall|i: int|
            0 <= i < rest.len() ==> {
                &&& clause_code(clauses[from + 1 + i], #[trigger] rest[i], after)
                &&& rest[i].tests[0].0.here() == clause_start(end.here(), rest, i)
                &&& end.here() <= rest[i].tests[0].0.here()
            },
        sense::fixed(after, clause_start(end.here(), rest, rest.len() as int), Insn::Raise),
        forall|at: nat, insn: Insn| #[trigger] sense::fixed(end, at, insn) ==> sense::fixed(after, at, insn),
        next.len() <= made.len(),
        forall|k: int| 0 <= k < next.len() ==> (#[trigger] made[k]) == next[k],
        forall|k: int|
            next.len() <= k < made.len() ==> end.here() <= (#[trigger] made[k]) && sense::fixed(
                after,
                made[k] as nat,
                Insn::Jump(0),
            ),
        forall|k: int, i: int|
            next.len() <= k < made.len() && 0 <= i < rest.len() ==> free(
                #[trigger] rest[i],
                (#[trigger] made[k]) as nat,
            ),
    ensures
        ({
            let parts = seq![part] + rest;
            &&& forall|i: int|
                0 <= i < parts.len() ==> {
                    &&& clause_code(clauses[from + i], #[trigger] parts[i], after)
                    &&& parts[i].tests[0].0.here() == clause_start(c.here(), parts, i)
                    &&& c.here() <= parts[i].tests[0].0.here()
                }
            &&& sense::fixed(
                after,
                clause_start(c.here(), parts, parts.len() as int),
                Insn::Raise,
            )
            &&& forall|k: int| 0 <= k < done.len() ==> (#[trigger] made[k]) == done[k]
            &&& forall|k: int|
                done.len() <= k < made.len() ==> c.here() <= (#[trigger] made[k]) && sense::fixed(
                    after,
                    made[k] as nat,
                    Insn::Jump(0),
                )
            &&& forall|k: int, i: int|
                done.len() <= k < made.len() && 0 <= i < parts.len() ==> free(
                    #[trigger] parts[i],
                    (#[trigger] made[k]) as nat,
                )
        }),
{
    let parts = seq![part] + rest;
    lemma_clause_stays(clauses[from as int], part, end, after);
    assert(parts[0] == part);
    lemma_clause_order(clauses[from as int], part, end);
    assert forall|i: int| 0 <= i < parts.len() implies {
        &&& clause_code(clauses[from + i], #[trigger] parts[i], after)
        &&& parts[i].tests[0].0.here() == clause_start(c.here(), parts, i)
        &&& c.here() <= parts[i].tests[0].0.here()
    } by {
        if i > 0 {
            assert(parts[i] == rest[i - 1]);
            if i > 1 {
                assert(parts[i - 1] == rest[i - 2]);
            }
        }
    }
    let n = parts.len() as int;
    if n > 1 {
        assert(parts[n - 1] == rest[n - 2]);
    }
    assert(made[done.len() as int] == next[done.len() as int]);
    assert forall|k: int| 0 <= k < done.len() implies (#[trigger] made[k]) == done[k] by {
        assert(made[k] == next[k]);
    }
    assert forall|k: int, i: int| done.len() <= k < made.len() && 0 <= i < parts.len() implies free(
        #[trigger] parts[i],
        (#[trigger] made[k]) as nat,
    ) by {
        if i > 0 {
            assert(parts[i] == rest[i - 1]);
        }
    }
}

// ---------------------------------------------------------------------------
// A whole `begin`
// ---------------------------------------------------------------------------

/// Where the parts of a `begin` are: its body, the code behind it, the code in
/// front of the first clause, and behind the last.
struct BeginParts {
    body: (Code, Code),
    ran: Code,
    handler: Code,
    handled: Code,
    exits: Seq<usize>,
}

/// The code of a `begin` when the clauses are there and their exits are aimed.
spec fn guarded(base: nat, p: BeginParts) -> Code {
    let c = p.handled.guard(
        lower::protected(
            CatchKind::Rescue,
            p.body.0.here(),
            p.body.1.here(),
            p.ran.emit(Insn::Jump(0)).here(),
            base,
        ),
    );
    c.patch_all(p.exits, c.here())
}

/// What a `begin` with clauses is lowered to.
proof fn lemma_begin_shape(c: Code, node: Begin, after: Code) -> (p: BeginParts)
    requires
        node.rescues@.len() > 0,
        lower::lower_begin(c, node) == Ok::<Code, code::Unsupported>(after),
    ensures
        lower::lower_body(p.body.0, node.body@, 0, true) == Ok::<Code, code::Unsupported>(
            p.body.1,
        ),
        extent::kept(c, p.body.0),
        extent::kept(p.body.0, p.body.1),
        extent::kept(p.body.1, p.ran),
        p.handler == p.ran.emit(Insn::Jump(0)).handle_at(lower::above(c.depth)),
        all_clauses(
            p.handler,
            node.rescues@,
            0,
            p.body.0.here(),
            c.depth,
            seq![p.ran.here() as usize],
            p.handled,
            p.exits,
        ),
        extent::kept(guarded(c.depth, p), after),
{
    broadcast use extent::group_kept;

    reveal(all_clauses);
    let base = c.depth;
    let open = if node.ensure_body is Some {
        c.owe(lower::above(c.open_ensures))
    } else {
        c
    };
    extent::lemma_kept_itself(c);
    extent::keep_save_errinfo(c, open);
    let (b0, errinfo) = lower::save_errinfo(open);
    let b1 = lower::lower_body(b0, node.body@, 0, true)->Ok_0;
    sense::lemma_body_kept(b0, node.body@, true, b1);
    extent::lemma_kept_itself(b1);
    let ran = match node.else_body {
        Some(body) => {
            extent::keep_body(b1, b1.emit(Insn::Pop), body@, 0, true);
            lower::lower_body(b1.emit(Insn::Pop), body@, 0, true)->Ok_0
        },
        None => b1,
    };
    let handler = ran.emit(Insn::Jump(0)).handle_at(lower::above(base));
    let (handled, exits) = lower::lower_rescues(
        handler,
        node.rescues@,
        0,
        b0.here(),
        base,
        seq![ran.here() as usize],
    )->Ok_0;
    let p = BeginParts { body: (b0, b1), ran, handler, handled, exits };
    let g = guarded(base, p);
    extent::lemma_kept_itself(g);
    let left = g.at_depth(lower::above(base)).emit(Insn::GetLocal(errinfo, 0)).emit(
        Insn::SetErrinfo,
    );
    if let Some(body) = node.ensure_body {
        let owed = left.owe(lower::below(left.open_ensures));
        extent::keep_body(g, owed.emit(Insn::EnterEnsure), body@, 0, true);
    }
    p
}

/// Aiming jumps leaves the protected ranges alone.
proof fn lemma_patch_all_ranges(c: Code, jumps: Seq<usize>, target: nat)
    ensures
        c.patch_all(jumps, target).catch_table == c.catch_table,
    decreases jumps.len(),
{
    reveal(Code::patch_all);
    if jumps.len() > 0 {
        reveal(Code::patch);
        lemma_patch_all_ranges(c.patch(jumps[0] as nat, target), jumps.skip(1), target);
    }
}

/// What of a `begin` stands in the code it is lowered to.
proof fn lemma_begin_code(
    c: Code,
    clauses: Seq<Rescue>,
    p: BeginParts,
    parts: Seq<ClauseParts>,
    after: Code,
)
    requires
        clauses.len() > 0,
        parts.len() == clauses.len(),
        extent::kept(p.body.1, p.ran),
        sense::sane(p.body.1),
        p.ran.here() < p.handler.here() < p.handled.here(),
        forall|at: nat, insn: Insn| #[trigger]
            sense::fixed(p.ran, at, insn) ==> sense::fixed(p.handled, at, insn),
        extent::kept(guarded(c.depth, p), after),
        after.insns.len() <= i32::MAX,
        forall|i: int|
            0 <= i < parts.len() ==> {
                &&& clause_code(clauses[i], #[trigger] parts[i], p.handled)
                &&& parts[i].tests[0].0.here() == clause_start(p.handler.here(), parts, i)
                &&& p.handler.here() <= parts[i].tests[0].0.here()
            },
        sense::fixed(
            p.handled,
            clause_start(p.handler.here(), parts, parts.len() as int),
            Insn::Raise,
        ),
        p.exits.len() > 0,
        p.exits[0] == p.ran.here(),
        forall|k: int|
            1 <= k < p.exits.len() ==> p.handler.here() <= (#[trigger] p.exits[k]) && sense::fixed(
                p.handled,
                p.exits[k] as nat,
                Insn::Jump(0),
            ),
        forall|k: int, i: int|
            1 <= k < p.exits.len() && 0 <= i < parts.len() ==> free(
                #[trigger] parts[i],
                (#[trigger] p.exits[k]) as nat,
            ),
    ensures
        forall|i: int|
            0 <= i < parts.len() ==> clause_code(clauses[i], #[trigger] parts[i], after),
        sense::fixed(after, parts.last().next, Insn::Raise),
        forall|at: nat, insn: Insn| #[trigger]
            sense::fixed(p.body.1, at, insn) ==> sense::fixed(after, at, insn),
        p.body.1.here() <= after.here(),
        after.catch_table.contains(
            lower::protected(
                CatchKind::Rescue,
                p.body.0.here(),
                p.body.1.here(),
                p.ran.emit(Insn::Jump(0)).here(),
                c.depth,
            ),
        ),
{
    let entry = lower::protected(
        CatchKind::Rescue,
        p.body.0.here(),
        p.body.1.here(),
        p.ran.emit(Insn::Jump(0)).here(),
        c.depth,
    );
    let held = p.handled.guard(entry);
    let g = guarded(c.depth, p);
    reveal(Code::guard);
    sense::lemma_same_code(p.handled, held);
    sense::lemma_fixed_patch_all(held, p.exits, held.here());
    lemma_patch_all_ranges(held, p.exits, held.here());
    extent::lemma_kept_len(g, after);
    extent::lemma_kept_len(p.body.1, p.ran);
    sense::lemma_fixed_kept(p.body.1, p.ran);
    sense::lemma_fixed_kept(g, after);
    assert(after.catch_table.contains(entry)) by {
        reveal(extent::kept);
        let i = p.handled.catch_table.len() as int;
        assert(g.catch_table[i] == entry);
        assert(after.catch_table[i] == entry);
    }
    assert forall|at: nat, insn: Insn|
        !among(p.exits, at) && #[trigger] sense::fixed(p.handled, at, insn) implies sense::fixed(
        after,
        at,
        insn,
    ) by {
        assert(sense::fixed(held, at, insn));
        assert(sense::fixed(g, at, insn));
    }
    assert forall|at: nat, insn: Insn| #[trigger] sense::fixed(p.body.1, at, insn) implies sense::fixed(
        after,
        at,
        insn,
    ) by {
        sense::lemma_fixed_inside(p.body.1, at, insn);
        assert(sense::fixed(p.ran, at, insn));
        assert(sense::fixed(p.handled, at, insn));
        if among(p.exits, at) {
            let k = choose|k: int| 0 <= k < p.exits.len() && (#[trigger] p.exits[k]) == at;
            if k > 0 {
                assert(p.handler.here() <= p.exits[k]);
            }
        }
    }
    let last = parts.last().next;
    assert(last == clause_start(p.handler.here(), parts, parts.len() as int));
    if among(p.exits, last) {
        let k = choose|k: int| 0 <= k < p.exits.len() && (#[trigger] p.exits[k]) == last;
        let n = parts.len() - 1;
        lemma_clause_order(clauses[n], parts[n], p.handled);
        if k > 0 {
            lemma_same_place(p.handled, last, Insn::Raise, Insn::Jump(0));
        }
    }
    assert forall|i: int| 0 <= i < parts.len() implies clause_code(
        clauses[i],
        #[trigger] parts[i],
        after,
    ) by {
        assert forall|at: nat, insn: Insn|
            !free(parts[i], at) && #[trigger] sense::fixed(p.handled, at, insn) implies sense::fixed(
            after,
            at,
            insn,
        ) by {
            if among(p.exits, at) {
                let k = choose|k: int| 0 <= k < p.exits.len() && (#[trigger] p.exits[k]) == at;
                if k > 0 {
                    assert(free(parts[i], p.exits[k] as nat));
                }
            }
        }
        lemma_clause_stays(clauses[i], parts[i], p.handled, after);
    }
}

/// The tests of a clause, run by the machine.
proof fn lemma_clause_runs<F: Floats>(
    floats: &F,
    c: Code,
    clause: Rescue,
    parts: ClauseParts,
    after: Code,
    s: MachineModel,
)
    requires
        s.frames.len() > 0,
        s.stack.len() > 0,
        clause_code(clause, parts, after),
        c.here() <= parts.tests[0].0.here(),
        sense::carries(s.top().iseq, after, c.here()),
        after.insns.len() <= i32::MAX,
    ensures
        clause_tests(floats, clause, s, parts),
{
    reveal(clause_code);
    let iseq = s.top().iseq;
    let tests = parts.tests;
    let (from, to) = parts.statements;
    sense::lemma_carries_part(iseq, c, to, after, from.here());
    assert forall|j: int| 0 <= j < clause.exceptions@.len() implies sense::expr_at(
        iseq,
        (#[trigger] tests[j]).0,
        clause.exceptions@[j],
        tests[j].1,
    ) by {
        sense::lemma_carries_part(iseq, c, tests[j].1, after, tests[j].0.here());
    }
    assert forall|j: int| 0 <= j < tests.len() implies #[trigger] test_decides(
        floats,
        s,
        parts,
        j,
    ) by {
        let at = tests[j].1.here();
        assert(tests[j].1.here() + 3 <= parts.body);
        assert(sense::fixed(after, at, Insn::CheckMatch));
        let by = code::displacement((at + 1) as int, parts.body as int);
        assert(sense::fixed(after, at + 1, Insn::JumpIf(by)));
        assert(j + 1 < tests.len() ==> tests[j + 1].0.here() == at + 2);
        assert forall|mid: HeapModel, now: MachineModel, k: Value, wanted: ClassId| #[trigger]
            sense::comes(s, now, at, s.stack.push(k)) && #[trigger] is_class(
                mid,
                k,
                wanted,
            ) implies sense::leads(
            floats,
            mid,
            now,
            if takes(mid, s.stack.last(), wanted) {
                parts.body
            } else {
                after_test(parts, j)
            },
            s.stack,
        ) by {
            lemma_test(floats, s, at, parts.body, mid, now, k, wanted);
            if !takes(mid, s.stack.last(), wanted) && j + 1 == tests.len() {
                let over = code::displacement((at + 2) as int, parts.next as int);
                assert(sense::fixed(after, at + 2, Insn::Jump(over)));
                sense::lemma_then(floats, mid, now, at + 2, s.stack, parts.next, s.stack);
            }
        }
    }
}

/// Whether the machine raises a value when it is at a place with certain
/// operands.
pub open spec fn raises_at<F: Floats>(
    floats: &F,
    s: MachineModel,
    place: nat,
    exception: Value,
) -> bool {
    forall|
        mid: HeapModel,
        now: MachineModel,
        after: HeapModel,
        left: MachineModel,
        r: Result<Step, Error>,
    |
        sense::comes(s, now, place, s.stack) && #[trigger] step::stepped(
            floats,
            mid,
            after,
            now,
            left,
            r,
        ) ==> r == Ok::<Step, Error>(Step::Unwind(Unwind::Exception(exception))) && after == mid
            && left.stack == s.stack.drop_last()
}

/// An exception that comes to the clauses of a `begin` is taken by the first
/// clause that names a class among the ancestors of the exception's class.
///
/// The body of the `begin` is protected, and what it raises goes to the first
/// test of the first clause. The tests ask class by class, and clause by clause.
/// Where the code of a class left a class that takes the exception, the machine
/// goes to the body of that clause, with the exception on top. Where it does
/// not, the machine goes to the next class, behind the last class of a clause to
/// the next clause, and behind the last clause it raises the exception again. So
/// where the code of every class leaves a class and nothing else, the machine
/// gets to the body of the first clause of which a class takes the exception,
/// and raises the same exception where there is no such clause.
pub proof fn law_an_exception_goes_to_the_first_clause_that_takes_it<F: Floats>(
    floats: &F,
    c: Code,
    expr: Expr,
    after: Code,
    s: MachineModel,
) -> (found: ((Code, Code), Seq<ClauseParts>))
    requires
        s.frames.len() > 0,
        s.stack.len() > 0,
        expr.kind is Begin,
        expr.kind->Begin_0.rescues@.len() > 0,
        forall|i: int, j: int|
            0 <= i < expr.kind->Begin_0.rescues@.len() && 0 <= j
                < expr.kind->Begin_0.rescues@[i].exceptions@.len() ==> !((
            #[trigger] expr.kind->Begin_0.rescues@[i].exceptions@[j]).kind is Splat),
        sense::expr_at(s.top().iseq, c, expr, after),
    ensures
        ({
            let node = *expr.kind->Begin_0;
            let (body, parts) = found;
            &&& sense::body_at(s.top().iseq, body.0, node.body@, true, body.1)
            &&& parts.len() == node.rescues@.len()
            &&& after.catch_table.contains(
                lower::protected(
                    CatchKind::Rescue,
                    body.0.here(),
                    body.1.here(),
                    parts[0].tests[0].0.here(),
                    c.depth,
                ),
            )
            &&& forall|i: int|
                0 <= i < parts.len() ==> clause_tests(
                    floats,
                    node.rescues@[i],
                    s,
                    #[trigger] parts[i],
                )
            &&& forall|i: int|
                0 < i < parts.len() ==> (#[trigger] parts[i]).tests[0].0.here() == parts[i
                    - 1].next
            &&& raises_at(floats, s, parts.last().next, s.stack.last())
            &&& forall|m: HeapModel, classes: Seq<Seq<ClassId>>| #[trigger]
                leaves_classes(floats, m, s, parts, classes) ==> first_takes(
                    floats,
                    m,
                    s,
                    parts,
                    classes,
                )
        }),
{
    let node = *expr.kind->Begin_0;
    let iseq = s.top().iseq;
    let p = lemma_begin_shape(c, node, after);
    let parts = lemma_begin_clauses(c, node.rescues@, p, after);
    lemma_begin_code(c, node.rescues@, p, parts, after);
    sense::lemma_carries_part(iseq, c, p.body.1, after, p.body.0.here());
    assert forall|i: int| 0 <= i < parts.len() implies clause_tests(
        floats,
        node.rescues@[i],
        s,
        #[trigger] parts[i],
    ) by {
        lemma_clause_runs(floats, c, node.rescues@[i], parts[i], after, s);
    }
    let place = parts.last().next;
    sense::lemma_fixed_inside(after, place, Insn::Raise);
    assert(c.here() <= place) by {
        let n = parts.len() - 1;
        lemma_clause_order(node.rescues@[n], parts[n], after);
    }
    lemma_raises(floats, s, place);
    lemma_clauses_decide(floats, c, node.rescues@, parts, after, s);
    assert forall|m: HeapModel, classes: Seq<Seq<ClassId>>| #[trigger]
        leaves_classes(floats, m, s, parts, classes) implies first_takes(
        floats,
        m,
        s,
        parts,
        classes,
    ) by {
        lemma_first_takes(floats, m, s, parts, classes);
    }
    (p.body, parts)
}

/// The clauses of a `begin`, run by the machine.
proof fn lemma_clauses_decide<F: Floats>(
    floats: &F,
    c: Code,
    clauses: Seq<Rescue>,
    parts: Seq<ClauseParts>,
    after: Code,
    s: MachineModel,
)
    requires
        parts.len() == clauses.len(),
        after.insns.len() <= i32::MAX,
        forall|i: int|
            0 <= i < parts.len() ==> clause_code(clauses[i], #[trigger] parts[i], after),
        forall|i: int|
            0 <= i < parts.len() ==> clause_tests(floats, clauses[i], s, #[trigger] parts[i]),
        forall|i: int|
            0 < i < parts.len() ==> (#[trigger] parts[i]).tests[0].0.here() == parts[i - 1].next,
    ensures
        clauses_decide(floats, s, parts),
{
    assert forall|i: int, j: int| 0 <= i < parts.len() && 0 <= j < parts[i].tests.len() implies (
    #[trigger] parts[i].tests[j]).1.here() <= usize::MAX by {
        assert(clause_code(clauses[i], parts[i], after));
        reveal(clause_code);
        assert(parts[i].tests[j].1.here() + 3 <= parts[i].body);
    }
    assert forall|i: int, j: int|
        0 <= i < parts.len() && 0 <= j < parts[i].tests.len() implies #[trigger] test_decides(
        floats,
        s,
        parts[i],
        j,
    ) by {
        assert(clause_tests(floats, clauses[i], s, parts[i]));
    }
    assert forall|i: int| 0 <= i < parts.len() implies (#[trigger] parts[i]).tests.len() > 0 by {
        lemma_clause_order(clauses[i], parts[i], after);
    }
}

/// A raise, run by the machine.
proof fn lemma_raises<F: Floats>(floats: &F, s: MachineModel, place: nat)
    requires
        s.frames.len() > 0,
        s.stack.len() > 0,
        place < s.top().iseq.insns@.len(),
        s.top().iseq.insns@[place as int] == Insn::Raise,
    ensures
        raises_at(floats, s, place, s.stack.last()),
{
    reveal(step::stepped);
}

/// The clauses of a `begin`.
proof fn lemma_begin_clauses(
    c: Code,
    clauses: Seq<Rescue>,
    p: BeginParts,
    after: Code,
) -> (parts: Seq<ClauseParts>)
    requires
        clauses.len() > 0,
        sense::sane(c),
        forall|i: int, j: int|
            0 <= i < clauses.len() && 0 <= j < clauses[i].exceptions@.len()
                ==> !((#[trigger] clauses[i].exceptions@[j]).kind is Splat),
        extent::kept(c, p.body.0),
        extent::kept(p.body.0, p.body.1),
        extent::kept(p.body.1, p.ran),
        p.handler == p.ran.emit(Insn::Jump(0)).handle_at(lower::above(c.depth)),
        all_clauses(
            p.handler,
            clauses,
            0,
            p.body.0.here(),
            c.depth,
            seq![p.ran.here() as usize],
            p.handled,
            p.exits,
        ),
        extent::kept(guarded(c.depth, p), after),
        after.insns.len() <= i32::MAX,
    ensures
        parts.len() == clauses.len(),
        c.here() <= p.body.0.here() <= p.body.1.here() <= p.ran.here(),
        p.ran.here() < p.handler.here() < p.handled.here(),
        p.handler.here() == p.ran.emit(Insn::Jump(0)).here(),
        sense::sane(p.body.0),
        sense::sane(p.body.1),
        forall|at: nat, insn: Insn| #[trigger]
            sense::fixed(p.ran, at, insn) ==> sense::fixed(p.handled, at, insn),
        forall|i: int|
            0 <= i < parts.len() ==> {
                &&& clause_code(clauses[i], #[trigger] parts[i], p.handled)
                &&& parts[i].tests[0].0.here() == clause_start(p.handler.here(), parts, i)
                &&& p.handler.here() <= parts[i].tests[0].0.here()
            },
        sense::fixed(
            p.handled,
            clause_start(p.handler.here(), parts, parts.len() as int),
            Insn::Raise,
        ),
        p.exits.len() > 0,
        p.exits[0] == p.ran.here(),
        forall|k: int|
            1 <= k < p.exits.len() ==> p.handler.here() <= (#[trigger] p.exits[k]) && sense::fixed(
                p.handled,
                p.exits[k] as nat,
                Insn::Jump(0),
            ),
        forall|k: int, i: int|
            1 <= k < p.exits.len() && 0 <= i < parts.len() ==> free(
                #[trigger] parts[i],
                (#[trigger] p.exits[k]) as nat,
            ),
{
    let g = guarded(c.depth, p);
    reveal(Code::guard);
    reveal(Code::handle_at);
    let left = p.ran.emit(Insn::Jump(0));
    assert(p.handled.insns.len() == g.insns.len()) by {
        let held = p.handled.guard(
            lower::protected(
                CatchKind::Rescue,
                p.body.0.here(),
                p.body.1.here(),
                left.here(),
                c.depth,
            ),
        );
        sense::lemma_fixed_patch_all(held, p.exits, held.here());
    }
    extent::lemma_kept_len(g, after);
    assert(p.handler.insns.len() <= p.handled.insns.len()) by {
        reveal(all_clauses);
        extent::lemma_kept_itself(p.handler);
        extent::keep_rescues(
            p.handler,
            p.handler,
            clauses,
            0,
            p.body.0.here(),
            c.depth,
            seq![p.ran.here() as usize],
        );
    }
    sense::lemma_len_emit(p.ran, Insn::Jump(0));
    sense::lemma_same_code(left, p.handler);
    extent::lemma_kept_len(c, p.body.0);
    extent::lemma_kept_len(p.body.0, p.body.1);
    extent::lemma_kept_len(p.body.1, p.ran);
    sense::lemma_fixed_kept(c, p.body.0);
    sense::lemma_fixed_kept(p.body.0, p.body.1);
    sense::lemma_fixed_kept(p.body.1, p.ran);
    sense::lemma_fixed_emit(p.ran, Insn::Jump(0));
    let done = seq![p.ran.here() as usize];
    let parts = lemma_clauses(
        p.handler,
        clauses,
        0,
        p.body.0.here(),
        c.depth,
        done,
        p.handled,
        p.exits,
    );
    assert(p.exits[0] == done[0]);
    assert forall|at: nat, insn: Insn| #[trigger] sense::fixed(p.ran, at, insn) implies sense::fixed(
        p.handled,
        at,
        insn,
    ) by {
        sense::lemma_fixed_over_emit(p.ran, at, insn, Insn::Jump(0));
        assert(sense::fixed(left, at, insn));
        assert(sense::fixed(p.handler, at, insn));
    }
    assert forall|i: int| 0 <= i < parts.len() implies {
        &&& clause_code(clauses[i], #[trigger] parts[i], p.handled)
        &&& parts[i].tests[0].0.here() == clause_start(p.handler.here(), parts, i)
        &&& p.handler.here() <= parts[i].tests[0].0.here()
    } by {
        assert(clauses[0 + i] == clauses[i]);
    }
    parts
}

// ---------------------------------------------------------------------------
// `rescue` behind an expression
// ---------------------------------------------------------------------------

/// An exception that the value of `value rescue other` raises is taken where
/// `StandardError` is among the ancestors of its class, and `other` is run then.
/// Where it is not, the same exception is raised again.
pub proof fn law_a_rescue_modifier_takes_standard_errors<F: Floats>(
    floats: &F,
    c: Code,
    expr: Expr,
    after: Code,
    s: MachineModel,
) -> (found: ((Code, Code), ClauseParts))
    requires
        s.frames.len() > 0,
        s.stack.len() > 0,
        expr.kind is RescueMod,
        sense::expr_at(s.top().iseq, c, expr, after),
    ensures
        ({
            let node = expr.kind->RescueMod_0;
            let (value, parts) = found;
            let iseq = s.top().iseq;
            let (from, to) = parts.tests[0];
            let (other, other_end) = parts.statements;
            &&& sense::expr_at(iseq, value.0, node.value, value.1)
            &&& after.catch_table.contains(
                lower::protected(
                    CatchKind::Rescue,
                    value.0.here(),
                    value.1.here(),
                    from.here(),
                    c.depth,
                ),
            )
            &&& parts.tests.len() == 1
            &&& to.here() == from.here() + 1
            &&& iseq.insns@[from.here() as int] == Insn::GetConst(
                from.symbol_at("StandardError"@),
                ConstScope::Top,
            )
            &&& test_decides(floats, s, parts, 0)
            &&& iseq.insns@[parts.body as int] == Insn::Pop
            &&& other.here() == parts.body + 1
            &&& sense::expr_at(iseq, other, node.rescue_value, other_end)
            &&& raises_at(floats, s, parts.next, s.stack.last())
        }),
{
    let node = *expr.kind->RescueMod_0;
    let base = c.depth;
    let (b0, errinfo) = lower::save_errinfo(c);
    let b1 = lower::lower_expr(b0, node.value)->Ok_0;
    let left = b1.emit(Insn::Jump(0));
    let h = left.handle_at(lower::above(base));
    let pooled = h.symbol("StandardError"@);
    let class = pooled.emit(Insn::GetConst(h.symbol_at("StandardError"@), ConstScope::Top));
    let checked = class.emit(Insn::CheckMatch);
    let asked = checked.emit(Insn::JumpIf(0));
    let start = asked.emit(Insn::Jump(0)).patch_here(checked.here()).at_depth(lower::above(base));
    let inner = start.emit(Insn::Pop).push_retry(b0.here(), base);
    let ended = lower::lower_expr(inner, node.rescue_value)->Ok_0;
    let ran = ended.pop_retry();
    let end = ran.emit(Insn::Jump(0)).patch_here(asked.here()).at_depth(lower::above(base));
    extent::lemma_kept_itself(c);
    extent::keep_save_errinfo(c, c);
    sense::lemma_expr_kept(b0, node.value, b1);
    sense::lemma_expr_kept(inner, node.rescue_value, ended);
    let parts = lemma_modifier(
        floats,
        c,
        b0,
        b1,
        h,
        class,
        asked,
        start,
        inner,
        ended,
        ran,
        end,
        errinfo,
        after,
        s,
    );
    ((b0, b1), parts)
}

/// The code of such an expression, run by the machine.
proof fn lemma_modifier<F: Floats>(
    floats: &F,
    c: Code,
    b0: Code,
    b1: Code,
    h: Code,
    class: Code,
    asked: Code,
    start: Code,
    inner: Code,
    ended: Code,
    ran: Code,
    end: Code,
    errinfo: u16,
    after: Code,
    s: MachineModel,
) -> (parts: ClauseParts)
    requires
        s.frames.len() > 0,
        s.stack.len() > 0,
        sense::has_code(s.top().iseq, c, after),
        extent::kept(c, b0),
        extent::kept(b0, b1),
        h == b1.emit(Insn::Jump(0)).handle_at(lower::above(c.depth)),
        class == h.symbol("StandardError"@).emit(
            Insn::GetConst(h.symbol_at("StandardError"@), ConstScope::Top),
        ),
        asked == class.emit(Insn::CheckMatch).emit(Insn::JumpIf(0)),
        start == asked.emit(Insn::Jump(0)).patch_here(class.emit(Insn::CheckMatch).here()).at_depth(
            lower::above(c.depth),
        ),
        inner == start.emit(Insn::Pop).push_retry(b0.here(), c.depth),
        extent::kept(inner, ended),
        ran == ended.pop_retry(),
        end == ran.emit(Insn::Jump(0)).patch_here(asked.here()).at_depth(lower::above(c.depth)),
        after == modified(
            end.emit(Insn::Raise),
            lower::protected(
                CatchKind::Rescue,
                b0.here(),
                b1.here(),
                b1.emit(Insn::Jump(0)).here(),
                c.depth,
            ),
            b1.here(),
            ran.here(),
            lower::above(c.depth),
            errinfo,
        ),
    ensures
        ({
            let iseq = s.top().iseq;
            &&& sense::has_code(iseq, b0, b1)
            &&& after.catch_table.contains(
                lower::protected(
                    CatchKind::Rescue,
                    b0.here(),
                    b1.here(),
                    parts.tests[0].0.here(),
                    c.depth,
                ),
            )
            &&& parts.tests == seq![(h, class)]
            &&& parts.statements == (inner, ended)
            &&& class.here() == h.here() + 1
            &&& iseq.insns@[h.here() as int] == Insn::GetConst(
                h.symbol_at("StandardError"@),
                ConstScope::Top,
            )
            &&& test_decides(floats, s, parts, 0)
            &&& iseq.insns@[parts.body as int] == Insn::Pop
            &&& inner.here() == parts.body + 1
            &&& sense::has_code(iseq, inner, ended)
            &&& raises_at(floats, s, parts.next, s.stack.last())
        }),
{
    let iseq = s.top().iseq;
    let checked = class.emit(Insn::CheckMatch);
    let left = b1.emit(Insn::Jump(0));
    let hits = seq![checked.here() as usize];
    let depth = lower::above(c.depth);
    let entry = lower::protected(
        CatchKind::Rescue,
        b0.here(),
        b1.here(),
        left.here(),
        c.depth,
    );
    // How long each is.
    reveal(Code::handle_at);
    reveal(Code::push_retry);
    reveal(Code::pop_retry);
    extent::lemma_kept_len(c, b0);
    extent::lemma_kept_len(b0, b1);
    extent::lemma_kept_len(inner, ended);
    sense::lemma_len_emit(b1, Insn::Jump(0));
    extent::lemma_kept_itself(h);
    extent::lemma_kept_symbol(h, h, "StandardError"@);
    extent::lemma_kept_len(h, h.symbol("StandardError"@));
    sense::lemma_len_emit(
        h.symbol("StandardError"@),
        Insn::GetConst(h.symbol_at("StandardError"@), ConstScope::Top),
    );
    sense::lemma_len_emit(class, Insn::CheckMatch);
    sense::lemma_len_emit(checked, Insn::JumpIf(0));
    sense::lemma_len_emit(asked, Insn::Jump(0));
    sense::lemma_len_patch_here(asked.emit(Insn::Jump(0)), checked.here());
    sense::lemma_fixed_at_depth(asked.emit(Insn::Jump(0)).patch_here(checked.here()), depth);
    sense::lemma_len_emit(start, Insn::Pop);
    sense::lemma_len_emit(ran, Insn::Jump(0));
    sense::lemma_len_patch_here(ran.emit(Insn::Jump(0)), asked.here());
    sense::lemma_fixed_at_depth(ran.emit(Insn::Jump(0)).patch_here(asked.here()), depth);
    sense::lemma_len_emit(end, Insn::Raise);
    lemma_modified_len(end.emit(Insn::Raise), entry, b1.here(), ran.here(), depth, errinfo);
    // What is kept.
    sense::lemma_fixed_kept(c, b0);
    sense::lemma_fixed_kept(b0, b1);
    sense::lemma_fixed_emit(b1, Insn::Jump(0));
    sense::lemma_same_code(left, h);
    lemma_standard_test(h, h.symbol("StandardError"@), class, asked);
    assert(start == asked.emit(Insn::Jump(0)).patch_all(
        hits,
        asked.emit(Insn::Jump(0)).here(),
    ).at_depth(depth)) by {
        reveal(Code::patch_here);
        let jumped = asked.emit(Insn::Jump(0));
        reveal_with_fuel(Code::patch_all, 2);
        assert(hits.skip(1) =~= Seq::empty());
    }
    assert(extent::kept(start, inner) && extent::kept(start.emit(Insn::Pop), inner)
        && extent::kept(ended, ran) && extent::kept(start, ran)) by {
        extent::lemma_kept_itself(start);
        extent::lemma_kept_emit(start, start, Insn::Pop);
        extent::lemma_kept_push_retry(start, start.emit(Insn::Pop), b0.here(), c.depth);
        extent::lemma_kept_itself(start.emit(Insn::Pop));
        extent::lemma_kept_push_retry(
            start.emit(Insn::Pop),
            start.emit(Insn::Pop),
            b0.here(),
            c.depth,
        );
        extent::lemma_kept_itself(ended);
        extent::lemma_kept_pop_retry(ended, ended);
        extent::lemma_kept_trans(start, inner, ended);
        extent::lemma_kept_trans(start, ended, ran);
    }
    let tests = seq![(h, class)];
    let body = lemma_clause_core(h, asked, tests, hits, depth, ran, depth, end);
    lemma_modifier_other(start, inner, ended, ran, end, body);
    // What stands in the code at the end.
    assert forall|at: nat, insn: Insn| #[trigger] sense::fixed(end, at, insn) && at != b1.here()
        && at != ran.here() implies sense::fixed(after, at, insn) by {
        sense::lemma_fixed_over_emit(end, at, insn, Insn::Raise);
        lemma_modified(
            end.emit(Insn::Raise),
            entry,
            b1.here(),
            ran.here(),
            depth,
            errinfo,
            at,
            insn,
        );
    }
    sense::lemma_fixed_emit(end, Insn::Raise);
    lemma_modified(
        end.emit(Insn::Raise),
        entry,
        b1.here(),
        ran.here(),
        depth,
        errinfo,
        end.here(),
        Insn::Raise,
    );
    assert forall|at: nat, insn: Insn| #[trigger] sense::fixed(b1, at, insn) implies sense::fixed(
        after,
        at,
        insn,
    ) by {
        sense::lemma_fixed_inside(b1, at, insn);
        sense::lemma_fixed_over_emit(b1, at, insn, Insn::Jump(0));
        assert(sense::fixed(left, at, insn));
        assert(sense::fixed(h, at, insn));
        assert(sense::fixed(end, at, insn));
    }
    assert(tests[0] == (h, class));
    let at = class.here();
    let by = code::displacement((at + 1) as int, body as int);
    let over = code::displacement((at + 2) as int, end.here() as int);
    assert(sense::fixed(
        end,
        h.here(),
        Insn::GetConst(h.symbol_at("StandardError"@), ConstScope::Top),
    ));
    assert(sense::fixed(end, at, Insn::CheckMatch));
    assert(sense::fixed(end, at + 1, Insn::JumpIf(by)));
    assert(sense::fixed(after, at, Insn::CheckMatch));
    assert(sense::fixed(after, at + 1, Insn::JumpIf(by)));
    assert(sense::fixed(after, at + 2, Insn::Jump(over)));
    assert(sense::fixed(after, body, Insn::Pop));
    sense::lemma_carries_part(iseq, c, b1, after, b0.here());
    assert forall|at: nat, insn: Insn| #[trigger]
        sense::fixed(ended, at, insn) && inner.here() <= at implies sense::fixed(
        after,
        at,
        insn,
    ) by {
        sense::lemma_fixed_inside(ended, at, insn);
        assert(sense::fixed(end, at, insn));
    }
    sense::lemma_carries_part(iseq, c, ended, after, inner.here());
    let parts = ClauseParts { tests, body, statements: (inner, ended), next: end.here() };
    assert forall|mid: HeapModel, now: MachineModel, k: Value, wanted: ClassId| #[trigger]
        sense::comes(s, now, at, s.stack.push(k)) && #[trigger] is_class(
            mid,
            k,
            wanted,
        ) implies sense::leads(
        floats,
        mid,
        now,
        if takes(mid, s.stack.last(), wanted) {
            body
        } else {
            end.here()
        },
        s.stack,
    ) by {
        lemma_test(floats, s, at, body, mid, now, k, wanted);
        if !takes(mid, s.stack.last(), wanted) {
            sense::lemma_then(floats, mid, now, at + 2, s.stack, end.here(), s.stack);
        }
    }
    assert(test_decides(floats, s, parts, 0));
    lemma_raises(floats, s, end.here());
    parts
}

/// The code of what is run instead, at its end.
proof fn lemma_modifier_other(
    start: Code,
    inner: Code,
    ended: Code,
    ran: Code,
    end: Code,
    body: nat,
)
    requires
        sense::sane(start),
        start.here() == body,
        extent::kept(start, inner),
        extent::kept(inner, ended),
        extent::kept(ended, ran),
        extent::kept(start.emit(Insn::Pop), inner),
        ended.here() == ran.here(),
        end.here() == ran.here() + 1,
        end.insns.len() <= i32::MAX,
        forall|at: nat, insn: Insn|
            body <= at && #[trigger] sense::fixed(ran, at, insn) ==> sense::fixed(end, at, insn),
    ensures
        sense::sane(inner),
        body <= inner.here() <= ended.here() < end.here(),
        sense::fixed(end, body, Insn::Pop),
        forall|at: nat, insn: Insn|
            inner.here() <= at && #[trigger] sense::fixed(ended, at, insn) ==> sense::fixed(
                end,
                at,
                insn,
            ),
{
    extent::lemma_kept_len(start, inner);
    extent::lemma_kept_len(inner, ended);
    extent::lemma_kept_len(ended, ran);
    sense::lemma_fixed_kept(start, inner);
    sense::lemma_fixed_kept(inner, ended);
    sense::lemma_fixed_kept(ended, ran);
    sense::lemma_fixed_emit(start, Insn::Pop);
    sense::lemma_fixed_kept(start.emit(Insn::Pop), inner);
    assert(sense::fixed(inner, body, Insn::Pop));
    assert(sense::fixed(ended, body, Insn::Pop));
    assert(sense::fixed(ran, body, Insn::Pop));
    assert forall|at: nat, insn: Insn|
        inner.here() <= at && #[trigger] sense::fixed(ended, at, insn) implies sense::fixed(
        end,
        at,
        insn,
    ) by {
        assert(sense::fixed(ran, at, insn));
    }
}

/// The code behind the raise: the range is protected, and the exits are aimed
/// at what puts the last exception back.
spec fn modified(
    c: Code,
    entry: CatchEntry,
    first: nat,
    second: nat,
    depth: nat,
    errinfo: u16,
) -> Code {
    c.guard(entry).patch_here(first).patch_here(second).at_depth(depth).emit(
        Insn::GetLocal(errinfo, 0),
    ).emit(Insn::SetErrinfo)
}

/// How long it is, and what it protects.
proof fn lemma_modified_len(
    c: Code,
    entry: CatchEntry,
    first: nat,
    second: nat,
    depth: nat,
    errinfo: u16,
)
    ensures
        modified(c, entry, first, second, depth, errinfo).here() == c.here() + 2,
        modified(c, entry, first, second, depth, errinfo).catch_table.contains(entry),
{
    reveal(Code::guard);
    reveal(Code::patch_here);
    reveal(Code::patch);
    reveal(Code::at_depth);
    reveal(Code::emit);
    let table = modified(c, entry, first, second, depth, errinfo).catch_table;
    assert(table == c.catch_table.push(entry));
    assert(table[c.catch_table.len() as int] == entry);
}

/// What stands in it.
proof fn lemma_modified(
    c: Code,
    entry: CatchEntry,
    first: nat,
    second: nat,
    depth: nat,
    errinfo: u16,
    at: nat,
    insn: Insn,
)
    requires
        sense::fixed(c, at, insn),
        at != first,
        at != second,
    ensures
        sense::fixed(modified(c, entry, first, second, depth, errinfo), at, insn),
{
    reveal(Code::guard);
    let held = c.guard(entry);
    sense::lemma_same_code(c, held);
    assert(sense::fixed(held, at, insn));
    sense::lemma_fixed_over_patch_here(held, at, insn, first);
    let once = held.patch_here(first);
    sense::lemma_fixed_over_patch_here(once, at, insn, second);
    let twice = once.patch_here(second);
    sense::lemma_fixed_at_depth(twice, depth);
    let deep = twice.at_depth(depth);
    assert(sense::fixed(deep, at, insn));
    sense::lemma_fixed_over_emit(deep, at, insn, Insn::GetLocal(errinfo, 0));
    sense::lemma_fixed_over_emit(
        deep.emit(Insn::GetLocal(errinfo, 0)),
        at,
        insn,
        Insn::SetErrinfo,
    );
}

} // verus!
