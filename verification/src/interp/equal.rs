//! Equality, and what a value looks like in a report.

use vstd::prelude::*;
use vstd::string::*;

use crate::bytecode::BinOp;
use crate::double;
use crate::double::Floats;
use crate::heap::{HandleScope, HeapModel};
use crate::interp::error;
use crate::interp::error::Error;
use crate::interp::number;
use crate::interp::number::Num;
use crate::interp::object;
use crate::interp::object::bool_value;
use crate::text;
use crate::value::{Unpacked, Value};

verus! {

broadcast use Value::law_pack;

/// How deep arrays inside arrays are followed: no deeper than there are
/// objects, which only an array inside itself goes past.
pub open spec fn nesting(m: HeapModel) -> nat {
    m.objects.dom().len()
}

/// What comparing two values comes to.
pub enum Equality {
    Known(bool),
    /// The left one's `==` is a method that does not exist yet.
    Refused,
    /// Arrays nested deeper than there are objects.
    TooDeep,
}

/// Two Integers compare exactly; a Float on either side has both compared as
/// doubles.
pub open spec fn same_number(a: Num, b: Num) -> bool {
    match (a, b) {
        (Num::Int(x), Num::Int(y)) => x == y,
        _ => number::float_value(a) == number::float_value(b),
    }
}

/// Ruby's `==`: the left value decides. Numbers compare by their value, strings
/// by their bytes, arrays element by element, and every other immediate by
/// identity.
pub open spec fn equality(m: HeapModel, left: Value, right: Value, depth: nat) -> Equality
    decreases depth, 1int, 0int,
{
    if left == right {
        Equality::Known(true)
    } else if number::num_in(left) is Some && number::num_in(right) is Some {
        Equality::Known(same_number(number::num_in(left)->0, number::num_in(right)->0))
    } else if !(left@ is Heap) {
        Equality::Known(false)
    } else if object::string_in(m, left) is Some {
        Equality::Known(object::string_in(m, right) == object::string_in(m, left))
    } else if object::elements_in(m, left) is Some {
        match object::elements_in(m, right) {
            None => Equality::Known(false),
            Some(ys) => {
                let xs = object::elements_in(m, left)->0;
                if xs.len() != ys.len() {
                    Equality::Known(false)
                } else if depth == 0 {
                    Equality::TooDeep
                } else {
                    all_equal(m, xs, ys, (depth - 1) as nat)
                }
            },
        }
    } else {
        Equality::Refused
    }
}

/// Ruby's `==` on two arrays of one length: the first pair that is not equal
/// settles it.
pub open spec fn all_equal(m: HeapModel, xs: Seq<Value>, ys: Seq<Value>, depth: nat) -> Equality
    decreases depth, 2int, xs.len(),
{
    if xs.len() == 0 || ys.len() == 0 {
        Equality::Known(true)
    } else {
        match all_equal(m, xs.drop_last(), ys.drop_last(), depth) {
            Equality::Known(true) => equality(m, xs.last(), ys.last(), depth),
            other => other,
        }
    }
}

/// What an answer says of a comparison.
pub open spec fn answers(e: Equality, r: Result<bool, Error>) -> bool {
    match e {
        Equality::Known(b) => r == Ok::<bool, Error>(b),
        Equality::Refused => r matches Err(e) && error::refuses(
            e,
            "=="@,
            "an object whose class has no methods yet"@,
        ),
        Equality::TooDeep => r matches Err(e) && e is Exhausted,
    }
}

/// What comparing pairs in turn comes to, the last one first: the first that
/// is not equal settles it.
spec fn settled(m: HeapModel, work: Seq<(Value, Value, usize)>) -> Equality
    decreases work.len(),
{
    if work.len() == 0 {
        Equality::Known(true)
    } else {
        let (x, y, depth) = work.last();
        match equality(m, x, y, depth as nat) {
            Equality::Known(true) => settled(m, work.drop_last()),
            other => other,
        }
    }
}

/// How many pairs comparing two values looks at, at most.
spec fn steps(m: HeapModel, x: Value, y: Value, depth: nat) -> nat
    decreases depth, 1int, 0int,
{
    match (object::elements_in(m, x), object::elements_in(m, y)) {
        (Some(xs), Some(ys)) => if depth == 0 {
            1
        } else {
            1 + steps_all(m, xs, ys, (depth - 1) as nat)
        },
        _ => 1,
    }
}

spec fn steps_all(m: HeapModel, xs: Seq<Value>, ys: Seq<Value>, depth: nat) -> nat
    decreases depth, 2int, xs.len(),
{
    if xs.len() == 0 || ys.len() == 0 {
        0
    } else {
        steps_all(m, xs.drop_last(), ys.drop_last(), depth) + steps(m, xs.last(), ys.last(), depth)
    }
}

spec fn steps_left(m: HeapModel, work: Seq<(Value, Value, usize)>) -> nat
    decreases work.len(),
{
    if work.len() == 0 {
        0
    } else {
        let (x, y, depth) = work.last();
        steps_left(m, work.drop_last()) + steps(m, x, y, depth as nat)
    }
}

/// Compare two values, arrays inside arrays no deeper than `depth`. The pairs
/// still to be compared wait in a list, so that nesting takes no stack.
fn equal_within(scope: &HandleScope, left: Value, right: Value, depth: usize) -> (r: Result<
    bool,
    Error,
>)
    requires
        scope.wf(),
        scope@.live(left),
        scope@.live(right),
        object::kernel_in(scope@),
    ensures
        answers(equality(scope@, left, right, depth as nat), r),
{
    let ghost m = scope@;
    let ghost whole = equality(m, left, right, depth as nat);
    let mut work: Vec<(Value, Value, usize)> = Vec::new();
    work.push((left, right, depth));
    proof {
        assert(work@.drop_last() =~= Seq::empty());
        assert(settled(m, work@.drop_last()) == Equality::Known(true));
    }
    while work.len() > 0
        invariant
            scope.wf(),
            m == scope@,
            whole == equality(m, left, right, depth as nat),
            object::kernel_in(m),
            settled(m, work@) == whole,
            forall|k: int|
                0 <= k < work@.len() ==> m.live((#[trigger] work@[k]).0) && m.live(work@[k].1),
        decreases steps_left(m, work@),
    {
        let ghost before = work@;
        let (x, y, deep) = work.pop().unwrap();
        proof {
            assert(before[before.len() - 1] == (x, y, deep));
            assert(work@ =~= before.drop_last());
        }
        if x == y {
            continue;
        }
        if let Some(a) = number::num(x) {
            if let Some(b) = number::num(y) {
                let same = match (a, b) {
                    (Num::Int(i), Num::Int(j)) => i == j,
                    _ => double::same(number::as_float(a), number::as_float(b)),
                };
                if same {
                    continue;
                }
                return Ok(false);
            }
        }
        if x.is_immediate() {
            return Ok(false);
        }
        if let Some(a) = object::string_bytes(scope, x) {
            let same = match object::string_bytes(scope, y) {
                Some(b) => same_bytes(&a, &b),
                None => false,
            };
            if same {
                continue;
            }
            return Ok(false);
        }
        let xs = match object::array_elements(scope, x) {
            Some(xs) => xs,
            None => {
                return Err(Error::refuse("==", "an object whose class has no methods yet"));
            },
        };
        let ys = match object::array_elements(scope, y) {
            Some(ys) => ys,
            None => {
                return Ok(false);
            },
        };
        if xs.len() != ys.len() {
            return Ok(false);
        }
        if deep == 0 {
            return Err(Error::exhausted("arrays nested this deep"));
        }
        let ghost rest = work@;
        let mut k: usize = xs.len();
        proof {
            assert(xs@.take(k as int) =~= xs@);
            assert(ys@.take(k as int) =~= ys@);
        }
        while k > 0
            invariant
                k <= xs@.len(),
                xs@.len() == ys@.len(),
                deep > 0,
                (match all_equal(m, xs@.take(k as int), ys@.take(k as int), (deep - 1) as nat) {
                    Equality::Known(true) => settled(m, work@),
                    other => other,
                }) == whole,
                steps_left(m, work@) + steps_all(
                    m,
                    xs@.take(k as int),
                    ys@.take(k as int),
                    (deep - 1) as nat,
                ) < steps_left(m, before),
                forall|j: int| 0 <= j < xs@.len() ==> m.live(#[trigger] xs@[j]),
                forall|j: int| 0 <= j < ys@.len() ==> m.live(#[trigger] ys@[j]),
                forall|j: int|
                    0 <= j < work@.len() ==> m.live((#[trigger] work@[j]).0) && m.live(
                        work@[j].1,
                    ),
            decreases k,
        {
            let ghost held = work@;
            let ghost a = xs@.take(k as int);
            let ghost b = ys@.take(k as int);
            k -= 1;
            work.push((xs[k], ys[k], deep - 1));
            proof {
                assert(work@.drop_last() =~= held);
                assert(a.drop_last() =~= xs@.take(k as int));
                assert(b.drop_last() =~= ys@.take(k as int));
                assert(m.live(xs@[k as int]) && m.live(ys@[k as int]));
            }
        }
    }
    Ok(true)
}

fn same_bytes(a: &Vec<u8>, b: &Vec<u8>) -> (r: bool)
    ensures
        r == (a@ == b@),
{
    if a.len() != b.len() {
        return false;
    }
    let mut i: usize = 0;
    while i < a.len()
        invariant
            i <= a.len(),
            a@.len() == b@.len(),
            forall|k: int| 0 <= k < i ==> a@[k] == b@[k],
        decreases a.len() - i,
    {
        if a[i] != b[i] {
            return false;
        }
        i += 1;
    }
    assert(a@ =~= b@);
    true
}

/// Ruby's `==`.
pub fn ruby_eq(scope: &HandleScope, left: Value, right: Value) -> (r: Result<bool, Error>)
    requires
        scope.wf(),
        scope@.live(left),
        scope@.live(right),
        object::kernel_in(scope@),
    ensures
        answers(equality(scope@, left, right, nesting(scope@)), r),
{
    equal_within(scope, left, right, scope.object_count())
}

/// Whether each value of a path is an element of the array before it.
pub open spec fn path_inward(m: HeapModel, path: Seq<Value>) -> bool {
    forall|i: int|
        0 <= i < path.len() - 1 ==> {
            &&& object::elements_in(m, #[trigger] path[i]) is Some
            &&& (object::elements_in(m, path[i])->0).contains(path[i + 1])
        }
}

/// Arrays that are too deep have a path of that depth in them.
proof fn lemma_deep_path(m: HeapModel, left: Value, right: Value, depth: nat) -> (path: Seq<Value>)
    requires
        equality(m, left, right, depth) is TooDeep,
    ensures
        path.len() == depth + 1,
        path[0] == left,
        path_inward(m, path),
        object::elements_in(m, path.last()) is Some,
    decreases depth, 1int, 0int,
{
    if depth == 0 {
        seq![left]
    } else {
        let xs = object::elements_in(m, left)->0;
        let ys = object::elements_in(m, right)->0;
        let inner = lemma_deep_element(m, xs, ys, (depth - 1) as nat);
        let path = seq![left] + inner;
        assert forall|i: int| 0 <= i < path.len() - 1 implies {
            &&& object::elements_in(m, #[trigger] path[i]) is Some
            &&& (object::elements_in(m, path[i])->0).contains(path[i + 1])
        } by {
            if i > 0 {
                assert(path[i] == inner[i - 1]);
                assert(path[i + 1] == inner[i]);
            } else {
                assert(path[1] == inner[0]);
            }
        }
        assert(path.last() == inner.last());
        path
    }
}

/// The same of the elements of an array.
proof fn lemma_deep_element(m: HeapModel, xs: Seq<Value>, ys: Seq<Value>, depth: nat) -> (path: Seq<
    Value,
>)
    requires
        xs.len() == ys.len(),
        all_equal(m, xs, ys, depth) is TooDeep,
    ensures
        path.len() == depth + 1,
        xs.contains(path[0]),
        path_inward(m, path),
        object::elements_in(m, path.last()) is Some,
    decreases depth, 2int, xs.len(),
{
    if all_equal(m, xs.drop_last(), ys.drop_last(), depth) is TooDeep {
        let path = lemma_deep_element(m, xs.drop_last(), ys.drop_last(), depth);
        let k = xs.drop_last().index_of(path[0]);
        assert(xs[k] == path[0]);
        path
    } else {
        let path = lemma_deep_path(m, xs.last(), ys.last(), depth);
        assert(xs[xs.len() - 1] == path[0]);
        path
    }
}

/// Comparing is cut short only where an array is inside itself.
pub proof fn law_only_an_array_inside_itself_is_too_deep(m: HeapModel, left: Value, right: Value)
    requires
        m.objects.dom().finite(),
        equality(m, left, right, nesting(m)) is TooDeep,
    ensures
        exists|path: Seq<Value>, i: int, j: int|
            {
                &&& #[trigger] path_inward(m, path)
                &&& 0 <= i < j < path.len()
                &&& path[0] == left
                &&& (#[trigger] path[i])@ == (#[trigger] path[j])@
            },
{
    let path = lemma_deep_path(m, left, right, nesting(m));
    let places = Seq::new(path.len(), |i: int| path[i]@->Heap_0);
    assert forall|i: int| 0 <= i < path.len() implies path[i]@ is Heap
        && #[trigger] m.objects.contains_key(path[i]@->Heap_0) by {
        if i < path.len() - 1 {
            assert(object::elements_in(m, path[i]) is Some);
        } else {
            assert(path[i] == path.last());
        }
    }
    if places.no_duplicates() {
        places.unique_seq_to_set();
        assert(places.to_set().subset_of(m.objects.dom())) by {
            assert forall|a: u64| places.to_set().contains(a) implies m.objects.dom().contains(
                a,
            ) by {
                let k = places.index_of(a);
                assert(places[k] == a);
                assert(m.objects.contains_key(path[k]@->Heap_0));
            }
        }
        vstd::set_lib::lemma_len_subset(places.to_set(), m.objects.dom());
        assert(false);
    }
    let (i, j) = choose|i: int, j: int|
        0 <= i < j < places.len() && places[i] == places[j];
    assert(m.objects.contains_key(path[i]@->Heap_0));
    assert(m.objects.contains_key(path[j]@->Heap_0));
    assert(path[i]@ == path[j]@);
}

/// Comparing a value with itself is never in doubt.
pub proof fn law_equality_is_reflexive(m: HeapModel, v: Value, depth: nat)
    ensures
        equality(m, v, v, depth) == Equality::Known(true),
{
}

/// Where comparing two values answers both ways round, it answers the same.
pub proof fn law_equality_is_symmetric(m: HeapModel, a: Value, b: Value, depth: nat)
    ensures
        equality(m, a, b, depth) matches Equality::Known(x) ==> (equality(m, b, a, depth)
            matches Equality::Known(y) ==> x == y),
    decreases depth, 1int, 0int,
{
    if let Some(xs) = object::elements_in(m, a) {
        if let Some(ys) = object::elements_in(m, b) {
            if xs.len() == ys.len() && depth > 0 {
                lemma_all_symmetric(m, xs, ys, (depth - 1) as nat);
            }
        }
    }
}

/// The same of two arrays of one length.
proof fn lemma_all_symmetric(m: HeapModel, xs: Seq<Value>, ys: Seq<Value>, depth: nat)
    requires
        xs.len() == ys.len(),
    ensures
        all_equal(m, xs, ys, depth) matches Equality::Known(x) ==> (all_equal(m, ys, xs, depth)
            matches Equality::Known(y) ==> x == y),
    decreases depth, 2int, xs.len(),
{
    if xs.len() > 0 {
        lemma_all_symmetric(m, xs.drop_last(), ys.drop_last(), depth);
        law_equality_is_symmetric(m, xs.last(), ys.last(), depth);
    }
}

/// `===` of a `when`: `==` where the condition is a value, refused where it
/// may mean something else.
pub fn case_eq(scope: &HandleScope, condition: Value, subject: Value) -> (r: Result<bool, Error>)
    requires
        scope.wf(),
        scope@.live(condition),
        scope@.live(subject),
        object::kernel_in(scope@),
    ensures
        if condition@ is Heap && object::string_in(scope@, condition) is None
            && object::elements_in(scope@, condition) is None {
            r matches Err(e) && error::refuses(
                e,
                "==="@,
                "a `when` condition that is not a value"@,
            )
        } else {
            answers(equality(scope@, condition, subject, nesting(scope@)), r)
        },
{
    if !condition.is_immediate() && object::string_bytes(scope, condition).is_none()
        && object::array_elements(scope, condition).is_none() {
        return Err(Error::refuse("===", "a `when` condition that is not a value"));
    }
    ruby_eq(scope, condition, subject)
}

// ---------------------------------------------------------------------------
// Operators
// ---------------------------------------------------------------------------

/// What an operator with an instruction of its own makes of two values.
pub open spec fn binop_outcome<F: Floats>(
    floats: &F,
    m: HeapModel,
    op: BinOp,
    left: Value,
    right: Value,
    r: Result<Value, Error>,
) -> bool {
    if op is Eq || op is Neq {
        let wanted = op is Eq;
        match equality(m, left, right, nesting(m)) {
            Equality::Known(b) => r == Ok::<Value, Error>(object::truth(b == wanted)),
            Equality::Refused => r matches Err(e) && error::refuses(
                e,
                "=="@,
                "an object whose class has no methods yet"@,
            ),
            Equality::TooDeep => r matches Err(e) && e is Exhausted,
        }
    } else {
        match (number::num_in(left), number::num_in(right)) {
            (Some(Num::Int(a)), Some(Num::Int(b))) => number::integer_outcome(op, a, b, r),
            (Some(a), Some(b)) => exists|x: u64, y: u64|
                {
                    &&& number::is_float_of(a, x)
                    &&& number::is_float_of(b, y)
                    &&& #[trigger] number::float_outcome(floats, op, x, y, r)
                },
            _ => r matches Err(e) && error::refuses(
                e,
                op.text(),
                "operands that are not both numbers"@,
            ),
        }
    }
}

/// An operator with an instruction of its own.
pub fn binop<F: Floats>(
    scope: &HandleScope,
    op: BinOp,
    left: Value,
    right: Value,
    floats: &F,
) -> (r: Result<Value, Error>)
    requires
        scope.wf(),
        scope@.live(left),
        scope@.live(right),
        object::kernel_in(scope@),
    ensures
        binop_outcome(floats, scope@, op, left, right, r),
        r matches Ok(v) ==> !(v@ is Heap),
{
    if op == BinOp::Eq || op == BinOp::Neq {
        return match ruby_eq(scope, left, right) {
            Ok(b) => Ok(bool_value(b == (op == BinOp::Eq))),
            Err(e) => Err(e),
        };
    }
    match num_pair(left, right) {
        Some((Num::Int(a), Num::Int(b))) => {
            proof {
                left.law_fixnum_identity(a);
                right.law_fixnum_identity(b);
            }
            number::integer_op(op, a, b)
        },
        Some((a, b)) => {
            let x: u64 = number::as_float(a);
            let y: u64 = number::as_float(b);
            number::float_op(op, x, y, floats)
        },
        None => Err(Error::refuse(op.name(), "operands that are not both numbers")),
    }
}

fn num_pair(left: Value, right: Value) -> (r: Option<(Num, Num)>)
    ensures
        r == match (number::num_in(left), number::num_in(right)) {
            (Some(a), Some(b)) => Some((a, b)),
            _ => None,
        },
{
    match number::num(left) {
        Some(a) => match number::num(right) {
            Some(b) => Some((a, b)),
            None => None,
        },
        None => None,
    }
}

// ---------------------------------------------------------------------------
// Inspection
// ---------------------------------------------------------------------------

/// Texts with commas between them.
pub open spec fn commas(parts: Seq<Seq<char>>) -> Seq<char>
    decreases parts.len(),
{
    if parts.len() == 0 {
        Seq::empty()
    } else if parts.len() == 1 {
        parts[0]
    } else {
        commas(parts.drop_last()) + ", "@ + parts.last()
    }
}

/// Whether a text is what a value looks like. A float is written as `floats`
/// says.
pub open spec fn looks<F: Floats>(floats: &F, m: HeapModel, v: Value, depth: nat, out: Seq<char>) -> bool
    decreases depth, 1int,
{
    match v@ {
        Unpacked::Nil => out == "nil"@,
        Unpacked::True => out == "true"@,
        Unpacked::False => out == "false"@,
        Unpacked::Undef => out == "undefined"@,
        Unpacked::Fixnum(n) => out == text::decimal(n as int),
        Unpacked::Flonum(bits) => exists|said: String|
            out == said@ && #[trigger] call_ensures(F::text, (floats, bits), said),
        Unpacked::Symbol(id) => out == ":"@ + object::symbol_text(m, id),
        Unpacked::Heap(_) => match object::string_in(m, v) {
            Some(bytes) => out == text::quoted_text(text::lossy_text(bytes)),
            None => match object::elements_in(m, v) {
                Some(xs) => if depth == 0 {
                    out == "[...]"@
                } else {
                    exists|parts: Seq<Seq<char>>|
                        {
                            &&& #[trigger] commas(parts) == commas(parts)
                            &&& parts.len() == xs.len()
                            &&& all_look(floats, m, xs, (depth - 1) as nat, parts)
                            &&& out == "["@ + commas(parts) + "]"@
                        }
                },
                None => match object::class_id_of_value(m, v) {
                    Some(id) => match m.classes.table()[id.0 as int].name {
                        Some(name) => out == name,
                        None => out == "#<Class:0x"@ + text::digits(id.0 as nat, 16) + ">"@,
                    },
                    None => out == "#<object>"@,
                },
            },
        },
    }
}

/// Whether texts are what values look like, each for each.
pub open spec fn all_look<F: Floats>(
    floats: &F,
    m: HeapModel,
    xs: Seq<Value>,
    depth: nat,
    parts: Seq<Seq<char>>,
) -> bool
    decreases depth, 2int,
{
    &&& parts.len() == xs.len()
    &&& forall|i: int| 0 <= i < xs.len() ==> looks(floats, m, xs[i], depth, #[trigger] parts[i])
}

/// What is still to be written: a value, with arrays in it no deeper than so,
/// or a text.
enum Piece {
    Item(Value, usize),
    Text(&'static str),
}

/// Whether a text is what a piece is written as.
spec fn piece_looks<F: Floats>(floats: &F, m: HeapModel, piece: Piece, out: Seq<char>) -> bool {
    match piece {
        Piece::Item(v, depth) => looks(floats, m, v, depth as nat, out),
        Piece::Text(text) => out == text@,
    }
}

/// Texts one behind the other, the last one first.
spec fn joined(parts: Seq<Seq<char>>) -> Seq<char>
    decreases parts.len(),
{
    if parts.len() == 0 {
        Seq::empty()
    } else {
        parts.last() + joined(parts.drop_last())
    }
}

/// Whether texts are what pieces are written as, each for each.
spec fn written_as<F: Floats>(
    floats: &F,
    m: HeapModel,
    work: Seq<Piece>,
    parts: Seq<Seq<char>>,
) -> bool {
    &&& parts.len() == work.len()
    &&& forall|i: int|
        0 <= i < work.len() ==> piece_looks(floats, m, work[i], #[trigger] parts[i])
}

/// Whether a text is what pieces are written as, the last one first.
spec fn written<F: Floats>(floats: &F, m: HeapModel, work: Seq<Piece>, out: Seq<char>) -> bool {
    exists|parts: Seq<Seq<char>>| #[trigger]
        written_as(floats, m, work, parts) && out == joined(parts)
}

/// What pieces are written as is what the last one is, and then the others.
proof fn lemma_split<F: Floats>(floats: &F, m: HeapModel, work: Seq<Piece>, out: Seq<char>) -> (r: (
    Seq<char>,
    Seq<char>,
))
    requires
        work.len() > 0,
        written(floats, m, work, out),
    ensures
        piece_looks(floats, m, work.last(), r.0),
        written(floats, m, work.drop_last(), r.1),
        out == r.0 + r.1,
{
    let parts = choose|parts: Seq<Seq<char>>| #[trigger]
        written_as(floats, m, work, parts) && out == joined(parts);
    assert(piece_looks(floats, m, work[work.len() - 1], parts[work.len() - 1]));
    let fewer = parts.drop_last();
    assert(written_as(floats, m, work.drop_last(), fewer)) by {
        assert forall|i: int| 0 <= i < fewer.len() implies piece_looks(
            floats,
            m,
            work.drop_last()[i],
            #[trigger] fewer[i],
        ) by {
            assert(fewer[i] == parts[i]);
        }
    }
    (parts.last(), joined(fewer))
}

/// Nothing is written of no pieces.
proof fn lemma_nothing_left<F: Floats>(floats: &F, m: HeapModel, out: Seq<char>)
    requires
        written(floats, m, Seq::<Piece>::empty(), out),
    ensures
        out == Seq::<char>::empty(),
{
}

/// A piece written, and then the others, is what they all are written as.
proof fn lemma_join<F: Floats>(
    floats: &F,
    m: HeapModel,
    work: Seq<Piece>,
    head: Seq<char>,
    rest: Seq<char>,
)
    requires
        work.len() > 0,
        piece_looks(floats, m, work.last(), head),
        written(floats, m, work.drop_last(), rest),
    ensures
        written(floats, m, work, head + rest),
{
    let fewer = choose|parts: Seq<Seq<char>>| #[trigger]
        written_as(floats, m, work.drop_last(), parts) && rest == joined(parts);
    let parts = fewer.push(head);
    assert(parts.drop_last() =~= fewer);
    assert(written_as(floats, m, work, parts)) by {
        assert forall|i: int| 0 <= i < work.len() implies piece_looks(
            floats,
            m,
            work[i],
            #[trigger] parts[i],
        ) by {
            if i < fewer.len() {
                assert(parts[i] == fewer[i]);
                assert(work.drop_last()[i] == work[i]);
            }
        }
    }
}

/// How many pieces writing a value takes, at most.
spec fn pieces(m: HeapModel, v: Value, depth: nat) -> nat
    decreases depth, 1int, 0int,
{
    match object::elements_in(m, v) {
        Some(xs) => if depth == 0 {
            2
        } else {
            2 + pieces_all(m, xs, (depth - 1) as nat)
        },
        None => 2,
    }
}

spec fn pieces_all(m: HeapModel, xs: Seq<Value>, depth: nat) -> nat
    decreases depth, 2int, xs.len(),
{
    if xs.len() == 0 {
        0
    } else {
        pieces_all(m, xs.drop_last(), depth) + pieces(m, xs.last(), depth) + 1
    }
}

spec fn pieces_left(m: HeapModel, work: Seq<Piece>) -> nat
    decreases work.len(),
{
    if work.len() == 0 {
        0
    } else {
        pieces_left(m, work.drop_last()) + match work.last() {
            Piece::Item(v, depth) => pieces(m, v, depth as nat),
            Piece::Text(_) => 1,
        }
    }
}

/// What goes in front of the element at `k`.
spec fn gap(k: int, n: int) -> Seq<char> {
    if 0 < k < n {
        ", "@
    } else {
        Seq::empty()
    }
}

/// Whether a text that is written so far, with what is left, is what a value
/// looks like.
spec fn on_course<F: Floats>(
    floats: &F,
    m: HeapModel,
    v: Value,
    depth: nat,
    out: Seq<char>,
    work: Seq<Piece>,
) -> bool {
    forall|tail: Seq<char>| #[trigger]
        written(floats, m, work, tail) ==> looks(floats, m, v, depth, out + tail)
}

/// A piece written, and on with what is left.
proof fn lemma_on_course<F: Floats>(
    floats: &F,
    m: HeapModel,
    v: Value,
    depth: nat,
    out: Seq<char>,
    work: Seq<Piece>,
    head: Seq<char>,
)
    requires
        work.len() > 0,
        on_course(floats, m, v, depth, out, work),
        piece_looks(floats, m, work.last(), head),
    ensures
        on_course(floats, m, v, depth, out + head, work.drop_last()),
{
    assert forall|tail: Seq<char>| #[trigger] written(floats, m, work.drop_last(), tail) implies looks(
        floats,
        m,
        v,
        depth,
        out + head + tail,
    ) by {
        lemma_join(floats, m, work, head, tail);
        assert(out + (head + tail) =~= out + head + tail);
    }
}

/// The same while the elements of an array are put on the list: whatever those
/// before `k` look like, with those from `k` on it comes out right.
spec fn on_course_within<F: Floats>(
    floats: &F,
    m: HeapModel,
    v: Value,
    depth: nat,
    out: Seq<char>,
    work: Seq<Piece>,
    xs: Seq<Value>,
    deep: nat,
    k: int,
) -> bool {
    forall|parts: Seq<Seq<char>>, tail: Seq<char>|
        #![trigger commas(parts), written(floats, m, work, tail)]
        all_look(floats, m, xs.take(k), deep, parts) && written(floats, m, work, tail) ==> looks(
            floats,
            m,
            v,
            depth,
            out + commas(parts) + gap(k, xs.len() as int) + tail,
        )
}

/// An array begun: its bracket written, and the closing one on the list.
proof fn lemma_array_begun<F: Floats>(
    floats: &F,
    m: HeapModel,
    v: Value,
    depth: nat,
    out: Seq<char>,
    work: Seq<Piece>,
    xs: Seq<Value>,
)
    requires
        work.len() > 0,
        on_course(floats, m, v, depth, out, work),
        work.last() matches Piece::Item(x, d) && d > 0 && x@ is Heap && object::string_in(m, x)
            is None && object::elements_in(m, x) == Some(xs),
    ensures
        on_course_within(
            floats,
            m,
            v,
            depth,
            out + "["@,
            work.drop_last().push(Piece::Text("]")),
            xs,
            (work.last()->Item_1 - 1) as nat,
            xs.len() as int,
        ),
{
    let next = work.drop_last().push(Piece::Text("]"));
    let deep = (work.last()->Item_1 - 1) as nat;
    assert(next.drop_last() =~= work.drop_last());
    assert(xs.take(xs.len() as int) =~= xs);
    assert forall|parts: Seq<Seq<char>>, tail: Seq<char>|
        all_look(floats, m, xs.take(xs.len() as int), deep, parts) && #[trigger] written(
            floats,
            m,
            next,
            tail,
        ) implies looks(
        floats,
        m,
        v,
        depth,
        out + "["@ + #[trigger] commas(parts) + gap(xs.len() as int, xs.len() as int) + tail,
    ) by {
        let (close, rest) = lemma_split(floats, m, next, tail);
        let head = "["@ + commas(parts) + "]"@;
        assert(piece_looks(floats, m, work.last(), head));
        lemma_join(floats, m, work, head, rest);
        assert(out + (head + rest) =~= out + "["@ + commas(parts) + gap(
            xs.len() as int,
            xs.len() as int,
        ) + tail);
    }
}

/// One more element put on the list, behind a comma where others follow.
proof fn lemma_element_put<F: Floats>(
    floats: &F,
    m: HeapModel,
    v: Value,
    depth: nat,
    out: Seq<char>,
    work: Seq<Piece>,
    next: Seq<Piece>,
    xs: Seq<Value>,
    deep: usize,
    k: int,
)
    requires
        0 < k <= xs.len(),
        on_course_within(floats, m, v, depth, out, work, xs, deep as nat, k),
        next == if k < xs.len() {
            work.push(Piece::Text(", ")).push(Piece::Item(xs[k - 1], deep))
        } else {
            work.push(Piece::Item(xs[k - 1], deep))
        },
    ensures
        on_course_within(floats, m, v, depth, out, next, xs, deep as nat, k - 1),
{
    let n = xs.len() as int;
    assert forall|parts: Seq<Seq<char>>, tail: Seq<char>|
        all_look(floats, m, xs.take(k - 1), deep as nat, parts) && #[trigger] written(
            floats,
            m,
            next,
            tail,
        ) implies looks(
        floats,
        m,
        v,
        depth,
        out + #[trigger] commas(parts) + gap(k - 1, n) + tail,
    ) by {
        let (head, mid) = lemma_split(floats, m, next, tail);
        let rest = if k < n {
            let comma = work.push(Piece::Text(", "));
            assert(next.drop_last() =~= comma);
            assert(comma.drop_last() =~= work);
            let (gone, rest) = lemma_split(floats, m, comma, mid);
            rest
        } else {
            assert(next.drop_last() =~= work);
            mid
        };
        assert(written(floats, m, work, rest));
        assert(mid =~= gap(k, n) + rest);
        let more = parts.push(head);
        assert(more.drop_last() =~= parts);
        assert(all_look(floats, m, xs.take(k), deep as nat, more)) by {
            assert forall|i: int| 0 <= i < k implies looks(
                floats,
                m,
                xs.take(k)[i],
                deep as nat,
                #[trigger] more[i],
            ) by {
                if i < k - 1 {
                    assert(more[i] == parts[i]);
                    assert(xs.take(k - 1)[i] == xs[i]);
                }
            }
        }
        assert(commas(more) =~= commas(parts) + gap(k - 1, n) + head);
        assert(out + commas(more) + gap(k, n) + rest =~= out + commas(parts) + gap(k - 1, n) + tail);
    }
}

/// What a value other than an array looks like; `None` for an array.
fn inspect_plain<F: Floats>(scope: &HandleScope, value: Value, floats: &F) -> (r: Option<String>)
    requires
        scope.wf(),
        scope@.live(value),
        object::kernel_in(scope@),
    ensures
        match r {
            Some(text) => forall|depth: nat| #[trigger] looks(floats, scope@, value, depth, text@),
            None => value@ is Heap && object::string_in(scope@, value) is None
                && object::elements_in(scope@, value) is Some,
        },
{
    let text = match value.unpack() {
        Unpacked::Nil => "nil".to_owned(),
        Unpacked::True => "true".to_owned(),
        Unpacked::False => "false".to_owned(),
        Unpacked::Undef => "undefined".to_owned(),
        Unpacked::Fixnum(n) => text::integer(n),
        Unpacked::Flonum(bits) => floats.text(bits),
        Unpacked::Symbol(id) => {
            let name = object::symbol_name(scope, id);
            text::join(":", name.as_str())
        },
        Unpacked::Heap(_) => {
            if let Some(bytes) = object::string_bytes(scope, value) {
                let held = text::lossy(bytes.as_slice());
                text::quoted(held.as_str())
            } else if object::array_elements(scope, value).is_some() {
                return None;
            } else {
                match object::class_id_of(scope, value) {
                    Some(id) => match object::entry_name(scope, id) {
                        Some(name) => name,
                        None => {
                            let number = text::number(id.0 as u64, 16);
                            text::join3("#<Class:0x", number.as_str(), ">")
                        },
                    },
                    None => "#<object>".to_owned(),
                }
            }
        },
    };
    Some(text)
}

/// What a value looks like, arrays inside arrays no deeper than `depth`. What
/// is still to be written waits in a list, so that nesting takes no stack.
fn inspect_within<F: Floats>(scope: &HandleScope, value: Value, depth: usize, floats: &F) -> (r:
    String)
    requires
        scope.wf(),
        scope@.live(value),
        object::kernel_in(scope@),
    ensures
        looks(floats, scope@, value, depth as nat, r@),
{
    let ghost m = scope@;
    let mut out: String = String::new();
    let mut work: Vec<Piece> = Vec::new();
    work.push(Piece::Item(value, depth));
    proof {
        assert(work@.drop_last() =~= Seq::empty());
        assert forall|tail: Seq<char>| #[trigger] written(floats, m, work@, tail) implies looks(
            floats,
            m,
            value,
            depth as nat,
            out@ + tail,
        ) by {
            let (head, rest) = lemma_split(floats, m, work@, tail);
            lemma_nothing_left(floats, m, rest);
            assert(out@ + tail =~= head);
        }
    }
    while work.len() > 0
        invariant
            scope.wf(),
            m == scope@,
            object::kernel_in(m),
            on_course(floats, m, value, depth as nat, out@, work@),
            forall|k: int|
                0 <= k < work@.len() ==> ((#[trigger] work@[k]) matches Piece::Item(v, _)
                    ==> m.live(v)),
        decreases pieces_left(m, work@),
    {
        let ghost before = work@;
        let ghost said = out@;
        let piece = work.pop().unwrap();
        proof {
            assert(before[before.len() - 1] == piece);
            assert(work@ =~= before.drop_last());
        }
        let (item, deep) = match piece {
            Piece::Text(text) => {
                out.append(text);
                proof {
                    lemma_on_course(floats, m, value, depth as nat, said, before, text@);
                }
                continue;
            },
            Piece::Item(item, deep) => (item, deep),
        };
        if let Some(plain) = inspect_plain(scope, item, floats) {
            out.append(plain.as_str());
            proof {
                assert(looks(floats, m, item, deep as nat, plain@));
                lemma_on_course(floats, m, value, depth as nat, said, before, plain@);
            }
            continue;
        }
        if deep == 0 {
            out.append("[...]");
            proof {
                lemma_on_course(floats, m, value, depth as nat, said, before, "[...]"@);
            }
            continue;
        }
        let xs = match object::array_elements(scope, item) {
            Some(xs) => xs,
            None => Vec::new(),
        };
        out.append("[");
        work.push(Piece::Text("]"));
        let mut k: usize = xs.len();
        proof {
            lemma_array_begun(floats, m, value, depth as nat, said, before, xs@);
            assert(xs@.take(k as int) =~= xs@);
            assert(work@.drop_last() =~= before.drop_last());
        }
        while k > 0
            invariant
                k <= xs@.len(),
                deep > 0,
                on_course_within(
                    floats,
                    m,
                    value,
                    depth as nat,
                    out@,
                    work@,
                    xs@,
                    (deep - 1) as nat,
                    k as int,
                ),
                pieces_left(m, work@) + pieces_all(m, xs@.take(k as int), (deep - 1) as nat)
                    < pieces_left(m, before),
                forall|j: int| 0 <= j < xs@.len() ==> m.live(#[trigger] xs@[j]),
                forall|j: int|
                    0 <= j < work@.len() ==> ((#[trigger] work@[j]) matches Piece::Item(v, _)
                        ==> m.live(v)),
            decreases k,
        {
            let ghost held = work@;
            let ghost a = xs@.take(k as int);
            if k < xs.len() {
                work.push(Piece::Text(", "));
                assert(work@.drop_last() =~= held);
            }
            let ghost mid = work@;
            work.push(Piece::Item(xs[k - 1], deep - 1));
            proof {
                assert(work@.drop_last() =~= mid);
                assert(a.drop_last() =~= xs@.take(k - 1));
                assert(a.last() == xs@[k - 1]);
                assert(pieces_left(m, mid) <= pieces_left(m, held) + 1);
                assert(pieces_left(m, work@) == pieces_left(m, mid) + pieces(
                    m,
                    xs@[k - 1],
                    (deep - 1) as nat,
                ));
                assert(m.live(xs@[k - 1]));
                lemma_element_put(
                    floats,
                    m,
                    value,
                    depth as nat,
                    out@,
                    held,
                    work@,
                    xs@,
                    (deep - 1) as usize,
                    k as int,
                );
            }
            k -= 1;
        }
        proof {
            let none = Seq::<Seq<char>>::empty();
            assert(all_look(floats, m, xs@.take(0), (deep - 1) as nat, none));
            assert forall|tail: Seq<char>| #[trigger] written(floats, m, work@, tail) implies looks(
                floats,
                m,
                value,
                depth as nat,
                out@ + tail,
            ) by {
                assert(out@ + commas(none) + gap(0, xs@.len() as int) + tail =~= out@ + tail);
            }
        }
    }
    proof {
        assert(written_as(floats, m, work@, Seq::<Seq<char>>::empty()));
        assert(joined(Seq::<Seq<char>>::empty()) =~= Seq::<char>::empty());
        assert(written(floats, m, work@, Seq::<char>::empty()));
        assert(out@ + Seq::<char>::empty() =~= out@);
    }
    out
}

/// What a value looks like in a report.
pub fn inspect<F: Floats>(scope: &HandleScope, value: Value, floats: &F) -> (r: String)
    requires
        scope.wf(),
        scope@.live(value),
        object::kernel_in(scope@),
    ensures
        looks(floats, scope@, value, nesting(scope@), r@),
{
    inspect_within(scope, value, scope.object_count(), floats)
}

/// Whether a text names a value's class, or shows the value where its class
/// has no name.
pub open spec fn names_class<F: Floats>(floats: &F, m: HeapModel, v: Value, out: Seq<char>) -> bool {
    match object::class_name_in(m, v) {
        Some(name) => out == name,
        None => looks(floats, m, v, nesting(m), out),
    }
}

/// The name of a value's class, for a message that has to name a type.
pub fn class_name<F: Floats>(scope: &HandleScope, value: Value, floats: &F) -> (r: String)
    requires
        scope.wf(),
        scope@.live(value),
        object::kernel_in(scope@),
    ensures
        names_class(floats, scope@, value, r@),
{
    match object::class_of(scope, value) {
        Some(id) => match object::entry_name(scope, id) {
            Some(name) => name,
            None => inspect(scope, value, floats),
        },
        None => inspect(scope, value, floats),
    }
}

} // verus!
