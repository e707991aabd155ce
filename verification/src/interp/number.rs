//! Arithmetic on immediates.

use vstd::arithmetic::div_mod::*;
use vstd::prelude::*;

use crate::bytecode::BinOp;
use crate::double;
use crate::double::Floats;
use crate::interp::error;
use crate::interp::error::Error;
use crate::interp::object;
use crate::interp::object::bool_value;
use crate::value;
use crate::value::{Unpacked, Value};

verus! {

broadcast use Value::law_pack;

/// A numeric operand. A float is the bits of a double.
#[derive(Debug, Clone, Copy, PartialEq, Eq, Structural)]
pub enum Num {
    Int(i64),
    Float(u64),
}

/// The number a value is.
pub open spec fn num_in(v: Value) -> Option<Num> {
    match v@ {
        Unpacked::Fixnum(n) => Some(Num::Int(n)),
        Unpacked::Flonum(bits) => Some(Num::Float(bits)),
        _ => None,
    }
}

/// The number a value is.
pub fn num(value: Value) -> (r: Option<Num>)
    ensures
        r == num_in(value),
{
    match value.unpack() {
        Unpacked::Fixnum(n) => Some(Num::Int(n)),
        Unpacked::Flonum(bits) => Some(Num::Float(bits)),
        _ => None,
    }
}

/// Whether `bits` is the double a number is, or is nearest to.
pub open spec fn is_float_of(n: Num, bits: u64) -> bool {
    match n {
        Num::Int(i) => double::scaled(bits) == nearest(i as int),
        Num::Float(f) => bits == f,
    }
}

/// The double nearest to an integer, in units of the smallest positive one.
pub open spec fn nearest(i: int) -> int {
    if i >= 0 {
        (double::rounded(i as nat) * vstd::arithmetic::power2::pow2(1074)) as int
    } else {
        -(double::rounded((-i) as nat) * vstd::arithmetic::power2::pow2(1074))
    }
}

/// What a number is as a double, in units of the smallest positive one.
pub open spec fn float_value(n: Num) -> int {
    match n {
        Num::Int(i) => nearest(i as int),
        Num::Float(f) => double::scaled(f),
    }
}

/// The double a number is, or is nearest to.
pub fn as_float(n: Num) -> (r: u64)
    ensures
        is_float_of(n, r),
        double::scaled(r) == float_value(n),
{
    match n {
        Num::Int(i) => double::from_int(i),
        Num::Float(f) => f,
    }
}

/// `a / b`, rounded down.
pub open spec fn floor_quotient(a: int, b: int) -> int {
    if b > 0 {
        a / b
    } else {
        (-a) / (-b)
    }
}

/// What [`floor_quotient`] leaves: zero, or of the sign of `b`.
pub open spec fn floor_remainder(a: int, b: int) -> int {
    a - b * floor_quotient(a, b)
}

/// Rounding down the other way round.
proof fn lemma_floor_of_negative(x: int, d: int)
    requires
        x >= 0,
        d > 0,
    ensures
        (-x) / d == if x % d == 0 {
            -(x / d)
        } else {
            -(x / d) - 1
        },
        x == d * (x / d) + x % d,
        0 <= x % d < d,
{
    lemma_fundamental_div_mod(x, d);
    let q = x / d;
    let r = x % d;
    if r == 0 {
        assert(-x == -q * d + 0) by (nonlinear_arith)
            requires
                x == d * q + r,
                r == 0,
        ;
        lemma_fundamental_div_mod_converse(-x, d, -q, 0);
    } else {
        assert(-x == (-q - 1) * d + (d - r)) by (nonlinear_arith)
            requires
                x == d * q + r,
        ;
        lemma_fundamental_div_mod_converse(-x, d, -q - 1, d - r);
    }
}

/// Rounding down leaves nothing, or what is of the divisor's sign and nearer
/// to zero than it.
pub proof fn law_floor_remainder(a: int, b: int)
    requires
        b != 0,
    ensures
        a == b * floor_quotient(a, b) + floor_remainder(a, b),
        b > 0 ==> 0 <= floor_remainder(a, b) < b,
        b < 0 ==> b < floor_remainder(a, b) <= 0,
{
    if b > 0 {
        lemma_fundamental_div_mod(a, b);
    } else {
        lemma_fundamental_div_mod(-a, -b);
        let q = (-a) / (-b);
        let r = (-a) % (-b);
        assert(a == b * q - r) by (nonlinear_arith)
            requires
                -a == (-b) * q + r,
        ;
    }
}

/// `a / b`, rounded down as Ruby rounds, unless it does not fit.
pub fn floor_div(a: i64, b: i64) -> (r: Option<i64>)
    requires
        b != 0,
    ensures
        r == if a == i64::MIN && b == -1 {
            None
        } else {
            Some(floor_quotient(a as int, b as int) as i64)
        },
        !(a == i64::MIN && b == -1) ==> i64::MIN <= floor_quotient(a as int, b as int) <= i64::MAX,
{
    let quotient = match a.checked_div(b) {
        Some(quotient) => quotient,
        None => {
            proof {
                lemma_quotient(a as int, b as int);
            }
            return None;
        },
    };
    let remainder = match a.checked_rem(b) {
        Some(remainder) => remainder,
        None => {
            return None;
        },
    };
    proof {
        lemma_quotient(a as int, b as int);
    }
    if remainder != 0 && ((a < 0) != (b < 0)) {
        quotient.checked_sub(1)
    } else {
        Some(quotient)
    }
}

/// What truncating and rounding down have to do with each other.
proof fn lemma_quotient(a: int, b: int)
    requires
        b != 0,
        i64::MIN <= a <= i64::MAX,
        i64::MIN <= b <= i64::MAX,
    ensures
        a >= 0 && b > 0 ==> floor_quotient(a, b) == a / b && floor_remainder(a, b) == a % b && 0
            <= a / b <= a && 0 <= a % b < b,
        a < 0 && b < 0 ==> floor_quotient(a, b) == (-a) / (-b) && floor_remainder(a, b) == -((-a)
            % (-b)) && 0 <= (-a) / (-b) <= -a && 0 <= (-a) % (-b) < -b && (b < -1 ==> (-a) / (-b)
            < -a),
        a < 0 && b > 0 ==> floor_quotient(a, b) == (if (-a) % b == 0 {
            -((-a) / b)
        } else {
            -((-a) / b) - 1
        }) && 0 <= (-a) / b <= -a && 0 <= (-a) % b < b && floor_remainder(a, b) == (if (-a) % b
            == 0 {
            0
        } else {
            b - (-a) % b
        }) && floor_quotient(a, b) >= a,
        a >= 0 && b < 0 ==> floor_quotient(a, b) == (if a % (-b) == 0 {
            -(a / (-b))
        } else {
            -(a / (-b)) - 1
        }) && 0 <= a / (-b) <= a && 0 <= a % (-b) < -b && floor_remainder(a, b) == (if a % (-b)
            == 0 {
            0
        } else {
            b + a % (-b)
        }) && floor_quotient(a, b) >= -a - 1,
        a == i64::MIN && b == -1 ==> (-a) / (-b) == -a,
{
    let x = if a < 0 {
        -a
    } else {
        a
    };
    let d = if b < 0 {
        -b
    } else {
        b
    };
    lemma_floor_of_negative(x, d);
    let q = x / d;
    let r = x % d;
    assert(0 <= q) by {
        lemma_div_pos_is_pos(x, d);
    }
    assert(q <= x) by (nonlinear_arith)
        requires
            x == d * q + r,
            d >= 1,
            r >= 0,
            q >= 0,
    ;
    if d > 1 && x > 0 {
        assert(q < x) by (nonlinear_arith)
            requires
                x == d * q + r,
                d > 1,
                r >= 0,
                q >= 0,
                x > 0,
        ;
    }
    if d == 1 {
        assert(q == x) by (nonlinear_arith)
            requires
                x == d * q + r,
                d == 1,
                0 <= r < d,
        ;
    }
    let f = floor_quotient(a, b);
    if a >= 0 && b > 0 {
        assert(b * f == d * q);
    } else if a < 0 && b < 0 {
        assert(b * q == -(d * q)) by (nonlinear_arith)
            requires
                b == -d,
        ;
    } else if a < 0 {
        if r == 0 {
            assert(b * f == -(d * q)) by (nonlinear_arith)
                requires
                    f == -q,
                    b == d,
            ;
        } else {
            assert(b * f == -(d * q) - d) by (nonlinear_arith)
                requires
                    f == -q - 1,
                    b == d,
            ;
        }
    } else {
        if r == 0 {
            assert(b * f == d * q) by (nonlinear_arith)
                requires
                    f == -q,
                    b == -d,
            ;
        } else {
            assert(b * f == d * q + d) by (nonlinear_arith)
                requires
                    f == -q - 1,
                    b == -d,
            ;
        }
    }
}

/// What [`floor_div`] leaves.
pub fn floor_mod(a: i64, b: i64) -> (r: Option<i64>)
    requires
        b != 0,
    ensures
        r == if a == i64::MIN && b == -1 {
            None
        } else {
            Some(floor_remainder(a as int, b as int) as i64)
        },
        i64::MIN <= floor_remainder(a as int, b as int) <= i64::MAX,
{
    proof {
        lemma_quotient(a as int, b as int);
        law_floor_remainder(a as int, b as int);
    }
    let remainder = match a.checked_rem(b) {
        Some(remainder) => remainder,
        None => {
            return None;
        },
    };
    if remainder != 0 && ((remainder < 0) != (b < 0)) {
        remainder.checked_add(b)
    } else {
        Some(remainder)
    }
}

/// What an arithmetic operator makes of two integers.
pub open spec fn integer_value(op: BinOp, a: int, b: int) -> int {
    match op {
        BinOp::Add => a + b,
        BinOp::Sub => a - b,
        BinOp::Mul => a * b,
        BinOp::Div => floor_quotient(a, b),
        _ => floor_remainder(a, b),
    }
}

/// Whether an operator compares.
pub open spec fn compares(op: BinOp) -> bool {
    op is Lt || op is Le || op is Gt || op is Ge
}

/// What a comparison of two numbers answers.
pub open spec fn comparison(op: BinOp, a: int, b: int) -> bool {
    match op {
        BinOp::Lt => a < b,
        BinOp::Le => a <= b,
        BinOp::Gt => a > b,
        _ => a >= b,
    }
}

/// What an operator makes of two fixnums: a comparison, a fixnum, a
/// `ZeroDivisionError`, or a refusal where the result is no fixnum.
pub open spec fn integer_outcome(op: BinOp, a: i64, b: i64, r: Result<Value, Error>) -> bool {
    if compares(op) {
        r == Ok::<Value, Error>(object::truth(comparison(op, a as int, b as int)))
    } else if (op is Div || op is Mod) && b == 0 {
        r matches Err(e) && error::raises(e, "ZeroDivisionError"@, "divided by 0"@)
    } else if value::fits_fixnum(integer_value(op, a as int, b as int)) {
        r == Ok::<Value, Error>(
            Value::pack(Unpacked::Fixnum(integer_value(op, a as int, b as int) as i64)),
        )
    } else {
        r matches Err(e) && error::refuses(e, op.text(), "integers that overflow a fixnum"@)
    }
}

/// An operator other than `==` and `!=` on two fixnums.
pub fn integer_op(op: BinOp, a: i64, b: i64) -> (r: Result<Value, Error>)
    requires
        op != BinOp::Eq,
        op != BinOp::Neq,
        value::fits_fixnum(a as int),
        value::fits_fixnum(b as int),
    ensures
        integer_outcome(op, a, b, r),
{
    let result: Option<i64> = match op {
        BinOp::Lt => {
            return Ok(bool_value(a < b));
        },
        BinOp::Le => {
            return Ok(bool_value(a <= b));
        },
        BinOp::Gt => {
            return Ok(bool_value(a > b));
        },
        BinOp::Ge => {
            return Ok(bool_value(a >= b));
        },
        BinOp::Add => a.checked_add(b),
        BinOp::Sub => a.checked_sub(b),
        BinOp::Mul => a.checked_mul(b),
        BinOp::Div => {
            if b == 0 {
                return Err(Error::raise("ZeroDivisionError", "divided by 0"));
            }
            floor_div(a, b)
        },
        BinOp::Mod => {
            if b == 0 {
                return Err(Error::raise("ZeroDivisionError", "divided by 0"));
            }
            floor_mod(a, b)
        },
        BinOp::Eq | BinOp::Neq => None,
    };
    match result {
        Some(n) => match Value::fixnum(n) {
            Some(value) => Ok(value),
            None => Err(Error::refuse(op.name(), "integers that overflow a fixnum")),
        },
        None => Err(Error::refuse(op.name(), "integers that overflow a fixnum")),
    }
}

/// What is made of a double that an arithmetic operator came to: an immediate,
/// or a refusal where it is none.
pub open spec fn float_made(op: BinOp, bits: u64, r: Result<Value, Error>) -> bool {
    if value::is_flonum(bits) {
        r == Ok::<Value, Error>(Value::pack(Unpacked::Flonum(bits)))
    } else {
        r matches Err(e) && error::refuses(e, op.text(), "a result outside flonum range"@)
    }
}

/// What is made of a double that an arithmetic operator came to.
pub fn float_result(op: BinOp, bits: u64) -> (r: Result<Value, Error>)
    ensures
        float_made(op, bits, r),
{
    match Value::flonum(bits) {
        Some(value) => Ok(value),
        None => Err(Error::refuse(op.name(), "a result outside flonum range")),
    }
}

/// Whether a floating-point unit may give `bits` for an arithmetic operator on
/// two doubles.
pub open spec fn computes<F: Floats>(floats: &F, op: BinOp, a: u64, b: u64, bits: u64) -> bool {
    match op {
        BinOp::Add => call_ensures(F::plus, (floats, a, b), bits),
        BinOp::Sub => call_ensures(F::minus, (floats, a, b), bits),
        BinOp::Mul => call_ensures(F::times, (floats, a, b), bits),
        BinOp::Div => call_ensures(F::over, (floats, a, b), bits),
        _ => call_ensures(F::modulo, (floats, a, b), bits),
    }
}

/// What an operator makes of two doubles. A comparison is of the numbers;
/// arithmetic is what the floating-point unit says, where that is an immediate.
pub open spec fn float_outcome<F: Floats>(floats: &F, op: BinOp, a: u64, b: u64, r: Result<Value, Error>) -> bool {
    if compares(op) {
        r == Ok::<Value, Error>(
            object::truth(comparison(op, double::scaled(a), double::scaled(b))),
        )
    } else {
        exists|bits: u64| #[trigger]
            computes(floats, op, a, b, bits) && float_made(op, bits, r)
    }
}

/// An operator other than `==` and `!=` on two finite doubles.
pub fn float_op<F: Floats>(op: BinOp, a: u64, b: u64, floats: &F) -> (r: Result<Value, Error>)
    requires
        op != BinOp::Eq,
        op != BinOp::Neq,
    ensures
        float_outcome(floats, op, a, b, r),
{
    let bits: u64 = match op {
        BinOp::Lt => {
            return Ok(bool_value(double::less(a, b)));
        },
        BinOp::Le => {
            return Ok(bool_value(!double::less(b, a)));
        },
        BinOp::Gt => {
            return Ok(bool_value(double::less(b, a)));
        },
        BinOp::Ge => {
            return Ok(bool_value(!double::less(a, b)));
        },
        BinOp::Add => floats.plus(a, b),
        BinOp::Sub => floats.minus(a, b),
        BinOp::Mul => floats.times(a, b),
        BinOp::Div => floats.over(a, b),
        _ => floats.modulo(a, b),
    };
    assert(computes(floats, op, a, b, bits));
    float_result(op, bits)
}

/// What negating a value comes to.
pub open spec fn negated(v: Value, r: Result<Value, Error>) -> bool {
    let refused = r matches Err(e) && error::refuses(
        e,
        "-@"@,
        "an operand that is not a number"@,
    );
    match num_in(v) {
        Some(Num::Int(i)) => if value::fits_fixnum(-i) {
            r == Ok::<Value, Error>(Value::pack(Unpacked::Fixnum((-i) as i64)))
        } else {
            refused
        },
        Some(Num::Float(f)) => if value::is_flonum(double::flipped(f)) {
            r == Ok::<Value, Error>(Value::pack(Unpacked::Flonum(double::flipped(f))))
        } else {
            refused
        },
        None => refused,
    }
}

/// `-value`. Zero as a float has no negative that is an immediate.
pub fn negate(value: Value) -> (r: Result<Value, Error>)
    ensures
        negated(value, r),
{
    match num(value) {
        Some(Num::Int(i)) => {
            if i == i64::MIN {
                return Err(Error::refuse("-@", "an operand that is not a number"));
            }
            match Value::fixnum(-i) {
                Some(negative) => Ok(negative),
                None => Err(Error::refuse("-@", "an operand that is not a number")),
            }
        },
        Some(Num::Float(f)) => match Value::flonum(double::negated(f)) {
            Some(negative) => Ok(negative),
            None => Err(Error::refuse("-@", "an operand that is not a number")),
        },
        None => Err(Error::refuse("-@", "an operand that is not a number")),
    }
}

} // verus!
