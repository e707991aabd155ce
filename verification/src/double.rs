//! Double-precision numbers as bit patterns.
//!
//! What a number is, which of two is larger and what the nearest one to an
//! integer is are questions about integers: a finite double is a whole number
//! of the smallest positive one. Sums, products and text are not, and are
//! asked of a [`Floats`].

use vstd::arithmetic::power2::*;
use vstd::prelude::*;

verus! {

/// The sign bit.
pub const SIGN: u64 = 0x8000_0000_0000_0000;

/// One above the largest fraction.
pub const IMPLICIT: u64 = 0x10_0000_0000_0000;

/// The arithmetic and the text that a machine's floating-point unit provides.
pub trait Floats {
    /// `a + b`
    fn plus(&self, a: u64, b: u64) -> u64;

    /// `a - b`
    fn minus(&self, a: u64, b: u64) -> u64;

    /// `a * b`
    fn times(&self, a: u64, b: u64) -> u64;

    /// `a / b`
    fn over(&self, a: u64, b: u64) -> u64;

    /// `a - b * floor(a / b)`
    fn modulo(&self, a: u64, b: u64) -> u64;

    /// The shortest text that reads back as `a`, always with a fraction.
    fn text(&self, a: u64) -> String;
}

/// The magnitude of a finite double, in units of the smallest positive one.
pub open spec fn magnitude(bits: u64) -> nat {
    let low = bits as int % SIGN as int;
    let exponent = low / IMPLICIT as int;
    let fraction = low % IMPLICIT as int;
    if exponent == 0 {
        fraction as nat
    } else {
        ((IMPLICIT + fraction) * pow2((exponent - 1) as nat)) as nat
    }
}

/// A finite double, in units of the smallest positive one.
pub open spec fn scaled(bits: u64) -> int {
    if bits < SIGN {
        magnitude(bits) as int
    } else {
        -(magnitude(bits) as int)
    }
}

/// How often a number has to be halved before a double holds it exactly.
pub open spec fn excess(a: nat) -> nat
    decreases a,
{
    if a < 2 * IMPLICIT {
        0
    } else {
        1 + excess(a / 2)
    }
}

/// `a / d`, rounded to the nearest whole number, and to the even one of two
/// that are as near.
pub open spec fn nearest_even(a: nat, d: nat) -> nat {
    let q = a / d;
    let r = a % d;
    if 2 * r < d || 2 * r == d && q % 2 == 0 {
        q
    } else {
        q + 1
    }
}

/// The whole number a double holds in place of `a`.
pub open spec fn rounded(a: nat) -> nat {
    nearest_even(a, pow2(excess(a))) * pow2(excess(a))
}

/// Where a double stands among the others.
pub open spec fn order(bits: u64) -> int {
    if bits < SIGN {
        bits as int
    } else {
        SIGN - bits
    }
}

proof fn lemma_magnitude_steps(low: u64, exponent: int, fraction: int)
    requires
        low < SIGN,
        exponent == low as int / IMPLICIT as int,
        fraction == low as int % IMPLICIT as int,
    ensures
        low == exponent * IMPLICIT + fraction,
        0 <= fraction < IMPLICIT,
        exponent >= 0,
        magnitude(low) == if exponent == 0 {
            fraction
        } else {
            (IMPLICIT + fraction) * pow2((exponent - 1) as nat)
        },
{
    assert(low as int % SIGN as int == low);
    if exponent > 0 {
        lemma_pow2_pos((exponent - 1) as nat);
        assert((IMPLICIT + fraction) * pow2((exponent - 1) as nat) >= 0) by (nonlinear_arith)
            requires
                fraction >= 0,
                pow2((exponent - 1) as nat) > 0,
        ;
    }
}

/// Larger patterns are larger magnitudes.
proof fn lemma_magnitude_grows(a: u64, b: u64)
    requires
        a < b < SIGN,
    ensures
        magnitude(a) < magnitude(b),
{
    let ea = a as int / IMPLICIT as int;
    let fa = a as int % IMPLICIT as int;
    let eb = b as int / IMPLICIT as int;
    let fb = b as int % IMPLICIT as int;
    lemma_magnitude_steps(a, ea, fa);
    lemma_magnitude_steps(b, eb, fb);
    assert(ea <= eb);
    if ea == eb {
        if ea > 0 {
            let p = pow2((ea - 1) as nat);
            lemma_pow2_pos((ea - 1) as nat);
            assert((IMPLICIT + fa) * p < (IMPLICIT + fb) * p) by (nonlinear_arith)
                requires
                    fa < fb,
                    p > 0,
            ;
        }
    } else if ea == 0 {
        let p = pow2((eb - 1) as nat);
        lemma_pow2_pos((eb - 1) as nat);
        assert((IMPLICIT + fb) * p >= IMPLICIT) by (nonlinear_arith)
            requires
                fb >= 0,
                p > 0,
        ;
    } else {
        let p = pow2((ea - 1) as nat);
        let q = pow2((eb - 1) as nat);
        lemma_pow2_pos((ea - 1) as nat);
        lemma_pow2_pos((eb - ea) as nat);
        lemma_pow2_adds((ea - 1) as nat, (eb - ea) as nat);
        let d = pow2((eb - ea) as nat);
        lemma_pow2_unfold((eb - ea) as nat);
        lemma_pow2_pos((eb - ea - 1) as nat);
        assert(d >= 2);
        assert(q == p * d);
        assert((IMPLICIT + fa) * p < (IMPLICIT + fb) * q) by (nonlinear_arith)
            requires
                fa < IMPLICIT,
                fb >= 0,
                p > 0,
                d >= 2,
                q == p * d,
        ;
    }
}

/// Patterns order as the numbers they stand for.
pub proof fn law_order(a: u64, b: u64)
    ensures
        order(a) < order(b) <==> scaled(a) < scaled(b),
        order(a) == order(b) <==> scaled(a) == scaled(b),
{
    let la = (a as int % SIGN as int) as u64;
    let lb = (b as int % SIGN as int) as u64;
    assert(magnitude(a) == magnitude(la));
    assert(magnitude(b) == magnitude(lb));
    lemma_magnitude_steps(0, 0, 0);
    if la < lb {
        lemma_magnitude_grows(la, lb);
    }
    if lb < la {
        lemma_magnitude_grows(lb, la);
    }
    if 0 < la {
        lemma_magnitude_grows(0, la);
    }
    if 0 < lb {
        lemma_magnitude_grows(0, lb);
    }
}

/// Whether one finite double is less than another.
pub fn less(a: u64, b: u64) -> (r: bool)
    ensures
        r == (scaled(a) < scaled(b)),
{
    proof {
        law_order(a, b);
    }
    if a < SIGN {
        b < SIGN && a < b
    } else if b < SIGN {
        a > SIGN || b > 0
    } else {
        b < a
    }
}

/// Whether two finite doubles are the same number.
pub fn same(a: u64, b: u64) -> (r: bool)
    ensures
        r == (scaled(a) == scaled(b)),
{
    proof {
        law_order(a, b);
    }
    a == b || (a == 0 && b == SIGN) || (a == SIGN && b == 0)
}

/// A double with the other sign.
pub open spec fn flipped(a: u64) -> u64 {
    if a < SIGN {
        (a + SIGN) as u64
    } else {
        (a - SIGN) as u64
    }
}

/// A double with the other sign.
pub fn negated(a: u64) -> (r: u64)
    ensures
        scaled(r) == -scaled(a),
        r == flipped(a),
{
    if a < SIGN {
        a + SIGN
    } else {
        a - SIGN
    }
}

/// The pattern of a normal double, from its whole significand and where that
/// stands.
proof fn lemma_encoded(m: u64, e: u64)
    requires
        IMPLICIT <= m <= 2 * IMPLICIT,
        1 <= e < 2046,
    ensures
        (e - 1) * IMPLICIT + m < SIGN,
        magnitude(((e - 1) * IMPLICIT + m) as u64) == m * pow2((e - 1) as nat),
{
    let bits = ((e - 1) * IMPLICIT + m) as u64;
    let exponent = bits as int / IMPLICIT as int;
    let fraction = bits as int % IMPLICIT as int;
    lemma_magnitude_steps(bits, exponent, fraction);
    if m < 2 * IMPLICIT {
        assert(exponent == e && fraction == m - IMPLICIT);
    } else {
        assert(exponent == e + 1 && fraction == 0);
        lemma_pow2_unfold(e as nat);
        let p = pow2((e - 1) as nat);
        assert(IMPLICIT * (2 * p) == 2 * IMPLICIT * p) by (nonlinear_arith);
    }
}

/// The double nearest to a whole number that one holds exactly.
fn exact(a: u64) -> (r: u64)
    requires
        0 < a < 2 * IMPLICIT,
    ensures
        r < SIGN,
        magnitude(r) == a * pow2(1074),
{
    let mut m: u64 = a;
    let mut e: u64 = 1075;
    proof {
        lemma2_to64();
    }
    while m < IMPLICIT
        invariant
            0 < a <= m < 2 * IMPLICIT,
            1022 <= e <= 1075,
            m * pow2((e - 1) as nat) == a * pow2(1074),
            m >= pow2((1075 - e) as nat),
        decreases 2 * IMPLICIT - m,
    {
        proof {
            let p = pow2((e - 2) as nat);
            lemma_pow2_unfold((e - 1) as nat);
            assert(2 * m * p == m * (2 * p)) by (nonlinear_arith);
            lemma_pow2_unfold((1076 - e) as nat);
            if e <= 1022 {
                lemma2_to64();
                lemma2_to64_rest();
                assert(pow2(53) == 0x20000000000000);
                assert(false);
            }
        }
        m = 2 * m;
        e = e - 1;
    }
    proof {
        lemma_encoded(m, e);
    }
    (e - 1) * IMPLICIT + m
}

/// The double nearest to a whole number that is too large to be held exactly.
fn inexact(a: u64) -> (r: u64)
    requires
        a >= 2 * IMPLICIT,
    ensures
        r < SIGN,
        magnitude(r) == rounded(a as nat) * pow2(1074),
{
    let mut q: u64 = a;
    let mut d: u64 = 1;
    let mut k: u64 = 0;
    proof {
        lemma2_to64();
        lemma2_to64_rest();
    }
    while q >= 2 * IMPLICIT
        invariant
            a >= 2 * IMPLICIT,
            d == pow2(k as nat),
            d >= 1,
            k <= 11,
            q as int == a as int / d as int,
            q * d <= a,
            excess(a as nat) == k + excess(q as nat),
            k > 0 ==> q >= IMPLICIT,
            q >= IMPLICIT,
        decreases q,
    {
        proof {
            lemma_pow2_unfold((k + 1) as nat);
            assert(a as int / (d as int * 2) == (a as int / d as int) / 2) by {
                vstd::arithmetic::div_mod::lemma_div_denominator(a as int, d as int, 2);
            }
            assert(q * d >= 2 * IMPLICIT * d) by (nonlinear_arith)
                requires
                    q >= 2 * IMPLICIT,
                    d >= 1,
            ;
            if k >= 11 {
                lemma2_to64();
                assert(2 * IMPLICIT * d == 2 * IMPLICIT * 2048) by (nonlinear_arith)
                    requires
                        d == 2048,
                ;
            }
            let h = q / 2;
            assert(h * (2 * d) <= q * d) by (nonlinear_arith)
                requires
                    2 * h <= q,
                    d >= 1,
            ;
            assert(d <= 1024) by {
                lemma2_to64();
                if k < 10 {
                    lemma_pow2_strictly_increases(k as nat, 10);
                }
            }
        }
        q = q / 2;
        d = d * 2;
        k = k + 1;
    }
    let r: u64 = a % d;
    let up: bool = r > d - r || (r == d - r && q % 2 == 1);
    let m: u64 = if up {
        q + 1
    } else {
        q
    };
    proof {
        assert(excess(q as nat) == 0);
        assert(m == nearest_even(a as nat, d as nat));
        lemma_encoded(m, (1075 + k) as u64);
        lemma_pow2_adds(k as nat, 1074);
        let p = pow2(k as nat);
        let s = pow2(1074);
        assert(m * (p * s) == m * p * s) by (nonlinear_arith);
    }
    (1074 + k) * IMPLICIT + m
}

/// The double nearest to an integer.
pub fn from_int(n: i64) -> (r: u64)
    ensures
        n >= 0 ==> scaled(r) == rounded(n as nat) * pow2(1074),
        n < 0 ==> scaled(r) == -(rounded((-n) as nat) * pow2(1074)),
{
    if n == 0 {
        proof {
            lemma2_to64();
            lemma_magnitude_steps(0, 0, 0);
            assert(excess(0) == 0);
            assert(nearest_even(0, 1) == 0);
            assert(0 * pow2(1074) == 0) by (nonlinear_arith);
        }
        return 0;
    }
    let a: u64 = if n > 0 {
        n as u64
    } else if n == i64::MIN {
        SIGN
    } else {
        (-n) as u64
    };
    let bits: u64 = if a < 2 * IMPLICIT {
        proof {
            lemma2_to64();
            assert(excess(a as nat) == 0);
            assert(nearest_even(a as nat, 1) == a);
        }
        exact(a)
    } else {
        inexact(a)
    };
    if n > 0 {
        bits
    } else {
        negated(bits)
    }
}

} // verus!
