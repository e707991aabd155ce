//! `Integer` past the fixnum range.
//!
//! Ruby has one `Integer` with no visible boundary. So [`value`] is the one
//! place where an `Integer` becomes an object, and only where an immediate
//! cannot hold it. The object's bytes are the number in two's complement,
//! little end first, and no longer than they have to be.

use vstd::prelude::*;

use crate::class::Builtin;
use crate::heap::{HandleScope, HeapModel, Payload};
use crate::interp::error::Error;
use crate::interp::make;
use crate::interp::make::new_bytes;
use crate::interp::object;
use crate::interp::object::is_instance;
use crate::value;
use crate::value::{Unpacked, Value};

use num_bigint::BigInt;

verus! {

broadcast use Value::law_pack;

/// The number that bytes are without a sign, little end first.
pub open spec fn unsigned_le(bytes: Seq<u8>) -> int
    decreases bytes.len(),
{
    if bytes.len() == 0 {
        0
    } else {
        bytes[0] + 256 * unsigned_le(bytes.skip(1))
    }
}

/// 256 to a power.
pub open spec fn scale(n: nat) -> int
    decreases n,
{
    if n == 0 {
        1
    } else {
        256 * scale((n - 1) as nat)
    }
}

/// The number that bytes are in two's complement, little end first.
pub open spec fn signed_le(bytes: Seq<u8>) -> int {
    if bytes.len() > 0 && bytes.last() >= 128 {
        unsigned_le(bytes) - scale(bytes.len())
    } else {
        unsigned_le(bytes)
    }
}

/// Whether no fewer bytes are the same number: there is one, and the last only
/// repeats the sign of the one before it where it must not.
pub open spec fn is_shortest(bytes: Seq<u8>) -> bool {
    let n = bytes.len() as int;
    &&& n > 0
    &&& n > 1 && bytes[n - 1] == 0 ==> bytes[n - 2] >= 128
    &&& n > 1 && bytes[n - 1] == 255 ==> bytes[n - 2] < 128
}

/// `BigInt::from_signed_bytes_le` and `BigInt::to_signed_bytes_le`, one after
/// the other: the shortest two's complement bytes of the same number.
#[verifier::external_body]
fn shortest(bytes: &[u8]) -> (r: Vec<u8>)
    ensures
        signed_le(r@) == signed_le(bytes@),
        is_shortest(r@),
{
    BigInt::from_signed_bytes_le(bytes).to_signed_bytes_le()
}

/// `BigInt::from` on a word: the shortest two's complement bytes of it.
#[verifier::external_body]
fn spelled(n: i64) -> (r: Vec<u8>)
    ensures
        signed_le(r@) == n,
        is_shortest(r@),
{
    BigInt::from(n).to_signed_bytes_le()
}

/// `i64::try_from` on a `BigInt`: the number, where a word holds it.
#[verifier::external_body]
fn word(bytes: &[u8]) -> (r: Option<i64>)
    ensures
        match r {
            Some(n) => signed_le(bytes@) == n,
            None => !(i64::MIN <= signed_le(bytes@) <= i64::MAX),
        },
{
    i64::try_from(&BigInt::from_signed_bytes_le(bytes)).ok()
}

/// A number of any size.
pub struct Integer {
    bytes: Vec<u8>,
}

impl View for Integer {
    type V = int;

    open spec fn view(&self) -> int {
        signed_le(self.spelling())
    }
}

impl Integer {
    /// The bytes it is written with.
    pub closed spec fn spelling(&self) -> Seq<u8> {
        self.bytes@
    }

    /// It is written as short as it can be.
    pub open spec fn wf(&self) -> bool {
        is_shortest(self.spelling())
    }

    /// The number that two's complement bytes are, little end first.
    pub fn from_signed_bytes_le(bytes: &[u8]) -> (r: Integer)
        ensures
            r.wf(),
            r@ == signed_le(bytes@),
    {
        Integer { bytes: shortest(bytes) }
    }

    /// The number that a word is.
    pub fn from_word(n: i64) -> (r: Integer)
        ensures
            r.wf(),
            r@ == n,
    {
        Integer { bytes: spelled(n) }
    }

    /// The word that holds the number, where one does.
    pub fn to_word(&self) -> (r: Option<i64>)
        ensures
            match r {
                Some(n) => self@ == n,
                None => !(i64::MIN <= self@ <= i64::MAX),
            },
    {
        word(self.bytes.as_slice())
    }

    /// Its two's complement bytes, little end first.
    pub fn to_signed_bytes_le(&self) -> (r: Vec<u8>)
        ensures
            r@ == self.spelling(),
    {
        let copy = vstd::slice::slice_to_vec(self.bytes.as_slice());
        assert(copy@ =~= self.bytes@);
        copy
    }
}

/// Whether a value is an `Integer` too wide for an immediate.
pub open spec fn big_in(m: HeapModel, v: Value) -> bool {
    object::is_a(m, v, Builtin::Integer) && m.object(v).body is Bytes
}

/// The number that a value is, if it is an `Integer`.
pub open spec fn integer_in(m: HeapModel, v: Value) -> Option<int> {
    match v@ {
        Unpacked::Fixnum(n) => Some(n as int),
        _ => if big_in(m, v) {
            Some(signed_le(m.object(v).body->Bytes_0))
        } else {
            None
        },
    }
}

/// A number as a Ruby `Integer`: an immediate where it fits, an object where
/// not. Reading it gives the number back.
pub fn value(scope: &mut HandleScope, n: &Integer) -> (r: Result<Value, Error>)
    requires
        old(scope).wf(),
        object::kernel_in(old(scope)@),
        n.wf(),
    ensures
        final(scope).wf(),
        final(scope).scopes() == old(scope).scopes(),
        final(scope).room() >= old(scope).room() - 1,
        match r {
            Ok(v) => {
                &&& integer_in(final(scope)@, v) == Some(n@)
                &&& if value::fits_fixnum(n@) {
                    v == Value::pack(Unpacked::Fixnum(n@ as i64)) && final(scope)@ == old(scope)@
                } else {
                    make::fits(*old(scope), n.spelling().len()) && make::made(
                        old(scope)@,
                        final(scope)@,
                        v,
                        make::bytes_object(
                            Some(object::builtin_object(old(scope)@, Builtin::Integer)),
                            n.spelling(),
                        ),
                    )
                }
            },
            Err(e) => e is Exhausted && !value::fits_fixnum(n@) && !make::fits(
                *old(scope),
                n.spelling().len(),
            ) && final(scope)@ == old(scope)@,
        },
{
    if let Some(small) = n.to_word() {
        if let Some(v) = Value::fixnum(small) {
            return Ok(v);
        }
    }
    let bytes = n.to_signed_bytes_le();
    let class = scope.classes().object(Builtin::Integer.id());
    proof {
        make::lemma_builtin_is_live(scope@, Builtin::Integer);
    }
    new_bytes(scope, Some(class), bytes)
}

/// The number that a value is, or `None` where it is no `Integer`.
pub fn read(scope: &HandleScope, v: Value) -> (r: Option<Integer>)
    requires
        scope.wf(),
        scope@.live(v),
        object::kernel_in(scope@),
    ensures
        match r {
            Some(n) => n.wf() && integer_in(scope@, v) == Some(n@),
            None => integer_in(scope@, v) is None,
        },
{
    if let Some(n) = v.as_fixnum() {
        return Some(Integer::from_word(n));
    }
    if !is_big(scope, v) {
        return None;
    }
    Some(Integer::from_signed_bytes_le(scope.bytes_of(v)))
}

/// Whether a value is an `Integer` too wide for an immediate. A `String` is
/// bytes too: only an object whose class is `Integer` is a number.
pub fn is_big(scope: &HandleScope, v: Value) -> (r: bool)
    requires
        scope.wf(),
        scope@.live(v),
        object::kernel_in(scope@),
    ensures
        r == big_in(scope@, v),
{
    is_instance(scope, v, Builtin::Integer) && scope.payload_of(v) == Payload::Bytes
}

/// Bytes without a sign are a number below the scale of their count.
proof fn lemma_unsigned(bytes: Seq<u8>)
    ensures
        0 <= unsigned_le(bytes) < scale(bytes.len()),
    decreases bytes.len(),
{
    if bytes.len() > 0 {
        lemma_unsigned(bytes.skip(1));
    }
}

/// Two sequences of bytes of one length that are the same number without a
/// sign are the same.
proof fn lemma_unsigned_spelling(a: Seq<u8>, b: Seq<u8>)
    requires
        a.len() == b.len(),
        unsigned_le(a) == unsigned_le(b),
    ensures
        a == b,
    decreases a.len(),
{
    if a.len() > 0 {
        lemma_unsigned_spelling(a.skip(1), b.skip(1));
        assert forall|i: int| 0 <= i < a.len() implies a[i] == b[i] by {
            if i > 0 {
                assert(a.skip(1)[i - 1] == b.skip(1)[i - 1]);
            }
        }
    }
    assert(a =~= b);
}

/// The last byte carries the highest place.
proof fn lemma_high_byte(bytes: Seq<u8>)
    requires
        bytes.len() > 0,
    ensures
        unsigned_le(bytes) == unsigned_le(bytes.drop_last()) + bytes.last() * scale(
            (bytes.len() - 1) as nat,
        ),
    decreases bytes.len(),
{
    if bytes.len() == 1 {
        assert(bytes.skip(1).len() == 0);
        assert(unsigned_le(bytes.skip(1)) == 0);
        assert(unsigned_le(bytes.drop_last()) == 0);
        assert(scale(0) == 1);
    } else {
        let rest = bytes.skip(1);
        lemma_high_byte(rest);
        assert(rest.drop_last() =~= bytes.drop_last().skip(1));
        assert(rest.last() == bytes.last());
        let p = scale((rest.len() - 1) as nat);
        assert(scale((bytes.len() - 1) as nat) == 256 * p);
        let high = bytes.last() as int;
        assert(256 * (high * p) == high * (256 * p)) by (nonlinear_arith);
        assert(bytes.drop_last()[0] == bytes[0]);
    }
}

/// How far from zero the shortest bytes of one length can be: no further than
/// half their scale, and, where there is more than one, outside what one byte
/// fewer can hold.
proof fn lemma_span(bytes: Seq<u8>)
    requires
        is_shortest(bytes),
    ensures
        -scale(bytes.len()) <= 2 * signed_le(bytes) < scale(bytes.len()),
        bytes.len() > 1 ==> 2 * signed_le(bytes) >= scale((bytes.len() - 1) as nat) || 2
            * signed_le(bytes) < -scale((bytes.len() - 1) as nat),
{
    let n = bytes.len() as int;
    let low = bytes.drop_last();
    let p = scale((n - 1) as nat);
    let high = bytes.last() as int;
    lemma_high_byte(bytes);
    lemma_unsigned(low);
    assert(low.len() == n - 1);
    let u = unsigned_le(low);
    assert(scale(n as nat) == 256 * p);
    if high >= 128 {
        assert(high * p >= 128 * p) by (nonlinear_arith)
            requires
                high >= 128,
                p >= 0,
        ;
        assert(high * p <= 255 * p) by (nonlinear_arith)
            requires
                high <= 255,
                p >= 0,
        ;
    } else {
        assert(high * p <= 127 * p) by (nonlinear_arith)
            requires
                high <= 127,
                p >= 0,
        ;
        assert(high * p >= 0) by (nonlinear_arith)
            requires
                high >= 0,
                p >= 0,
        ;
    }
    if n > 1 {
        let q = scale((n - 2) as nat);
        assert(p == 256 * q);
        lemma_high_byte(low);
        lemma_unsigned(low.drop_last());
        let next = low.last() as int;
        assert(next == bytes[n - 2]);
        if high == 0 {
            assert(next * q >= 128 * q) by (nonlinear_arith)
                requires
                    next >= 128,
                    q >= 0,
            ;
            assert(high * p == 0) by (nonlinear_arith)
                requires
                    high == 0,
            ;
        } else if high == 255 {
            assert(next * q <= 127 * q) by (nonlinear_arith)
                requires
                    next <= 127,
                    q >= 0,
            ;
            assert(high * p == 255 * p) by (nonlinear_arith)
                requires
                    high == 255,
            ;
        } else if high >= 128 {
            assert(high * p <= 254 * p) by (nonlinear_arith)
                requires
                    high <= 254,
                    p >= 0,
            ;
        } else {
            assert(high * p >= p) by (nonlinear_arith)
                requires
                    high >= 1,
                    p >= 0,
            ;
        }
    }
}

/// A longer scale is larger.
proof fn lemma_scale(m: nat, n: nat)
    requires
        m <= n,
    ensures
        1 <= scale(m) <= scale(n),
    decreases n,
{
    if m < n {
        lemma_scale(m, (n - 1) as nat);
    } else if n > 0 {
        lemma_scale((m - 1) as nat, (n - 1) as nat);
    }
}

/// A number has one spelling: two numbers that are equal are written with the
/// same bytes.
pub proof fn law_one_spelling(a: Integer, b: Integer)
    requires
        a.wf(),
        b.wf(),
        a@ == b@,
    ensures
        a.spelling() == b.spelling(),
{
    let x = a.spelling();
    let y = b.spelling();
    lemma_span(x);
    lemma_span(y);
    if x.len() < y.len() {
        lemma_scale(x.len(), (y.len() - 1) as nat);
    }
    if y.len() < x.len() {
        lemma_scale(y.len(), (x.len() - 1) as nat);
    }
    assert(x.len() == y.len());
    lemma_unsigned(x);
    lemma_unsigned(y);
    lemma_unsigned_spelling(x, y);
}

} // verus!
