//! Tagged words.

use spinel_vm::double::Floats;
use spinel_vm::{SymbolId, Unpacked, Value};

/// The in-band double whose rotation is the pattern that stands for zero.
const FLONUM_COLLIDES: u64 = 0x3000_0000_0000_0000;

struct Machine;

impl Floats for Machine {
    fn plus(&self, a: u64, b: u64) -> u64 {
        (f64::from_bits(a) + f64::from_bits(b)).to_bits()
    }
    fn minus(&self, a: u64, b: u64) -> u64 {
        (f64::from_bits(a) - f64::from_bits(b)).to_bits()
    }
    fn times(&self, a: u64, b: u64) -> u64 {
        (f64::from_bits(a) * f64::from_bits(b)).to_bits()
    }
    fn over(&self, a: u64, b: u64) -> u64 {
        (f64::from_bits(a) / f64::from_bits(b)).to_bits()
    }
    fn modulo(&self, a: u64, b: u64) -> u64 {
        let (a, b) = (f64::from_bits(a), f64::from_bits(b));
        (a - b * (a / b).floor()).to_bits()
    }
    fn text(&self, a: u64) -> String {
        let double = f64::from_bits(a);
        if double.is_finite() && double.fract() == 0.0 {
            format!("{double:.1}")
        } else {
            double.to_string()
        }
    }
}

fn flonum(d: f64) -> Option<Value> {
    Value::flonum(d.to_bits())
}

/// Every kind of value.
fn one_of_each() -> Vec<Value> {
    vec![
        Value::fixnum(0).unwrap(),
        Value::fixnum(-1).unwrap(),
        Value::fixnum(Value::FIXNUM_MAX).unwrap(),
        Value::fixnum(Value::FIXNUM_MIN).unwrap(),
        flonum(1.5).unwrap(),
        flonum(0.0).unwrap(),
        Value::symbol(SymbolId(0)),
        Value::symbol(SymbolId(u32::MAX)),
        Value::nil(),
        Value::false_(),
        Value::true_(),
        Value::undef(),
        Value::heap(0x7fff_0000_1238),
    ]
}

#[test]
fn fixnums_round_trip_across_the_range() {
    for n in [0, 1, -1, 2, -2, 42, -42, i32::MAX as i64, i32::MIN as i64] {
        assert_eq!(Value::fixnum(n).unwrap().as_fixnum(), Some(n), "{n}");
    }
}

#[test]
fn fixnum_boundaries_hold_and_overflow_becomes_a_bignum() {
    assert_eq!(Value::FIXNUM_MAX, (1i64 << 62) - 1);
    assert_eq!(Value::FIXNUM_MIN, -(1i64 << 62));

    for n in [
        Value::FIXNUM_MAX,
        Value::FIXNUM_MAX - 1,
        Value::FIXNUM_MIN,
        Value::FIXNUM_MIN + 1,
    ] {
        assert_eq!(Value::fixnum(n).unwrap().as_fixnum(), Some(n), "{n}");
    }
    // One past either end is where `Integer` promotes to a heap bignum.
    for n in [
        Value::FIXNUM_MAX + 1,
        Value::FIXNUM_MIN - 1,
        i64::MAX,
        i64::MIN,
    ] {
        assert_eq!(Value::fixnum(n), None, "{n} should need a bignum");
    }
}

#[test]
fn flonums_round_trip_inside_the_band_and_are_refused_outside_it() {
    for sign in [0u64, 1] {
        for exp in 0u64..2048 {
            for mantissa in [0u64, 1, 0x8_0000_0000_0000, 0xF_FFFF_FFFF_FFFF] {
                let bits = (sign << 63) | (exp << 52) | mantissa;
                let in_band = matches!(exp >> 8, 3 | 4) && bits != FLONUM_COLLIDES;

                match Value::flonum(bits) {
                    Some(v) => {
                        assert!(in_band || bits == 0, "{bits:#018x} should not encode");
                        let back = v.as_flonum().expect("flonum reads back as a flonum");
                        assert_eq!(back, bits, "{bits:#018x} did not round trip");
                    }
                    None => assert!(!in_band && bits != 0, "{bits:#018x} should encode"),
                }
            }
        }
    }
}

#[test]
fn flonum_refuses_the_values_that_would_break_bit_equality() {
    for d in [
        f64::NAN,
        f64::INFINITY,
        f64::NEG_INFINITY,
        -0.0,
        1e300,
        1e-300,
    ] {
        assert_eq!(flonum(d), None, "{d:?} should need a heap Float");
    }
    assert_eq!(flonum(f64::MAX), None);
    assert_eq!(flonum(f64::MIN_POSITIVE), None);
}

#[test]
fn positive_zero_uses_the_spare_pattern_and_its_collision_goes_to_the_heap() {
    let zero = flonum(0.0).unwrap();
    assert_eq!(zero.as_flonum(), Some(0));

    // Encoding it would make `0.0` and `2**-255` the same object.
    let collides = f64::from_bits(FLONUM_COLLIDES);
    assert_eq!(flonum(collides), None);
    assert_ne!(collides, 0.0);
}

#[test]
fn symbols_round_trip() {
    for id in [0, 1, 255, 256, u32::MAX / 2, u32::MAX] {
        let v = Value::symbol(SymbolId(id));
        assert_eq!(v.as_symbol(), Some(SymbolId(id)), "{id}");
        assert_eq!(v.unpack(), Unpacked::Symbol(SymbolId(id)));
    }
}

#[test]
fn the_special_constants_are_four_distinct_objects() {
    let all = [Value::nil(), Value::false_(), Value::true_(), Value::undef()];
    for (i, a) in all.iter().enumerate() {
        for (j, b) in all.iter().enumerate() {
            assert_eq!(i == j, a == b, "{a:?} vs {b:?}");
        }
    }
    assert_eq!(Value::nil().unpack(), Unpacked::Nil);
    assert_eq!(Value::false_().unpack(), Unpacked::False);
    assert_eq!(Value::true_().unpack(), Unpacked::True);
    assert_eq!(Value::undef().unpack(), Unpacked::Undef);
}

#[test]
fn only_nil_and_false_are_falsy() {
    for v in one_of_each() {
        let expected = v != Value::nil() && v != Value::false_();
        assert_eq!(v.is_truthy(), expected, "{v:?}");
    }
    // Zero and the empty-ish values are true in Ruby.
    assert!(Value::fixnum(0).unwrap().is_truthy());
    assert!(flonum(0.0).unwrap().is_truthy());
    assert!(Value::nil().is_nil());
    assert!(!Value::false_().is_nil());
}

#[test]
fn every_value_has_exactly_one_tag() {
    for v in one_of_each() {
        let claims = [
            v.as_fixnum().is_some(),
            v.as_flonum().is_some(),
            v.as_symbol().is_some(),
            matches!(
                v.unpack(),
                Unpacked::Nil | Unpacked::False | Unpacked::True | Unpacked::Undef
            ),
            v.as_heap().is_some(),
        ];
        assert_eq!(
            claims.iter().filter(|c| **c).count(),
            1,
            "{v:?} claims {claims:?}"
        );
        assert_eq!(v.is_immediate(), v.as_heap().is_none(), "{v:?}");
    }
}

#[test]
fn heap_pointers_round_trip() {
    let boxed = Box::new(0u64);
    let address = std::ptr::from_ref(&*boxed).addr() as u64;
    let v = Value::heap(address);
    assert_eq!(v.as_heap(), Some(address));
    assert_eq!(v.unpack(), Unpacked::Heap(address));
    assert!(!v.is_immediate());
}

#[test]
fn debug_reads_like_the_ruby_object() {
    assert_eq!(Value::fixnum(-7).unwrap().describe(&Machine), "-7");
    assert_eq!(flonum(1.5).unwrap().describe(&Machine), "1.5");
    assert_eq!(Value::nil().describe(&Machine), "nil");
    assert_eq!(Value::true_().describe(&Machine), "true");
    assert_eq!(Value::symbol(SymbolId(3)).describe(&Machine), "Symbol(3)");
    assert_eq!(Value::false_().describe(&Machine), "false");
    assert_eq!(Value::undef().describe(&Machine), "undef");
    assert_eq!(Value::heap(0x1ff8).describe(&Machine), "heap(0x1ff8)");
}

#[test]
fn the_words_are_the_ones_the_tags_say() {
    assert_eq!(Value::fixnum(3).unwrap().to_bits(), 7);
    assert_eq!(Value::fixnum(-1).unwrap().to_bits(), u64::MAX);
    assert_eq!(Value::nil().to_bits(), 0x04);
    assert_eq!(Value::false_().to_bits(), 0x14);
    assert_eq!(Value::true_().to_bits(), 0x24);
    assert_eq!(Value::symbol(SymbolId(1)).to_bits(), 0x10c);
    assert_eq!(Value::heap(0x40).to_bits(), 0x40);
}
