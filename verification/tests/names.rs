//! What the engine says of itself, and integers of any size.

use spinel_vm::bignum::{is_big, read, value, Integer};
use spinel_vm::interp::make::new_string;
use spinel_vm::interp::Error;
use spinel_vm::{description, platform, Heap, Unpacked, Value, ENGINE, LANGUAGE_VERSION};

use num_bigint::BigInt;

#[test]
fn description_names_engine_language_and_platform() {
    let here = platform("x86_64", "linux");
    let d = description(&here);
    assert!(d.starts_with("spinel 0."), "{d}");
    assert!(d.contains("(ruby 4.0.0)"), "{d}");
    assert!(d.ends_with(&format!("[{here}]")), "{d}");
    assert_eq!(
        description(&platform("aarch64", "macos")),
        "spinel 0.0.1 (ruby 4.0.0) [arm64-darwin]"
    );
    assert_eq!((ENGINE, LANGUAGE_VERSION), ("spinel", "4.0.0"));
}

#[test]
fn platform_has_both_halves() {
    for (arch, os) in [("x86_64", "linux"), ("aarch64", "macos"), ("aarch64", "linux")] {
        let p = platform(arch, os);
        assert_eq!(p.split('-').count(), 2, "{p}");
        assert!(!p.starts_with('-') && !p.ends_with('-'), "{p}");
    }
    assert_eq!(platform("aarch64", "linux"), "aarch64-linux");
    assert_eq!(platform("x86_64", "macos"), "x86_64-darwin");
}

fn booted() -> Heap {
    let mut scope = Heap::new().scope();
    scope.bootstrap();
    scope.close()
}

fn integer(n: &BigInt) -> Integer {
    Integer::from_signed_bytes_le(&n.to_signed_bytes_le())
}

#[test]
fn an_integer_reads_back_whatever_its_size() {
    let mut scope = booted().scope();
    let base = BigInt::from(2);
    for power in [0u32, 1, 31, 61, 62, 63, 64, 70, 127, 300] {
        for n in [base.pow(power), -base.pow(power), base.pow(power) - 1, -base.pow(power) - 1] {
            let v = value(&mut scope, &integer(&n)).unwrap();
            let back = read(&scope, v).expect("an integer");
            assert_eq!(BigInt::from_signed_bytes_le(&back.to_signed_bytes_le()), n);
            let small = n <= BigInt::from(Value::FIXNUM_MAX) && n >= BigInt::from(Value::FIXNUM_MIN);
            assert_eq!(is_big(&scope, v), !small, "{n}");
            assert_eq!(v.is_immediate(), small, "{n}");
        }
    }
}

#[test]
fn a_number_that_fits_is_an_immediate_however_it_is_written() {
    let mut scope = booted().scope();
    let padded = Integer::from_signed_bytes_le(&[7, 0, 0, 0, 0, 0, 0, 0, 0, 0, 0, 0]);
    let v = value(&mut scope, &padded).unwrap();
    assert_eq!(v.unpack(), Unpacked::Fixnum(7));
    assert_eq!(padded.to_signed_bytes_le(), [7]);
    assert_eq!(padded.to_word(), Some(7));
    assert_eq!(Integer::from_word(-1125).to_signed_bytes_le(), [155, 251]);
    assert_eq!(Integer::from_signed_bytes_le(&[0xff; 20]).to_word(), Some(-1));
    assert_eq!(Integer::from_signed_bytes_le(&[]).to_signed_bytes_le(), [0]);
    assert_eq!(integer(&BigInt::from(u64::MAX)).to_word(), None);
}

#[test]
fn a_string_is_no_integer() {
    let mut scope = booted().scope();
    let text = new_string(&mut scope, vec![1, 2, 3]).unwrap();
    assert!(read(&scope, text).is_none());
    assert!(!is_big(&scope, text));
    assert!(read(&scope, Value::nil()).is_none());
}

#[test]
fn every_error_says_what_is_wrong() {
    assert_eq!(
        Error::refuse("+", "true and 1").message(),
        "`+` on true and 1 needs method dispatch"
    );
    assert_eq!(
        Error::raise("TypeError", "no").message(),
        "would raise TypeError: no"
    );
    assert_eq!(Error::raise("TypeError", "").message(), "would raise TypeError");
    assert_eq!(
        Error::open_question("defined?", "a binding").message(),
        "defined? cannot be answered before a binding"
    );
    assert_eq!(Error::malformed("a jump").message(), "malformed code: a jump");
    assert_eq!(Error::exhausted("objects").message(), "no room for objects");
    assert_eq!(Error::Budget.message(), "ran past the instruction budget");
}
