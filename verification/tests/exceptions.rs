//! Ruby's exception hierarchy, run against the heap that a boot builds.

use spinel_vm::{Builtin, ClassId, HandleScope, Heap};

const TABLE: &str = "
Exception < Object
NoMemoryError < Exception
ScriptError < Exception
LoadError < ScriptError
NotImplementedError < ScriptError
SyntaxError < ScriptError
SecurityError < Exception
SignalException < Exception
Interrupt < SignalException
StandardError < Exception
ArgumentError < StandardError
UncaughtThrowError < ArgumentError
EncodingError < StandardError
FiberError < StandardError
IOError < StandardError
EOFError < IOError
IndexError < StandardError
KeyError < IndexError
StopIteration < IndexError
ClosedQueueError < StopIteration
LocalJumpError < StandardError
NameError < StandardError
NoMethodError < NameError
NoMatchingPatternError < StandardError
NoMatchingPatternKeyError < NoMatchingPatternError
RangeError < StandardError
FloatDomainError < RangeError
RegexpError < StandardError
RuntimeError < StandardError
FrozenError < RuntimeError
SystemCallError < StandardError
ThreadError < StandardError
TypeError < StandardError
ZeroDivisionError < StandardError
SystemExit < Exception
SystemStackError < Exception
";

/// The name and the superclass of every line of the table.
fn rows() -> Vec<(&'static str, &'static str)> {
    TABLE
        .lines()
        .map(|line| line.split('#').next().unwrap_or("").trim())
        .filter(|line| !line.is_empty())
        .filter_map(|line| {
            let (name, superclass) = line.split_once('<')?;
            Some((name.trim(), superclass.trim()))
        })
        .collect()
}

fn booted() -> HandleScope {
    let mut scope = Heap::new().scope();
    scope.bootstrap();
    scope
}

/// The class bound to a top-level constant.
fn class_named(scope: &mut HandleScope, name: &str) -> Option<ClassId> {
    let symbol = scope.symbols_mut().intern(name);
    let object = scope
        .classes()
        .const_get_here(Builtin::Object.id(), symbol)?;
    let handle = scope.root(object);
    scope.class_id_of(handle)
}

#[test]
fn every_measured_class_is_reachable_by_name() {
    let mut scope = booted();
    for (name, _) in rows() {
        assert!(
            class_named(&mut scope, name).is_some(),
            "{name} is no constant after boot"
        );
    }
    assert_eq!(class_named(&mut scope, "NoSuchError"), None);
}

#[test]
fn every_measured_superclass_is_the_one_ruby_reports() {
    let mut scope = booted();
    for (name, expected) in rows() {
        let id = class_named(&mut scope, name)
            .unwrap_or_else(|| panic!("{name} should be a class"));
        let superclass = scope
            .classes()
            .superclass(id)
            .unwrap_or_else(|| panic!("{name} should have a superclass"));
        assert_eq!(
            scope.classes().name(superclass),
            Some(expected),
            "{name}'s superclass disagrees with what Ruby reports"
        );
    }
}

#[test]
fn rescue_matching_walks_to_standard_error() {
    let mut scope = booted();
    let standard = class_named(&mut scope, "StandardError").unwrap();
    let zero_div = class_named(&mut scope, "ZeroDivisionError").unwrap();
    let no_memory = class_named(&mut scope, "NoMemoryError").unwrap();
    assert!(scope.classes().ancestors(zero_div).contains(&standard));
    assert!(!scope.classes().ancestors(no_memory).contains(&standard));
}
