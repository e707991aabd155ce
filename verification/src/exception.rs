//! The exception classes every heap has, below `Exception`.

use vstd::prelude::*;

use crate::bytecode::same_text;
use crate::class::{Builtin, ClassId};

verus! {

/// How many exception classes there are below `Exception`.
pub const ERROR_CLASSES: usize = 35;

/// An exception class, in the order a heap defines them: a class stands
/// behind its superclass.
#[derive(Debug, Clone, Copy, PartialEq, Eq, Structural)]
pub enum ErrorClass {
    NoMemoryError,
    ScriptError,
    LoadError,
    NotImplementedError,
    SyntaxError,
    SecurityError,
    SignalException,
    Interrupt,
    SystemExit,
    SystemStackError,
    StandardError,
    ArgumentError,
    UncaughtThrowError,
    EncodingError,
    FiberError,
    IOError,
    EOFError,
    IndexError,
    KeyError,
    StopIteration,
    ClosedQueueError,
    LocalJumpError,
    NameError,
    NoMethodError,
    NoMatchingPatternError,
    NoMatchingPatternKeyError,
    RangeError,
    FloatDomainError,
    RegexpError,
    RuntimeError,
    FrozenError,
    SystemCallError,
    ThreadError,
    TypeError,
    ZeroDivisionError,
}

impl ErrorClass {
    /// The place in the order.
    pub open spec fn rank(self) -> int {
        match self {
            ErrorClass::NoMemoryError => 0,
            ErrorClass::ScriptError => 1,
            ErrorClass::LoadError => 2,
            ErrorClass::NotImplementedError => 3,
            ErrorClass::SyntaxError => 4,
            ErrorClass::SecurityError => 5,
            ErrorClass::SignalException => 6,
            ErrorClass::Interrupt => 7,
            ErrorClass::SystemExit => 8,
            ErrorClass::SystemStackError => 9,
            ErrorClass::StandardError => 10,
            ErrorClass::ArgumentError => 11,
            ErrorClass::UncaughtThrowError => 12,
            ErrorClass::EncodingError => 13,
            ErrorClass::FiberError => 14,
            ErrorClass::IOError => 15,
            ErrorClass::EOFError => 16,
            ErrorClass::IndexError => 17,
            ErrorClass::KeyError => 18,
            ErrorClass::StopIteration => 19,
            ErrorClass::ClosedQueueError => 20,
            ErrorClass::LocalJumpError => 21,
            ErrorClass::NameError => 22,
            ErrorClass::NoMethodError => 23,
            ErrorClass::NoMatchingPatternError => 24,
            ErrorClass::NoMatchingPatternKeyError => 25,
            ErrorClass::RangeError => 26,
            ErrorClass::FloatDomainError => 27,
            ErrorClass::RegexpError => 28,
            ErrorClass::RuntimeError => 29,
            ErrorClass::FrozenError => 30,
            ErrorClass::SystemCallError => 31,
            ErrorClass::ThreadError => 32,
            ErrorClass::TypeError => 33,
            ErrorClass::ZeroDivisionError => 34,
        }
    }

    /// The name.
    pub open spec fn text(self) -> Seq<char> {
        match self {
            ErrorClass::NoMemoryError => "NoMemoryError"@,
            ErrorClass::ScriptError => "ScriptError"@,
            ErrorClass::LoadError => "LoadError"@,
            ErrorClass::NotImplementedError => "NotImplementedError"@,
            ErrorClass::SyntaxError => "SyntaxError"@,
            ErrorClass::SecurityError => "SecurityError"@,
            ErrorClass::SignalException => "SignalException"@,
            ErrorClass::Interrupt => "Interrupt"@,
            ErrorClass::SystemExit => "SystemExit"@,
            ErrorClass::SystemStackError => "SystemStackError"@,
            ErrorClass::StandardError => "StandardError"@,
            ErrorClass::ArgumentError => "ArgumentError"@,
            ErrorClass::UncaughtThrowError => "UncaughtThrowError"@,
            ErrorClass::EncodingError => "EncodingError"@,
            ErrorClass::FiberError => "FiberError"@,
            ErrorClass::IOError => "IOError"@,
            ErrorClass::EOFError => "EOFError"@,
            ErrorClass::IndexError => "IndexError"@,
            ErrorClass::KeyError => "KeyError"@,
            ErrorClass::StopIteration => "StopIteration"@,
            ErrorClass::ClosedQueueError => "ClosedQueueError"@,
            ErrorClass::LocalJumpError => "LocalJumpError"@,
            ErrorClass::NameError => "NameError"@,
            ErrorClass::NoMethodError => "NoMethodError"@,
            ErrorClass::NoMatchingPatternError => "NoMatchingPatternError"@,
            ErrorClass::NoMatchingPatternKeyError => "NoMatchingPatternKeyError"@,
            ErrorClass::RangeError => "RangeError"@,
            ErrorClass::FloatDomainError => "FloatDomainError"@,
            ErrorClass::RegexpError => "RegexpError"@,
            ErrorClass::RuntimeError => "RuntimeError"@,
            ErrorClass::FrozenError => "FrozenError"@,
            ErrorClass::SystemCallError => "SystemCallError"@,
            ErrorClass::ThreadError => "ThreadError"@,
            ErrorClass::TypeError => "TypeError"@,
            ErrorClass::ZeroDivisionError => "ZeroDivisionError"@,
        }
    }

    /// The superclass; `None` is `Exception`.
    pub open spec fn parent(self) -> Option<ErrorClass> {
        match self {
            ErrorClass::NoMemoryError
            | ErrorClass::ScriptError
            | ErrorClass::SecurityError
            | ErrorClass::SignalException
            | ErrorClass::SystemExit
            | ErrorClass::SystemStackError
            | ErrorClass::StandardError => None,
            ErrorClass::LoadError
            | ErrorClass::NotImplementedError
            | ErrorClass::SyntaxError => Some(ErrorClass::ScriptError),
            ErrorClass::Interrupt => Some(ErrorClass::SignalException),
            ErrorClass::ArgumentError
            | ErrorClass::EncodingError
            | ErrorClass::FiberError
            | ErrorClass::IOError
            | ErrorClass::IndexError
            | ErrorClass::LocalJumpError
            | ErrorClass::NameError
            | ErrorClass::NoMatchingPatternError
            | ErrorClass::RangeError
            | ErrorClass::RegexpError
            | ErrorClass::RuntimeError
            | ErrorClass::SystemCallError
            | ErrorClass::ThreadError
            | ErrorClass::TypeError
            | ErrorClass::ZeroDivisionError => Some(ErrorClass::StandardError),
            ErrorClass::UncaughtThrowError => Some(ErrorClass::ArgumentError),
            ErrorClass::EOFError => Some(ErrorClass::IOError),
            ErrorClass::KeyError
            | ErrorClass::StopIteration => Some(ErrorClass::IndexError),
            ErrorClass::ClosedQueueError => Some(ErrorClass::StopIteration),
            ErrorClass::NoMethodError => Some(ErrorClass::NameError),
            ErrorClass::NoMatchingPatternKeyError => Some(ErrorClass::NoMatchingPatternError),
            ErrorClass::FloatDomainError => Some(ErrorClass::RangeError),
            ErrorClass::FrozenError => Some(ErrorClass::RuntimeError),
        }
    }

    /// The table entry: behind the classes of [`Builtin`].
    pub open spec fn class_id(self) -> ClassId {
        ClassId((15 + self.rank()) as u32)
    }

    /// The table entry of the superclass.
    pub open spec fn parent_id(self) -> ClassId {
        match self.parent() {
            None => Builtin::Exception.class_id(),
            Some(parent) => parent.class_id(),
        }
    }

    /// All of them, in order.
    pub fn all() -> (r: [ErrorClass; 35])
        ensures
            forall|i: int| 0 <= i < ERROR_CLASSES ==> (#[trigger] r@[i]).rank() == i,
    {
        [
            ErrorClass::NoMemoryError,
            ErrorClass::ScriptError,
            ErrorClass::LoadError,
            ErrorClass::NotImplementedError,
            ErrorClass::SyntaxError,
            ErrorClass::SecurityError,
            ErrorClass::SignalException,
            ErrorClass::Interrupt,
            ErrorClass::SystemExit,
            ErrorClass::SystemStackError,
            ErrorClass::StandardError,
            ErrorClass::ArgumentError,
            ErrorClass::UncaughtThrowError,
            ErrorClass::EncodingError,
            ErrorClass::FiberError,
            ErrorClass::IOError,
            ErrorClass::EOFError,
            ErrorClass::IndexError,
            ErrorClass::KeyError,
            ErrorClass::StopIteration,
            ErrorClass::ClosedQueueError,
            ErrorClass::LocalJumpError,
            ErrorClass::NameError,
            ErrorClass::NoMethodError,
            ErrorClass::NoMatchingPatternError,
            ErrorClass::NoMatchingPatternKeyError,
            ErrorClass::RangeError,
            ErrorClass::FloatDomainError,
            ErrorClass::RegexpError,
            ErrorClass::RuntimeError,
            ErrorClass::FrozenError,
            ErrorClass::SystemCallError,
            ErrorClass::ThreadError,
            ErrorClass::TypeError,
            ErrorClass::ZeroDivisionError,
        ]
    }

    /// The name.
    pub fn name(self) -> (r: &'static str)
        ensures
            r@ == self.text(),
    {
        match self {
            ErrorClass::NoMemoryError => "NoMemoryError",
            ErrorClass::ScriptError => "ScriptError",
            ErrorClass::LoadError => "LoadError",
            ErrorClass::NotImplementedError => "NotImplementedError",
            ErrorClass::SyntaxError => "SyntaxError",
            ErrorClass::SecurityError => "SecurityError",
            ErrorClass::SignalException => "SignalException",
            ErrorClass::Interrupt => "Interrupt",
            ErrorClass::SystemExit => "SystemExit",
            ErrorClass::SystemStackError => "SystemStackError",
            ErrorClass::StandardError => "StandardError",
            ErrorClass::ArgumentError => "ArgumentError",
            ErrorClass::UncaughtThrowError => "UncaughtThrowError",
            ErrorClass::EncodingError => "EncodingError",
            ErrorClass::FiberError => "FiberError",
            ErrorClass::IOError => "IOError",
            ErrorClass::EOFError => "EOFError",
            ErrorClass::IndexError => "IndexError",
            ErrorClass::KeyError => "KeyError",
            ErrorClass::StopIteration => "StopIteration",
            ErrorClass::ClosedQueueError => "ClosedQueueError",
            ErrorClass::LocalJumpError => "LocalJumpError",
            ErrorClass::NameError => "NameError",
            ErrorClass::NoMethodError => "NoMethodError",
            ErrorClass::NoMatchingPatternError => "NoMatchingPatternError",
            ErrorClass::NoMatchingPatternKeyError => "NoMatchingPatternKeyError",
            ErrorClass::RangeError => "RangeError",
            ErrorClass::FloatDomainError => "FloatDomainError",
            ErrorClass::RegexpError => "RegexpError",
            ErrorClass::RuntimeError => "RuntimeError",
            ErrorClass::FrozenError => "FrozenError",
            ErrorClass::SystemCallError => "SystemCallError",
            ErrorClass::ThreadError => "ThreadError",
            ErrorClass::TypeError => "TypeError",
            ErrorClass::ZeroDivisionError => "ZeroDivisionError",
        }
    }

    /// The superclass, which stands before it in the order.
    pub fn superclass(self) -> (r: Option<ErrorClass>)
        ensures
            r == self.parent(),
            r matches Some(parent) ==> parent.rank() < self.rank(),
    {
        match self {
            ErrorClass::NoMemoryError
            | ErrorClass::ScriptError
            | ErrorClass::SecurityError
            | ErrorClass::SignalException
            | ErrorClass::SystemExit
            | ErrorClass::SystemStackError
            | ErrorClass::StandardError => None,
            ErrorClass::LoadError
            | ErrorClass::NotImplementedError
            | ErrorClass::SyntaxError => Some(ErrorClass::ScriptError),
            ErrorClass::Interrupt => Some(ErrorClass::SignalException),
            ErrorClass::ArgumentError
            | ErrorClass::EncodingError
            | ErrorClass::FiberError
            | ErrorClass::IOError
            | ErrorClass::IndexError
            | ErrorClass::LocalJumpError
            | ErrorClass::NameError
            | ErrorClass::NoMatchingPatternError
            | ErrorClass::RangeError
            | ErrorClass::RegexpError
            | ErrorClass::RuntimeError
            | ErrorClass::SystemCallError
            | ErrorClass::ThreadError
            | ErrorClass::TypeError
            | ErrorClass::ZeroDivisionError => Some(ErrorClass::StandardError),
            ErrorClass::UncaughtThrowError => Some(ErrorClass::ArgumentError),
            ErrorClass::EOFError => Some(ErrorClass::IOError),
            ErrorClass::KeyError
            | ErrorClass::StopIteration => Some(ErrorClass::IndexError),
            ErrorClass::ClosedQueueError => Some(ErrorClass::StopIteration),
            ErrorClass::NoMethodError => Some(ErrorClass::NameError),
            ErrorClass::NoMatchingPatternKeyError => Some(ErrorClass::NoMatchingPatternError),
            ErrorClass::FloatDomainError => Some(ErrorClass::RangeError),
            ErrorClass::FrozenError => Some(ErrorClass::RuntimeError),
        }
    }

    /// The table entry.
    pub fn id(self) -> (r: ClassId)
        ensures
            r == self.class_id(),
    {
        match self {
            ErrorClass::NoMemoryError => ClassId(15),
            ErrorClass::ScriptError => ClassId(16),
            ErrorClass::LoadError => ClassId(17),
            ErrorClass::NotImplementedError => ClassId(18),
            ErrorClass::SyntaxError => ClassId(19),
            ErrorClass::SecurityError => ClassId(20),
            ErrorClass::SignalException => ClassId(21),
            ErrorClass::Interrupt => ClassId(22),
            ErrorClass::SystemExit => ClassId(23),
            ErrorClass::SystemStackError => ClassId(24),
            ErrorClass::StandardError => ClassId(25),
            ErrorClass::ArgumentError => ClassId(26),
            ErrorClass::UncaughtThrowError => ClassId(27),
            ErrorClass::EncodingError => ClassId(28),
            ErrorClass::FiberError => ClassId(29),
            ErrorClass::IOError => ClassId(30),
            ErrorClass::EOFError => ClassId(31),
            ErrorClass::IndexError => ClassId(32),
            ErrorClass::KeyError => ClassId(33),
            ErrorClass::StopIteration => ClassId(34),
            ErrorClass::ClosedQueueError => ClassId(35),
            ErrorClass::LocalJumpError => ClassId(36),
            ErrorClass::NameError => ClassId(37),
            ErrorClass::NoMethodError => ClassId(38),
            ErrorClass::NoMatchingPatternError => ClassId(39),
            ErrorClass::NoMatchingPatternKeyError => ClassId(40),
            ErrorClass::RangeError => ClassId(41),
            ErrorClass::FloatDomainError => ClassId(42),
            ErrorClass::RegexpError => ClassId(43),
            ErrorClass::RuntimeError => ClassId(44),
            ErrorClass::FrozenError => ClassId(45),
            ErrorClass::SystemCallError => ClassId(46),
            ErrorClass::ThreadError => ClassId(47),
            ErrorClass::TypeError => ClassId(48),
            ErrorClass::ZeroDivisionError => ClassId(49),
        }
    }
}

/// A name belongs to one exception class.
pub proof fn law_error_names_are_distinct(one: ErrorClass, other: ErrorClass)
    requires
        one.text() == other.text(),
    ensures
        one == other,
{
    reveal_strlit("NoMemoryError");
    reveal_strlit("ScriptError");
    reveal_strlit("LoadError");
    reveal_strlit("NotImplementedError");
    reveal_strlit("SyntaxError");
    reveal_strlit("SecurityError");
    reveal_strlit("SignalException");
    reveal_strlit("Interrupt");
    reveal_strlit("SystemExit");
    reveal_strlit("SystemStackError");
    reveal_strlit("StandardError");
    reveal_strlit("ArgumentError");
    reveal_strlit("UncaughtThrowError");
    reveal_strlit("EncodingError");
    reveal_strlit("FiberError");
    reveal_strlit("IOError");
    reveal_strlit("EOFError");
    reveal_strlit("IndexError");
    reveal_strlit("KeyError");
    reveal_strlit("StopIteration");
    reveal_strlit("ClosedQueueError");
    reveal_strlit("LocalJumpError");
    reveal_strlit("NameError");
    reveal_strlit("NoMethodError");
    reveal_strlit("NoMatchingPatternError");
    reveal_strlit("NoMatchingPatternKeyError");
    reveal_strlit("RangeError");
    reveal_strlit("FloatDomainError");
    reveal_strlit("RegexpError");
    reveal_strlit("RuntimeError");
    reveal_strlit("FrozenError");
    reveal_strlit("SystemCallError");
    reveal_strlit("ThreadError");
    reveal_strlit("TypeError");
    reveal_strlit("ZeroDivisionError");
    let a = one.text();
    let b = other.text();
    assert(a.len() == b.len());
    assert(a[0] == b[0] && a[4] == b[4]);
}

/// No exception class has the name of another builtin class.
pub proof fn law_error_names_are_new(error: ErrorClass, builtin: Builtin)
    ensures
        error.text() != builtin.text(),
{
    reveal_strlit("NoMemoryError");
    reveal_strlit("ScriptError");
    reveal_strlit("LoadError");
    reveal_strlit("NotImplementedError");
    reveal_strlit("SyntaxError");
    reveal_strlit("SecurityError");
    reveal_strlit("SignalException");
    reveal_strlit("Interrupt");
    reveal_strlit("SystemExit");
    reveal_strlit("SystemStackError");
    reveal_strlit("StandardError");
    reveal_strlit("ArgumentError");
    reveal_strlit("UncaughtThrowError");
    reveal_strlit("EncodingError");
    reveal_strlit("FiberError");
    reveal_strlit("IOError");
    reveal_strlit("EOFError");
    reveal_strlit("IndexError");
    reveal_strlit("KeyError");
    reveal_strlit("StopIteration");
    reveal_strlit("ClosedQueueError");
    reveal_strlit("LocalJumpError");
    reveal_strlit("NameError");
    reveal_strlit("NoMethodError");
    reveal_strlit("NoMatchingPatternError");
    reveal_strlit("NoMatchingPatternKeyError");
    reveal_strlit("RangeError");
    reveal_strlit("FloatDomainError");
    reveal_strlit("RegexpError");
    reveal_strlit("RuntimeError");
    reveal_strlit("FrozenError");
    reveal_strlit("SystemCallError");
    reveal_strlit("ThreadError");
    reveal_strlit("TypeError");
    reveal_strlit("ZeroDivisionError");
    reveal_strlit("BasicObject");
    reveal_strlit("Object");
    reveal_strlit("Module");
    reveal_strlit("Class");
    reveal_strlit("Kernel");
    reveal_strlit("Comparable");
    reveal_strlit("Enumerable");
    reveal_strlit("Numeric");
    reveal_strlit("Symbol");
    reveal_strlit("String");
    reveal_strlit("Integer");
    reveal_strlit("Array");
    reveal_strlit("Hash");
    reveal_strlit("Proc");
    reveal_strlit("Exception");
    let a = error.text();
    let b = builtin.text();
    if a == b {
        assert(a.len() == b.len());
        assert(a[2] == b[2]);
    }
}

/// Whether an exception class of this name takes arguments of its own when it
/// is made, which only code that defines them can check.
pub open spec fn has_own_initialize(name: Seq<char>) -> bool {
    ||| name == "NameError"@
    ||| name == "NoMethodError"@
    ||| name == "FrozenError"@
    ||| name == "KeyError"@
    ||| name == "NoMatchingPatternKeyError"@
    ||| name == "SyntaxError"@
    ||| name == "SystemCallError"@
    ||| name == "SignalException"@
    ||| name == "Interrupt"@
    ||| name == "SystemExit"@
    ||| name == "UncaughtThrowError"@
}

/// Whether an exception class of this name takes arguments of its own when it
/// is made.
pub fn exception_defines_initialize(name: &str) -> (r: bool)
    ensures
        r == has_own_initialize(name@),
{
    let name: String = name.to_owned();
    same_text(&name, "NameError")
        || same_text(&name, "NoMethodError")
        || same_text(&name, "FrozenError")
        || same_text(&name, "KeyError")
        || same_text(&name, "NoMatchingPatternKeyError")
        || same_text(&name, "SyntaxError")
        || same_text(&name, "SystemCallError")
        || same_text(&name, "SignalException")
        || same_text(&name, "Interrupt")
        || same_text(&name, "SystemExit")
        || same_text(&name, "UncaughtThrowError")
}

} // verus!
