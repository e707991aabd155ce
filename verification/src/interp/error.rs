//! Why an evaluation stops early.

use vstd::prelude::*;
use vstd::string::*;

verus! {

/// Why an evaluation stopped early.
#[derive(Debug, Clone, PartialEq, Eq)]
pub enum Error {
    /// Operands that no operation is defined on yet.
    NoDispatch { op: &'static str, operands: &'static str },
    /// Ruby raises here. A `rescue` can catch it.
    Raise { class: &'static str, message: String },
    /// An exception that no `rescue` wanted.
    Uncaught { class: String, message: String },
    /// A method this heap was never given. Unlike [`Error::Raise`], no
    /// `rescue` sees it: it says what is missing here, not what a program did.
    NoSuchMethod { name: String, class: String },
    /// More instructions ran than an evaluation may run.
    Budget,
    /// A question whose answer this heap cannot know.
    Unknowable { what: &'static str, needs: &'static str },
    /// Code that names what it does not have.
    Malformed { what: &'static str },
    /// A table or the heap is full.
    Exhausted { what: &'static str },
}

/// Whether an error refuses an operation on these operands.
pub open spec fn refuses(e: Error, op: Seq<char>, operands: Seq<char>) -> bool {
    e matches Error::NoDispatch { op: o, operands: p } && o@ == op && p@ == operands
}

/// Whether an error raises this class with this message.
pub open spec fn raises(e: Error, class: Seq<char>, message: Seq<char>) -> bool {
    e matches Error::Raise { class: c, message: m } && c@ == class && m@ == message
}

/// Whether an error is an exception that left the outermost frame.
pub open spec fn escapes(e: Error, class: Seq<char>, message: Seq<char>) -> bool {
    e matches Error::Uncaught { class: c, message: m } && c@ == class && m@ == message
}

/// Whether an error says that a class has no such method.
pub open spec fn lacks(e: Error, name: Seq<char>, class: Seq<char>) -> bool {
    e matches Error::NoSuchMethod { name: n, class: c } && n@ == name && c@ == class
}

/// Whether an error says that a question has no answer here.
pub open spec fn leaves_open(e: Error, what: Seq<char>, needs: Seq<char>) -> bool {
    e matches Error::Unknowable { what: w, needs: n } && w@ == what && n@ == needs
}

impl Error {
    /// What the error says.
    pub open spec fn text(self) -> Seq<char> {
        match self {
            Error::NoDispatch { op, operands } => "`"@ + op@ + "` on "@ + operands@
                + " needs method dispatch"@,
            Error::Raise { class, message } => if message@.len() == 0 {
                "would raise "@ + class@
            } else {
                "would raise "@ + class@ + ": "@ + message@
            },
            Error::Uncaught { class, message } => if message@.len() == 0 {
                class@
            } else {
                class@ + ": "@ + message@
            },
            Error::NoSuchMethod { name, class } => "would raise NoMethodError: undefined method '"@
                + name@ + "' for an instance of "@ + class@,
            Error::Budget => "ran past the instruction budget"@,
            Error::Unknowable { what, needs } => what@ + " cannot be answered before "@ + needs@,
            Error::Malformed { what } => "malformed code: "@ + what@,
            Error::Exhausted { what } => "no room for "@ + what@,
        }
    }

    /// What the error says.
    pub fn message(&self) -> (r: String)
        ensures
            r@ == self.text(),
    {
        match self {
            Error::NoDispatch { op, operands } => {
                let mut out: String = "`".to_owned();
                out.append(op);
                out.append("` on ");
                out.append(operands);
                out.append(" needs method dispatch");
                out
            },
            Error::Raise { class, message } => {
                let mut out: String = "would raise ".to_owned();
                out.append(class);
                if !message.as_str().is_empty() {
                    out.append(": ");
                    out.append(message.as_str());
                }
                out
            },
            Error::Uncaught { class, message } => {
                let mut out: String = class.clone();
                if !message.as_str().is_empty() {
                    out.append(": ");
                    out.append(message.as_str());
                }
                out
            },
            Error::NoSuchMethod { name, class } => {
                let mut out: String = "would raise NoMethodError: undefined method '".to_owned();
                out.append(name.as_str());
                out.append("' for an instance of ");
                out.append(class.as_str());
                out
            },
            Error::Budget => "ran past the instruction budget".to_owned(),
            Error::Unknowable { what, needs } => {
                let mut out: String = (*what).to_owned();
                out.append(" cannot be answered before ");
                out.append(needs);
                out
            },
            Error::Malformed { what } => {
                let mut out: String = "malformed code: ".to_owned();
                out.append(what);
                out
            },
            Error::Exhausted { what } => {
                let mut out: String = "no room for ".to_owned();
                out.append(what);
                out
            },
        }
    }

    /// A refusal.
    pub fn refuse(op: &'static str, operands: &'static str) -> (r: Error)
        ensures
            refuses(r, op@, operands@),
    {
        Error::NoDispatch { op, operands }
    }

    /// A raise with a message that is fixed.
    pub fn raise(class: &'static str, message: &str) -> (r: Error)
        ensures
            raises(r, class@, message@),
    {
        Error::Raise { class, message: message.to_owned() }
    }

    /// A raise.
    pub fn raise_text(class: &'static str, message: String) -> (r: Error)
        ensures
            raises(r, class@, message@),
    {
        Error::Raise { class, message }
    }

    /// A question without an answer.
    pub fn open_question(what: &'static str, needs: &'static str) -> (r: Error)
        ensures
            leaves_open(r, what@, needs@),
    {
        Error::Unknowable { what, needs }
    }

    /// Code that names what it does not have.
    pub fn malformed(what: &'static str) -> (r: Error)
        ensures
            r is Malformed,
    {
        Error::Malformed { what }
    }

    /// A full table.
    pub fn exhausted(what: &'static str) -> (r: Error)
        ensures
            r is Exhausted,
    {
        Error::Exhausted { what }
    }
}

} // verus!
