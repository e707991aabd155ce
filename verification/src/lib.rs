//! A Ruby virtual machine: tagged values, a collected heap, classes and
//! method lookup, bytecode, a compiler and an interpreter.

pub mod ast;
pub mod banner;
pub mod bignum;
pub mod boot;
pub mod bytecode;
pub mod callcache;
pub mod class;
pub mod compile;
pub mod double;
pub mod exception;
pub mod heap;
pub mod interp;
pub mod kernel;
pub mod method;
pub mod mixin;
pub mod regexp;
pub mod shape;
pub mod shared;
pub mod text;
pub mod value;

pub use banner::{ENGINE, ENGINE_VERSION, LANGUAGE_VERSION, description, platform};
pub use bytecode::{BinOp, Insn, Iseq, Literal};
pub use class::{Builtin, ClassId, Classes, Kind, Method, Mixin, MixinError};
pub use compile::Unsupported;
pub use heap::{Handle, HandleScope, Heap, Payload, Stats};
pub use interp::{Error, Frame};
pub use method::{Definition, Definitions, Native};
pub use value::{SymbolId, Unpacked, Value};
