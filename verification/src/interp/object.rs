//! What the interpreter asks of objects.

use std::sync::Arc;

use vstd::prelude::*;
use vstd::utf8;

use crate::boot;
use crate::bytecode;
use crate::bytecode::Iseq;
use crate::class;
use crate::class::{Builtin, ClassId, CrefId};
use crate::heap::{BodyModel, HandleScope, HeapModel, Payload};
use crate::interp::error;
use crate::interp::error::Error;
use crate::kernel;
use crate::method::Definition;
use crate::text;
use crate::value::{SymbolId, Unpacked, Value};

verus! {

broadcast use Value::law_pack;

/// The slots of a `Proc`: what it runs, where its locals came from, what
/// `self` was where it was written, whether it is a lambda, the block that
/// scope had, the lexical scope, the frame `return` leaves and the frame
/// `break` ends.
pub const PROC_BODY: usize = 0;

pub const PROC_ENV: usize = 1;

pub const PROC_SELF: usize = 2;

pub const PROC_LAMBDA: usize = 3;

pub const PROC_BLOCK: usize = 4;

pub const PROC_CREF: usize = 5;

pub const PROC_HOME: usize = 6;

pub const PROC_BREAK: usize = 7;

pub const PROC_SLOTS: u32 = 8;

/// The slots of an exception: what it says, and where it came from.
pub const EXC_MESSAGE: usize = 0;

pub const EXC_BACKTRACE: usize = 1;

pub const EXC_SLOTS: u32 = 2;

/// Whether a heap has what the interpreter counts on: the builtin classes and
/// the outermost lexical scope.
pub open spec fn kernel_in(m: HeapModel) -> bool {
    &&& m.classes.table().len() >= kernel::BUILTINS
    &&& m.classes.scopes().len() >= 1
}

/// The class object of a builtin.
pub open spec fn builtin_object(m: HeapModel, builtin: Builtin) -> Value {
    m.classes.table()[builtin.rank()].object
}

/// Whether a value is an object whose class is exactly this builtin.
pub open spec fn is_a(m: HeapModel, v: Value, builtin: Builtin) -> bool {
    &&& m.has_object(v)
    &&& m.object(v).class == Some(builtin_object(m, builtin))
}

/// The class a value's methods are looked up on. `nil`, `true`, `false` and
/// floats have none yet.
pub open spec fn class_of_value(m: HeapModel, v: Value) -> Option<ClassId> {
    match v@ {
        Unpacked::Fixnum(_) => Some(Builtin::Integer.class_id()),
        Unpacked::Symbol(_) => Some(Builtin::Symbol.class_id()),
        Unpacked::Heap(_) => boot::class_in(m, v),
        _ => None,
    }
}

/// The class table entry a value is, if it is a class or module.
pub open spec fn class_id_of_value(m: HeapModel, v: Value) -> Option<ClassId> {
    if v@ is Heap {
        boot::class_id_in(m, v)
    } else {
        None
    }
}

/// The bytes of a `String`.
pub open spec fn string_in(m: HeapModel, v: Value) -> Option<Seq<u8>> {
    if is_a(m, v, Builtin::String) {
        match m.object(v).body {
            BodyModel::Bytes(bytes) => Some(bytes),
            BodyModel::Slots(_) => None,
        }
    } else {
        None
    }
}

/// The elements of an `Array`.
pub open spec fn elements_in(m: HeapModel, v: Value) -> Option<Seq<Value>> {
    if is_a(m, v, Builtin::Array) {
        match m.object(v).body {
            BodyModel::Slots(slots) => Some(slots),
            BodyModel::Bytes(_) => None,
        }
    } else {
        None
    }
}

/// A number that a slot holds, or zero.
pub open spec fn frame_in(v: Value) -> u64 {
    match v@ {
        Unpacked::Fixnum(n) => if n >= 0 {
            n as u64
        } else {
            0
        },
        _ => 0,
    }
}

/// A lexical scope that a slot holds, or the outermost.
pub open spec fn cref_in(v: Value) -> CrefId {
    match v@ {
        Unpacked::Fixnum(n) => if 0 <= n <= u32::MAX {
            CrefId(n as u32)
        } else {
            CrefId(0)
        },
        _ => CrefId(0),
    }
}

/// Whether a value is a `Proc`.
pub open spec fn is_proc(m: HeapModel, v: Value) -> bool {
    &&& is_a(m, v, Builtin::Proc)
    &&& m.object(v).body matches BodyModel::Slots(slots) && slots.len() == PROC_SLOTS
}

/// A slot of a `Proc`.
pub open spec fn proc_slot(m: HeapModel, v: Value, slot: int) -> Value {
    m.object(v).body->Slots_0[slot]
}

/// A `Proc` that can be called.
#[verifier::ext_equal]
pub struct ProcModel {
    /// The place of its body in the body table.
    pub definition: int,
    pub env: Value,
    pub receiver: Value,
    pub block: Value,
    pub lambda: bool,
    pub cref: CrefId,
    pub home: u64,
    pub breaks: u64,
}

/// The parts of a `Proc` that can be called: its body is code.
pub open spec fn proc_in(m: HeapModel, v: Value) -> Option<ProcModel> {
    if is_proc(m, v) {
        match proc_slot(m, v, PROC_BODY as int)@ {
            Unpacked::Fixnum(n) => if 0 <= n < m.definitions.all().len()
                && m.definitions.all()[n as int] is Iseq {
                Some(
                    ProcModel {
                        definition: n as int,
                        env: proc_slot(m, v, PROC_ENV as int),
                        receiver: proc_slot(m, v, PROC_SELF as int),
                        block: proc_slot(m, v, PROC_BLOCK as int),
                        lambda: truthy(proc_slot(m, v, PROC_LAMBDA as int)),
                        cref: cref_in(proc_slot(m, v, PROC_CREF as int)),
                        home: frame_in(proc_slot(m, v, PROC_HOME as int)),
                        breaks: frame_in(proc_slot(m, v, PROC_BREAK as int)),
                    },
                )
            } else {
                None
            },
            _ => None,
        }
    } else {
        None
    }
}

/// Everything but `nil` and `false` counts as true.
pub open spec fn truthy(v: Value) -> bool {
    !(v@ is Nil) && !(v@ is False)
}

/// A symbol's text.
pub open spec fn symbol_text(m: HeapModel, id: SymbolId) -> Seq<char> {
    if id.0 < m.symbols@.len() {
        m.symbols@[id.0 as int]
    } else {
        "<symbol "@ + text::digits(id.0 as nat, 10) + ">"@
    }
}

/// The bytes of what an exception says; `None` where the value is not one.
pub open spec fn message_bytes(m: HeapModel, v: Value) -> Option<Seq<u8>> {
    if m.has_object(v) {
        match m.object(v).body {
            BodyModel::Slots(slots) => if slots.len() >= EXC_SLOTS && m.has_object(slots[0]) {
                match m.object(slots[0]).body {
                    BodyModel::Bytes(bytes) => Some(bytes),
                    BodyModel::Slots(_) => None,
                }
            } else {
                None
            },
            BodyModel::Bytes(_) => None,
        }
    } else {
        None
    }
}

/// What an exception says; nothing where the value is not one.
pub open spec fn message_in(m: HeapModel, v: Value) -> Seq<char> {
    match message_bytes(m, v) {
        Some(bytes) => text::lossy_text(bytes),
        None => Seq::empty(),
    }
}

/// The name of a value's class.
pub open spec fn class_name_in(m: HeapModel, v: Value) -> Option<Seq<char>> {
    match class_of_value(m, v) {
        Some(id) => m.classes.table()[id.0 as int].name,
        None => None,
    }
}

/// The name of a value's class, for a report.
pub open spec fn reported_class(m: HeapModel, v: Value) -> Seq<char> {
    match class_name_in(m, v) {
        Some(name) => name,
        None => "an anonymous class"@,
    }
}

/// Whether the entry is `Exception` or below it.
pub open spec fn below_exception(m: HeapModel, id: ClassId) -> bool {
    class::ancestors_of(m.classes.table(), id.0 as int).contains(Builtin::Exception.class_id())
}

/// Whether a value is an instance of `Exception` or of a class below it.
pub open spec fn is_exception_in(m: HeapModel, v: Value) -> bool {
    class_of_value(m, v) matches Some(id) && below_exception(m, id)
}

/// Why a value's methods cannot be looked up.
pub open spec fn classless(v: Value) -> Seq<char> {
    match v@ {
        Unpacked::Nil => "nil, whose NilClass the VM has not created yet"@,
        Unpacked::True => "true, whose TrueClass the VM has not created yet"@,
        Unpacked::False => "false, whose FalseClass the VM has not created yet"@,
        Unpacked::Flonum(_) => "a Float, whose class the VM has not created yet"@,
        _ => "a receiver whose class the VM has not created yet"@,
    }
}

/// `true` or `false`.
pub fn bool_value(b: bool) -> (r: Value)
    ensures
        r == truth(b),
        !(r@ is Heap),
{
    if b {
        Value::true_()
    } else {
        Value::false_()
    }
}

/// `true` or `false`.
pub open spec fn truth(b: bool) -> Value {
    if b {
        Value::pack(Unpacked::True)
    } else {
        Value::pack(Unpacked::False)
    }
}

/// The class a value's methods are looked up on.
pub fn class_of(scope: &HandleScope, value: Value) -> (r: Option<ClassId>)
    requires
        scope.wf(),
        scope@.live(value),
        kernel_in(scope@),
    ensures
        r == class_of_value(scope@, value),
        r matches Some(id) ==> scope@.classes.has(id),
{
    match value.unpack() {
        Unpacked::Fixnum(_) => Some(Builtin::Integer.id()),
        Unpacked::Symbol(_) => Some(Builtin::Symbol.id()),
        Unpacked::Heap(_) => scope.class_of_value(value),
        _ => None,
    }
}

/// The class table entry a value is, if it is a class or module.
pub fn class_id_of(scope: &HandleScope, value: Value) -> (r: Option<ClassId>)
    requires
        scope.wf(),
        scope@.live(value),
    ensures
        r == class_id_of_value(scope@, value),
        r matches Some(id) ==> scope@.classes.has(id),
{
    if value.is_immediate() {
        None
    } else {
        scope.class_id_of_value(value)
    }
}

/// Whether a value is an object whose class is exactly this builtin.
pub fn is_instance(scope: &HandleScope, value: Value, builtin: Builtin) -> (r: bool)
    requires
        scope.wf(),
        scope@.live(value),
        kernel_in(scope@),
    ensures
        r == is_a(scope@, value, builtin),
{
    if value.is_immediate() {
        return false;
    }
    match scope.header_of(value) {
        Some(class) => class == scope.classes().object(builtin.id()),
        None => false,
    }
}

/// A `String`'s bytes, or `None` where the value is not one.
pub fn string_bytes(scope: &HandleScope, value: Value) -> (r: Option<Vec<u8>>)
    requires
        scope.wf(),
        scope@.live(value),
        kernel_in(scope@),
    ensures
        match r {
            Some(bytes) => string_in(scope@, value) == Some(bytes@),
            None => string_in(scope@, value) is None,
        },
{
    if !is_instance(scope, value, Builtin::String) {
        return None;
    }
    if scope.payload_of(value) != Payload::Bytes {
        return None;
    }
    let bytes = scope.bytes_of(value);
    let copy = vstd::slice::slice_to_vec(bytes);
    assert(copy@ =~= bytes@);
    Some(copy)
}

/// The elements of an `Array`, or `None` where the value is not one.
pub fn array_elements(scope: &HandleScope, value: Value) -> (r: Option<Vec<Value>>)
    requires
        scope.wf(),
        scope@.live(value),
        kernel_in(scope@),
    ensures
        match r {
            Some(elements) => {
                &&& elements_in(scope@, value) == Some(elements@)
                &&& forall|i: int| 0 <= i < elements@.len() ==> scope@.live(#[trigger] elements@[i])
            },
            None => elements_in(scope@, value) is None,
        },
{
    if !is_instance(scope, value, Builtin::Array) {
        return None;
    }
    if scope.payload_of(value) != Payload::Slots {
        return None;
    }
    let len: usize = scope.len_of(value);
    let mut out: Vec<Value> = Vec::new();
    let mut i: usize = 0;
    while i < len
        invariant
            scope.wf(),
            scope@.has_object(value),
            scope@.object(value).body is Slots,
            len == scope@.object(value).body->Slots_0.len(),
            i <= len,
            out@ == scope@.object(value).body->Slots_0.take(i as int),
            forall|k: int| 0 <= k < out@.len() ==> scope@.live(#[trigger] out@[k]),
        decreases len - i,
    {
        if let Some(element) = scope.slot_of(value, i) {
            out.push(element);
        }
        assert(out@ =~= scope@.object(value).body->Slots_0.take(i + 1));
        i += 1;
    }
    assert(out@ =~= scope@.object(value).body->Slots_0);
    Some(out)
}

/// A [`CrefId`] as a value.
pub fn cref_value(cref: CrefId) -> (r: Value)
    ensures
        r == Value::pack(Unpacked::Fixnum(cref.0 as i64)),
        !(r@ is Heap),
        cref_in(r) == cref,
{
    match Value::fixnum(cref.0 as i64) {
        Some(value) => value,
        None => Value::nil(),
    }
}

/// A [`CrefId`] read back out of a value.
pub fn cref_from(value: Value) -> (r: CrefId)
    ensures
        r == cref_in(value),
{
    match value.as_fixnum() {
        Some(n) => if n >= 0 && n <= u32::MAX as i64 {
            CrefId(n as u32)
        } else {
            CrefId::root()
        },
        None => CrefId::root(),
    }
}

/// A frame's id read back out of a value.
pub fn frame_from(value: Value) -> (r: u64)
    ensures
        r == frame_in(value),
{
    match value.as_fixnum() {
        Some(n) => if n >= 0 {
            n as u64
        } else {
            0
        },
        None => 0,
    }
}

/// The body a `Proc` names, or `None` where the value is not one.
pub fn proc_body(scope: &HandleScope, value: Value) -> (r: Option<Value>)
    requires
        scope.wf(),
        scope@.live(value),
        kernel_in(scope@),
    ensures
        match r {
            Some(body) => is_proc(scope@, value) && body == proc_slot(
                scope@,
                value,
                PROC_BODY as int,
            ),
            None => !is_proc(scope@, value),
        },
{
    if !is_instance(scope, value, Builtin::Proc) {
        return None;
    }
    if scope.payload_of(value) != Payload::Slots || scope.len_of(value) != 8 {
        return None;
    }
    scope.slot_of(value, PROC_BODY)
}

/// A `Proc` that can be called.
pub struct ProcParts {
    pub definition: usize,
    pub iseq: Arc<Iseq>,
    pub env: Value,
    pub receiver: Value,
    pub block: Value,
    pub lambda: bool,
    pub cref: CrefId,
    pub home: u64,
    pub breaks: u64,
}

impl ProcParts {
    /// The parts, without the code that the body table has.
    pub open spec fn model(self) -> ProcModel {
        ProcModel {
            definition: self.definition as int,
            env: self.env,
            receiver: self.receiver,
            block: self.block,
            lambda: self.lambda,
            cref: self.cref,
            home: self.home,
            breaks: self.breaks,
        }
    }
}

/// What a slot of a `Proc` holds.
fn part(scope: &HandleScope, value: Value, slot: usize) -> (r: Value)
    requires
        scope.wf(),
        is_proc(scope@, value),
        slot < PROC_SLOTS,
    ensures
        r == proc_slot(scope@, value, slot as int),
        scope@.live(r),
{
    match scope.slot_of(value, slot) {
        Some(found) => found,
        None => Value::nil(),
    }
}

/// Everything that calling a `Proc` needs; `None` where the value is not a
/// `Proc` whose body is code.
pub fn proc_parts(scope: &HandleScope, value: Value) -> (r: Option<ProcParts>)
    requires
        scope.wf(),
        scope@.live(value),
        kernel_in(scope@),
    ensures
        match r {
            Some(parts) => {
                &&& proc_in(scope@, value) == Some(parts.model())
                &&& scope@.definitions.all()[parts.definition as int] == Definition::Iseq(
                    parts.iseq,
                )
                &&& scope@.live(parts.env)
                &&& scope@.live(parts.receiver)
                &&& scope@.live(parts.block)
            },
            None => proc_in(scope@, value) is None,
        },
{
    let body = match proc_body(scope, value) {
        Some(body) => body,
        None => {
            return None;
        },
    };
    let iseq = match scope.definitions().get(body) {
        Some(Definition::Iseq(iseq)) => bytecode::share(iseq),
        _ => {
            return None;
        },
    };
    let definition: usize = match body.as_fixnum() {
        Some(n) => {
            let total: usize = scope.definitions().len();
            n as usize
        },
        None => 0,
    };
    Some(
        ProcParts {
            definition,
            iseq,
            env: part(scope, value, PROC_ENV),
            receiver: part(scope, value, PROC_SELF),
            block: part(scope, value, PROC_BLOCK),
            lambda: part(scope, value, PROC_LAMBDA).is_truthy(),
            cref: cref_from(part(scope, value, PROC_CREF)),
            home: frame_from(part(scope, value, PROC_HOME)),
            breaks: frame_from(part(scope, value, PROC_BREAK)),
        },
    )
}

/// The frames that a `return` and a `break` in a block look for, from its
/// `Proc`; zero where the value is not one.
pub fn proc_links(scope: &HandleScope, block: Value) -> (r: (u64, u64))
    requires
        scope.wf(),
        scope@.live(block),
        kernel_in(scope@),
    ensures
        r == if is_proc(scope@, block) {
            (
                frame_in(proc_slot(scope@, block, PROC_HOME as int)),
                frame_in(proc_slot(scope@, block, PROC_BREAK as int)),
            )
        } else {
            (0u64, 0u64)
        },
{
    if proc_body(scope, block).is_none() {
        return (0, 0);
    }
    (frame_from(part(scope, block, PROC_HOME)), frame_from(part(scope, block, PROC_BREAK)))
}

/// A symbol's text.
pub fn symbol_name(scope: &HandleScope, id: SymbolId) -> (r: String)
    ensures
        r@ == symbol_text(scope@, id),
{
    match scope.symbols().name(id) {
        Some(name) => name,
        None => {
            let number = text::number(id.0 as u64, 10);
            text::join3("<symbol ", number.as_str(), ">")
        },
    }
}

/// What an exception says, for a report.
pub fn exception_message(scope: &HandleScope, exception: Value) -> (r: String)
    requires
        scope.wf(),
        scope@.live(exception),
    ensures
        r@ == message_in(scope@, exception),
        message_bytes(scope@, exception) matches Some(bytes) ==> (utf8::valid_utf8(bytes) ==> r@
            == utf8::decode_utf8(bytes)),
{
    if exception.is_immediate() {
        return String::new();
    }
    if scope.payload_of(exception) != Payload::Slots || scope.len_of(exception) < 2 {
        return String::new();
    }
    match scope.slot_of(exception, EXC_MESSAGE) {
        Some(held) => if held.is_immediate() || scope.payload_of(held) != Payload::Bytes {
            String::new()
        } else {
            text::lossy(scope.bytes_of(held))
        },
        None => String::new(),
    }
}

/// The name of an entry.
pub fn entry_name(scope: &HandleScope, id: ClassId) -> (r: Option<String>)
    requires
        scope@.classes.has(id),
    ensures
        match r {
            Some(name) => scope@.classes.table()[id.0 as int].name == Some(name@),
            None => scope@.classes.table()[id.0 as int].name is None,
        },
{
    match scope.classes().name(id) {
        Some(name) => Some(name.to_owned()),
        None => None,
    }
}

/// The name of a value's class, for a report.
pub fn class_name_of(scope: &HandleScope, value: Value) -> (r: String)
    requires
        scope.wf(),
        scope@.live(value),
        kernel_in(scope@),
    ensures
        r@ == reported_class(scope@, value),
{
    match class_of(scope, value) {
        Some(id) => match entry_name(scope, id) {
            Some(name) => name,
            None => "an anonymous class".to_owned(),
        },
        None => "an anonymous class".to_owned(),
    }
}

/// Whether the entry is `Exception` or below it.
pub fn is_exception_class(scope: &HandleScope, id: ClassId) -> (r: bool)
    requires
        scope.wf(),
        scope@.classes.has(id),
    ensures
        r == below_exception(scope@, id),
{
    let chain = scope.classes().ancestors(id);
    class::holds(&chain, Builtin::Exception.id())
}

/// Whether a value is an instance of `Exception` or of a class below it.
pub fn is_exception(scope: &HandleScope, value: Value) -> (r: bool)
    requires
        scope.wf(),
        scope@.live(value),
        kernel_in(scope@),
    ensures
        r == is_exception_in(scope@, value),
{
    match class_of(scope, value) {
        Some(id) => is_exception_class(scope, id),
        None => false,
    }
}

/// Whether an exception is an instance of the class a `rescue` names.
/// Anything but a class or module there is a `TypeError`.
pub fn exception_matches(scope: &HandleScope, exception: Value, class: Value) -> (r: Result<
    bool,
    Error,
>)
    requires
        scope.wf(),
        scope@.live(exception),
        scope@.live(class),
        kernel_in(scope@),
    ensures
        match class_id_of_value(scope@, class) {
            None => r matches Err(e) && error::raises(
                e,
                "TypeError"@,
                "class or module required for rescue clause"@,
            ),
            Some(wanted) => r == Ok::<bool, Error>(
                class_of_value(scope@, exception) matches Some(actual) && class::ancestors_of(
                    scope@.classes.table(),
                    actual.0 as int,
                ).contains(wanted),
            ),
        },
{
    match class_id_of(scope, class) {
        None => Err(
            Error::raise("TypeError", "class or module required for rescue clause"),
        ),
        Some(wanted) => match class_of(scope, exception) {
            None => Ok(false),
            Some(actual) => {
                let chain = scope.classes().ancestors(actual);
                Ok(class::holds(&chain, wanted))
            },
        },
    }
}

/// Why a value's methods cannot be looked up.
pub fn no_class(value: Value) -> (r: Error)
    ensures
        error::refuses(r, "a method call"@, classless(value)),
{
    let operands: &'static str = match value.unpack() {
        Unpacked::Nil => "nil, whose NilClass the VM has not created yet",
        Unpacked::True => "true, whose TrueClass the VM has not created yet",
        Unpacked::False => "false, whose FalseClass the VM has not created yet",
        Unpacked::Flonum(_) => "a Float, whose class the VM has not created yet",
        _ => "a receiver whose class the VM has not created yet",
    };
    Error::refuse("a method call", operands)
}

} // verus!
