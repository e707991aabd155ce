//! A Ruby value as one tagged 64-bit word.
//!
//! The low bits say what the word is:
//!
//! | low bits | meaning |
//! |---|---|
//! | `1` | fixnum: the upper 63 bits are a signed integer |
//! | `10` | flonum: a rotated double |
//! | `0100` | `nil`, `false`, `true`, or the "no argument" marker |
//! | `1100` | symbol: the id sits eight bits up |
//! | `000` | heap object: the word is its 8-byte aligned address |
//!
//! Doubles travel as raw IEEE 754 bit patterns.

use vstd::prelude::*;
use vstd::string::*;

use crate::double::Floats;
use crate::text;
use crate::text::{integer, join3, number};

verus! {

/// An index into the symbol table.
#[derive(Debug, Clone, Copy, PartialEq, Eq, Structural, Hash, PartialOrd, Ord)]
pub struct SymbolId(pub u32);

/// A tagged word.
#[derive(Debug, Clone, Copy, PartialEq, Eq, Structural, Hash)]
pub struct Value {
    bits: u64,
}

/// What a [`Value`] is, with its tag removed.
#[derive(Debug, Clone, Copy, PartialEq, Eq, Structural)]
pub enum Unpacked {
    Fixnum(i64),
    /// The raw bits of the double.
    Flonum(u64),
    Symbol(SymbolId),
    Nil,
    False,
    True,
    Undef,
    /// The address of the object.
    Heap(u64),
}

/// The word of positive zero.
pub const FLONUM_ZERO: u64 = 0x8000_0000_0000_0002;

/// The one double inside the flonum band whose rotation is [`FLONUM_ZERO`].
pub const FLONUM_COLLIDES: u64 = 0x3000_0000_0000_0000;

/// Whether a double fits an immediate: it is positive zero, or the top three
/// bits of its exponent are `011` or `100` and it is not the colliding one.
pub open spec fn is_flonum(double: u64) -> bool {
    ||| double == 0
    ||| {
        &&& double != FLONUM_COLLIDES
        &&& ((double >> 60) & 7 == 3 || (double >> 60) & 7 == 4)
    }
}

/// The double a flonum word holds.
pub open spec fn flonum_bits(word: u64) -> u64 {
    if word == FLONUM_ZERO {
        0
    } else {
        let restored = ((2 - (word >> 63)) as u64) | (word & !3u64);
        (restored >> 3) | (restored << 61)
    }
}

/// What a word means.
pub open spec fn unpack_word(word: u64) -> Unpacked {
    if word & 1 == 1 {
        Unpacked::Fixnum((word as i64) >> 1)
    } else if word & 3 == 2 {
        Unpacked::Flonum(flonum_bits(word))
    } else if word & 15 == 12 {
        Unpacked::Symbol(SymbolId((word >> 8) as u32))
    } else if word & 15 == 4 {
        if word == 0x04 {
            Unpacked::Nil
        } else if word == 0x14 {
            Unpacked::False
        } else if word == 0x24 {
            Unpacked::True
        } else {
            Unpacked::Undef
        }
    } else {
        Unpacked::Heap(word)
    }
}

impl View for Value {
    type V = Unpacked;

    closed spec fn view(&self) -> Unpacked {
        unpack_word(self.bits)
    }
}

/// The bounds of a fixnum.
pub open spec fn fits_fixnum(n: int) -> bool {
    Value::FIXNUM_MIN <= n <= Value::FIXNUM_MAX
}

/// A heap address: aligned to eight bytes and not zero.
pub open spec fn is_heap_address(address: u64) -> bool {
    address != 0 && address % 8 == 0
}

impl Unpacked {
    /// The payloads a value can hold.
    pub open spec fn representable(self) -> bool {
        match self {
            Unpacked::Fixnum(n) => fits_fixnum(n as int),
            Unpacked::Flonum(double) => is_flonum(double),
            Unpacked::Heap(address) => is_heap_address(address),
            _ => true,
        }
    }
}

/// The word a payload is tagged as.
pub open spec fn pack_word(payload: Unpacked) -> u64 {
    match payload {
        Unpacked::Fixnum(n) => ((n as u64) << 1) | 1,
        Unpacked::Flonum(double) => if double == 0 {
            FLONUM_ZERO
        } else {
            (((double << 3) | (double >> 61)) & !3u64) | 2
        },
        Unpacked::Symbol(id) => ((id.0 as u64) << 8) | 12,
        Unpacked::Nil => 0x04,
        Unpacked::False => 0x14,
        Unpacked::True => 0x24,
        Unpacked::Undef => 0x34,
        Unpacked::Heap(address) => address,
    }
}

proof fn lemma_fixnum_words()
    by (bit_vector)
    ensures
        forall|n: i64|
            -0x4000_0000_0000_0000 <= n <= 0x3fff_ffff_ffff_ffff ==> {
                let w = #[trigger] ((n as u64) << 1) | 1;
                w & 1 == 1 && (w as i64) >> 1 == n && w != 0
            },
        forall|w: u64|
            #[trigger] (w & 1) == 1 ==> (((((w as i64) >> 1) as u64) << 1) | 1) == w && (w as i64)
                >> 1 >= -0x4000_0000_0000_0000 && (w as i64) >> 1 <= 0x3fff_ffff_ffff_ffff,
{
}

proof fn lemma_flonum_word(double: u64)
    by (bit_vector)
    requires
        double != 0,
        double != 0x3000_0000_0000_0000u64,
        (double >> 60) & 7 == 3 || (double >> 60) & 7 == 4,
    ensures
        ({
            let w = (((double << 3) | (double >> 61)) & !3u64) | 2;
            let restored = ((2 - (w >> 63)) as u64) | (w & !3u64);
            &&& w & 1 != 1
            &&& w & 3 == 2
            &&& w != 0x8000_0000_0000_0002u64
            &&& (restored >> 3) | (restored << 61) == double
        }),
{
}

proof fn lemma_flonum_double(w: u64)
    by (bit_vector)
    requires
        w & 3 == 2,
        w != 0x8000_0000_0000_0002u64,
    ensures
        ({
            let restored = ((2 - (w >> 63)) as u64) | (w & !3u64);
            let double = (restored >> 3) | (restored << 61);
            &&& double != 0
            &&& double != 0x3000_0000_0000_0000u64
            &&& (double >> 60) & 7 == 3 || (double >> 60) & 7 == 4
            &&& (((double << 3) | (double >> 61)) & !3u64) | 2 == w
        }),
{
}

proof fn lemma_symbol_word(id: u32)
    by (bit_vector)
    ensures
        ({
            let w = ((id as u64) << 8) | 12;
            w & 15 == 12 && w & 255 == 12 && (w >> 8) as u32 == id && w < 0x100_0000_0000u64
        }),
{
}

/// What the tag tests say of one word.
proof fn lemma_word(w: u64)
    by (bit_vector)
    ensures
        w & 1 == 1 ==> w & 3 != 2 && w & 15 != 12 && w & 15 != 4 && w != 0,
        w & 3 == 2 ==> w & 1 != 1 && w & 15 != 12 && w & 15 != 4 && w != 0,
        w & 15 == 12 ==> w & 1 != 1 && w & 3 != 2 && w != 0,
        w & 15 == 4 ==> w & 1 != 1 && w & 3 != 2 && w != 0,
        w == 0x04 || w == 0x14 || w == 0x24 || w == 0x34 ==> w & 15 == 4,
        w == 0x8000_0000_0000_0002u64 ==> w & 3 == 2,
        w & 7 == w % 8,
        w & 7 == 0 <==> (w & 1 != 1 && w & 3 != 2 && w & 15 != 12 && w & 15 != 4),
        (w | 0x10) == 0x14 <==> (w == 0x04 || w == 0x14),
        w & 255 == 12 && w < 0x100_0000_0000u64 ==> (((((w >> 8) as u32) as u64) << 8) | 12) == w,
{
}

/// Tagging then untagging gives the payload back.
pub proof fn law_unpack_of_pack(payload: Unpacked)
    requires
        payload.representable(),
    ensures
        unpack_word(pack_word(payload)) == payload,
        pack_word(payload) != 0,
{
    lemma_word(pack_word(payload));
    match payload {
        Unpacked::Fixnum(n) => {
            lemma_fixnum_words();
            let w = ((n as u64) << 1) | 1;
            assert(w & 1 == 1 && (w as i64) >> 1 == n);
        },
        Unpacked::Flonum(double) => {
            if double != 0 {
                lemma_flonum_word(double);
            }
        },
        Unpacked::Symbol(id) => {
            lemma_symbol_word(id.0);
        },
        _ => {},
    }
}

/// How everything but a double reads.
pub open spec fn plain_text(payload: Unpacked) -> Seq<char> {
    match payload {
        Unpacked::Fixnum(n) => text::decimal(n as int),
        Unpacked::Flonum(_) => Seq::empty(),
        Unpacked::Symbol(id) => "Symbol("@ + text::digits(id.0 as nat, 10) + ")"@,
        Unpacked::Nil => "nil"@,
        Unpacked::False => "false"@,
        Unpacked::True => "true"@,
        Unpacked::Undef => "undef"@,
        Unpacked::Heap(address) => "heap(0x"@ + text::digits(address as nat, 16) + ")"@,
    }
}

impl Value {
    pub const FIXNUM_MAX: i64 = 0x3fff_ffff_ffff_ffff;

    pub const FIXNUM_MIN: i64 = -0x4000_0000_0000_0000;

    /// The value holding `payload`.
    pub closed spec fn pack(payload: Unpacked) -> Value {
        Value { bits: pack_word(payload) }
    }

    /// The words the constructors build: every word but zero, a symbol with
    /// stray bits around its id, and a special constant that is none of the four.
    pub closed spec fn valid(self) -> bool {
        &&& self.bits != 0
        &&& self.bits & 15 == 12 ==> self.bits & 255 == 12 && self.bits < 0x100_0000_0000u64
        &&& self.bits & 15 == 4 ==> self.bits == 0x04 || self.bits == 0x14 || self.bits == 0x24
            || self.bits == 0x34
    }

    /// A packed payload reads back.
    pub broadcast proof fn law_pack(payload: Unpacked)
        requires
            payload.representable(),
        ensures
            (#[trigger] Value::pack(payload))@ == payload,
            Value::pack(payload).valid(),
    {
        law_unpack_of_pack(payload);
        lemma_word(pack_word(payload));
        if let Unpacked::Symbol(id) = payload {
            lemma_symbol_word(id.0);
        }
    }

    /// A value is exactly what it unpacks to: two values with one payload are
    /// one word, which is what makes word equality Ruby's `equal?`.
    pub broadcast proof fn law_identity(self)
        requires
            self.valid(),
        ensures
            (#[trigger] self@).representable(),
            Value::pack(self@) == self,
    {
        let w = self.bits;
        lemma_word(w);
        if w & 1 == 1 {
            lemma_fixnum_words();
        } else if w & 3 == 2 {
            if w != FLONUM_ZERO {
                lemma_flonum_double(w);
            }
        } else if w & 15 == 12 {
        } else if w & 15 == 4 {
        } else {
        }
    }

    /// A fixnum's word is determined by its integer, whatever else is known
    /// of it.
    pub proof fn law_fixnum_identity(self, n: i64)
        requires
            self@ == Unpacked::Fixnum(n),
        ensures
            self == Value::pack(Unpacked::Fixnum(n)),
            fits_fixnum(n as int),
    {
        lemma_fixnum_words();
        let w = self.bits;
        assert(w & 1 == 1);
    }

    /// The same for the address of a heap value.
    pub proof fn law_heap_identity(self, address: u64)
        requires
            self@ == Unpacked::Heap(address),
        ensures
            self == Value::pack(Unpacked::Heap(address)),
    {
    }

    /// `nil`.
    pub fn nil() -> (r: Value)
        ensures
            r == Value::pack(Unpacked::Nil),
    {
        Value { bits: 0x04 }
    }

    /// `false`.
    pub fn false_() -> (r: Value)
        ensures
            r == Value::pack(Unpacked::False),
    {
        Value { bits: 0x14 }
    }

    /// `true`.
    pub fn true_() -> (r: Value)
        ensures
            r == Value::pack(Unpacked::True),
    {
        Value { bits: 0x24 }
    }

    /// "No argument was supplied". Never visible to a Ruby program.
    pub fn undef() -> (r: Value)
        ensures
            r == Value::pack(Unpacked::Undef),
    {
        Value { bits: 0x34 }
    }

    /// An integer as an immediate, or `None` when it needs a bignum.
    pub fn fixnum(n: i64) -> (r: Option<Value>)
        ensures
            r == if fits_fixnum(n as int) {
                Some(Value::pack(Unpacked::Fixnum(n)))
            } else {
                None
            },
    {
        if n < Value::FIXNUM_MIN || n > Value::FIXNUM_MAX {
            return None;
        }
        Some(Value { bits: ((n as u64) << 1) | 1 })
    }

    /// A double as an immediate, or `None` when it needs a heap `Float`.
    pub fn flonum(double: u64) -> (r: Option<Value>)
        ensures
            r == if is_flonum(double) {
                Some(Value::pack(Unpacked::Flonum(double)))
            } else {
                None
            },
    {
        let exponent: u64 = (double >> 60) & 7;
        if double == 0 {
            Some(Value { bits: FLONUM_ZERO })
        } else if double != FLONUM_COLLIDES && (exponent == 3 || exponent == 4) {
            Some(Value { bits: (((double << 3) | (double >> 61)) & !3u64) | 2 })
        } else {
            None
        }
    }

    /// A symbol.
    pub fn symbol(id: SymbolId) -> (r: Value)
        ensures
            r == Value::pack(Unpacked::Symbol(id)),
    {
        Value { bits: ((id.0 as u64) << 8) | 12 }
    }

    /// The object at `address`.
    pub fn heap(address: u64) -> (r: Value)
        requires
            is_heap_address(address),
        ensures
            r == Value::pack(Unpacked::Heap(address)),
    {
        Value { bits: address }
    }

    /// The integer, if this is a fixnum.
    pub fn as_fixnum(self) -> (r: Option<i64>)
        ensures
            r == match self@ {
                Unpacked::Fixnum(n) => Some(n),
                _ => None,
            },
    {
        if self.bits & 1 == 1 {
            Some((self.bits as i64) >> 1)
        } else {
            None
        }
    }

    /// The bits of the double, if this is a flonum.
    pub fn as_flonum(self) -> (r: Option<u64>)
        ensures
            r == match self@ {
                Unpacked::Flonum(double) => Some(double),
                _ => None,
            },
    {
        let v: u64 = self.bits;
        proof {
            lemma_word(v);
        }
        if v & 3 != 2 {
            return None;
        }
        if v == FLONUM_ZERO {
            return Some(0);
        }
        assert(v >> 63 <= 1) by (bit_vector);
        let restored: u64 = (2 - (v >> 63)) | (v & !3u64);
        Some((restored >> 3) | (restored << 61))
    }

    /// The symbol's id, if this is one.
    pub fn as_symbol(self) -> (r: Option<SymbolId>)
        ensures
            r == match self@ {
                Unpacked::Symbol(id) => Some(id),
                _ => None,
            },
    {
        proof {
            lemma_word(self.bits);
        }
        if self.bits & 15 == 12 {
            Some(SymbolId((self.bits >> 8) as u32))
        } else {
            None
        }
    }

    /// The object's address, if this is a heap value.
    pub fn as_heap(self) -> (r: Option<u64>)
        ensures
            r == match self@ {
                Unpacked::Heap(address) => Some(address),
                _ => None,
            },
    {
        proof {
            lemma_word(self.bits);
        }
        if self.bits & 7 == 0 {
            Some(self.bits)
        } else {
            None
        }
    }

    /// Ruby truth: everything but `nil` and `false`.
    pub fn is_truthy(self) -> (r: bool)
        ensures
            r == !(self@ is Nil || self@ is False),
    {
        proof {
            lemma_word(self.bits);
        }
        (self.bits | 0x10) != 0x14
    }

    /// Whether this is `nil`.
    pub fn is_nil(self) -> (r: bool)
        ensures
            r == (self@ is Nil),
            r == (self == Value::pack(Unpacked::Nil)),
    {
        proof {
            lemma_word(self.bits);
        }
        self.bits == 0x04
    }

    /// Whether the word is the value, rather than the address of one.
    pub fn is_immediate(self) -> (r: bool)
        ensures
            r == !(self@ is Heap),
    {
        proof {
            lemma_word(self.bits);
        }
        self.bits & 7 != 0
    }

    /// The payload.
    pub fn unpack(self) -> (r: Unpacked)
        ensures
            r == self@,
    {
        let v: u64 = self.bits;
        if v & 1 == 1 {
            return Unpacked::Fixnum((v as i64) >> 1);
        }
        if let Some(double) = self.as_flonum() {
            return Unpacked::Flonum(double);
        }
        if v & 15 == 12 {
            return Unpacked::Symbol(SymbolId((v >> 8) as u32));
        }
        if v & 15 == 4 {
            return if v == 0x04 {
                Unpacked::Nil
            } else if v == 0x14 {
                Unpacked::False
            } else if v == 0x24 {
                Unpacked::True
            } else {
                Unpacked::Undef
            };
        }
        Unpacked::Heap(v)
    }

    /// How a value reads. What a double reads as is left to `floats`.
    pub fn describe<F: Floats>(self, floats: &F) -> (r: String)
        ensures
            match self@ {
                Unpacked::Flonum(double) => call_ensures(F::text, (floats, double), r),
                other => r@ == plain_text(other),
            },
    {
        match self.unpack() {
            Unpacked::Fixnum(n) => integer(n),
            Unpacked::Flonum(double) => floats.text(double),
            Unpacked::Symbol(SymbolId(id)) => join3(
                "Symbol(",
                number(id as u64, 10).as_str(),
                ")",
            ),
            Unpacked::Nil => "nil".to_owned(),
            Unpacked::False => "false".to_owned(),
            Unpacked::True => "true".to_owned(),
            Unpacked::Undef => "undef".to_owned(),
            Unpacked::Heap(address) => join3("heap(0x", number(address, 16).as_str(), ")"),
        }
    }

    /// The tagged word itself.
    pub fn to_bits(self) -> (r: u64)
        ensures
            r == self.word(),
    {
        self.bits
    }

    /// The tagged word itself.
    pub closed spec fn word(self) -> u64 {
        self.bits
    }

    /// The word of a packed payload.
    pub broadcast proof fn law_word(payload: Unpacked)
        ensures
            (#[trigger] Value::pack(payload)).word() == pack_word(payload),
    {
    }
}

} // verus!
