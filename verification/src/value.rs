//! Values: one 64-bit handle. Immediate values carry their payload in the
//! handle itself and have bit 0 set; immediate numbers have the low two bits
//! `01`.

use vstd::prelude::*;
use vstd::std_specs::convert::FromSpecImpl;

verus! {

/// A value, as the one word that stands for it.
pub struct Value {
    pub handle: u64,
}

/// The handle of nil.
pub const NIL_HANDLE: u64 = 7;

/// The handle of true: all bits set.
pub const TRUE_HANDLE: u64 = 0xFFFF_FFFF_FFFF_FFFF;

/// The handle of false: all bits set but bit 3.
pub const FALSE_HANDLE: u64 = 0xFFFF_FFFF_FFFF_FFF7;

impl Value {
    /// Nil.
    #[allow(non_snake_case)]
    pub fn NIL() -> (v: Value)
        ensures
            v.handle == NIL_HANDLE,
    {
        Value { handle: NIL_HANDLE }
    }

    /// True.
    #[allow(non_snake_case)]
    pub fn TRUE() -> (v: Value)
        ensures
            v.handle == TRUE_HANDLE,
    {
        Value { handle: TRUE_HANDLE }
    }

    /// False.
    #[allow(non_snake_case)]
    pub fn FALSE() -> (v: Value)
        ensures
            v.handle == FALSE_HANDLE,
    {
        Value { handle: FALSE_HANDLE }
    }

    /// Whether the value lives in its handle: bit 0 is set.
    pub fn is_immediate(&self) -> (r: bool)
        ensures
            r == (self.handle % 2 == 1),
    {
        let h = self.handle;
        let r = h & 1 == 1;
        assert(r == (h % 2 == 1)) by (bit_vector)
            requires
                r == (h & 1 == 1),
        ;
        r
    }

    /// Whether the value is nil.
    pub fn is_nil(&self) -> (r: bool)
        ensures
            r == (self.handle == NIL_HANDLE),
    {
        self.handle == NIL_HANDLE
    }

    /// Whether the value is true.
    pub fn is_true(&self) -> (r: bool)
        ensures
            r == (self.handle == TRUE_HANDLE),
    {
        self.handle == TRUE_HANDLE
    }

    /// Whether the value is false.
    pub fn is_false(&self) -> (r: bool)
        ensures
            r == (self.handle == FALSE_HANDLE),
    {
        self.handle == FALSE_HANDLE
    }

    /// Whether the value counts as false in a test: nil or false.
    pub fn is_not(&self) -> (r: bool)
        ensures
            r == (self.handle == NIL_HANDLE || self.handle == FALSE_HANDLE),
    {
        self.is_nil() || self.is_false()
    }

    /// Whether the value counts as true in a test: neither nil nor false.
    pub fn is_so(&self) -> (r: bool)
        ensures
            r == !(self.handle == NIL_HANDLE || self.handle == FALSE_HANDLE),
    {
        !self.is_not()
    }

    /// Whether the value is a number held in the handle: low bits `01`.
    pub fn is_immediate_number(&self) -> (r: bool)
        ensures
            r == (self.handle % 4 == 1),
    {
        let h = self.handle;
        let r = h & 3 == 1;
        assert(r == (h % 4 == 1)) by (bit_vector)
            requires
                r == (h & 3 == 1),
        ;
        r
    }
}

/// The handle of the immediate number `x`: `x` shifted past the two tag
/// bits, tagged `01`. The top two bits of `x` do not fit.
pub open spec fn number_handle(x: u64) -> u64 {
    ((x as nat * 4 + 1) % 0x1_0000_0000_0000_0000) as u64
}

/// The number an immediate number's handle holds.
pub open spec fn handle_number(h: u64) -> u64 {
    h / 4
}

impl From<u64> for Value {
    fn from(x: u64) -> (v: Value) {
        let h = (x << 2u64) | 1;
        assert(h as nat == (x as nat * 4 + 1) % 0x1_0000_0000_0000_0000) by (bit_vector)
            requires
                h == (x << 2u64) | 1,
        ;
        Value { handle: h }
    }
}

impl FromSpecImpl<u64> for Value {
    open spec fn obeys_from_spec() -> bool {
        true
    }

    open spec fn from_spec(x: u64) -> Value {
        Value { handle: number_handle(x) }
    }
}

impl From<Value> for u64 {
    fn from(v: Value) -> (x: u64) {
        let h = v.handle;
        let x = h >> 2u64;
        assert(x == h / 4) by (bit_vector)
            requires
                x == h >> 2u64,
        ;
        x
    }
}

impl FromSpecImpl<Value> for u64 {
    open spec fn obeys_from_spec() -> bool {
        true
    }

    open spec fn from_spec(v: Value) -> u64 {
        handle_number(v.handle)
    }
}

/// A number below 2 to the 62nd comes back out of the value made from it,
/// and that value is an immediate number.
pub proof fn lemma_number_roundtrip(x: u64)
    requires
        x < 0x4000_0000_0000_0000,
    ensures
        handle_number(number_handle(x)) == x,
        number_handle(x) % 4 == 1,
{
    let h = number_handle(x);
    assert(h as nat == x as nat * 4 + 1) by {
        vstd::arithmetic::div_mod::lemma_small_mod(x as nat * 4 + 1, 0x1_0000_0000_0000_0000);
    }
}

}
