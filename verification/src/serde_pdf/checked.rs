//! Addition and multiplication that report overflow, for the integer types that the reader
//! parses numbers into.
use vstd::prelude::*;

verus! {

/// Adds two numbers, checking for overflow.
pub trait CheckedAdd: Sized {
    /// The number as an integer.
    spec fn int_value(&self) -> int;

    /// Whether the integer `n` is a value of the type.
    spec fn in_range(n: int) -> bool;

    /// Adds two numbers: `None` where the sum is no value of the type.
    fn checked_add(&self, v: &Self) -> (r: Option<Self>)
        ensures
            match r {
                Some(s) => s.int_value() == self.int_value() + v.int_value(),
                None => !Self::in_range(self.int_value() + v.int_value()),
            },
    ;
}

/// Multiplies two numbers, checking for overflow.
pub trait CheckedMul: Sized {
    /// The number as an integer.
    spec fn int_value(&self) -> int;

    /// Whether the integer `n` is a value of the type.
    spec fn in_range(n: int) -> bool;

    /// Multiplies two numbers: `None` where the product is no value of the type.
    fn checked_mul(&self, v: &Self) -> (r: Option<Self>)
        ensures
            match r {
                Some(s) => s.int_value() == self.int_value() * v.int_value(),
                None => !Self::in_range(self.int_value() * v.int_value()),
            },
    ;
}

impl CheckedAdd for u8 {
    open spec fn int_value(&self) -> int {
        *self as int
    }

    open spec fn in_range(n: int) -> bool {
        0 <= n <= u8::MAX
    }

    fn checked_add(&self, v: &u8) -> (r: Option<u8>) {
        u8::checked_add(*self, *v)
    }
}

impl CheckedMul for u8 {
    open spec fn int_value(&self) -> int {
        *self as int
    }

    open spec fn in_range(n: int) -> bool {
        0 <= n <= u8::MAX
    }

    fn checked_mul(&self, v: &u8) -> (r: Option<u8>) {
        u8::checked_mul(*self, *v)
    }
}

impl CheckedAdd for u16 {
    open spec fn int_value(&self) -> int {
        *self as int
    }

    open spec fn in_range(n: int) -> bool {
        0 <= n <= u16::MAX
    }

    fn checked_add(&self, v: &u16) -> (r: Option<u16>) {
        u16::checked_add(*self, *v)
    }
}

impl CheckedMul for u16 {
    open spec fn int_value(&self) -> int {
        *self as int
    }

    open spec fn in_range(n: int) -> bool {
        0 <= n <= u16::MAX
    }

    fn checked_mul(&self, v: &u16) -> (r: Option<u16>) {
        u16::checked_mul(*self, *v)
    }
}

impl CheckedAdd for u32 {
    open spec fn int_value(&self) -> int {
        *self as int
    }

    open spec fn in_range(n: int) -> bool {
        0 <= n <= u32::MAX
    }

    fn checked_add(&self, v: &u32) -> (r: Option<u32>) {
        u32::checked_add(*self, *v)
    }
}

impl CheckedMul for u32 {
    open spec fn int_value(&self) -> int {
        *self as int
    }

    open spec fn in_range(n: int) -> bool {
        0 <= n <= u32::MAX
    }

    fn checked_mul(&self, v: &u32) -> (r: Option<u32>) {
        u32::checked_mul(*self, *v)
    }
}

impl CheckedAdd for u64 {
    open spec fn int_value(&self) -> int {
        *self as int
    }

    open spec fn in_range(n: int) -> bool {
        0 <= n <= u64::MAX
    }

    fn checked_add(&self, v: &u64) -> (r: Option<u64>) {
        u64::checked_add(*self, *v)
    }
}

impl CheckedMul for u64 {
    open spec fn int_value(&self) -> int {
        *self as int
    }

    open spec fn in_range(n: int) -> bool {
        0 <= n <= u64::MAX
    }

    fn checked_mul(&self, v: &u64) -> (r: Option<u64>) {
        u64::checked_mul(*self, *v)
    }
}

impl CheckedAdd for i8 {
    open spec fn int_value(&self) -> int {
        *self as int
    }

    open spec fn in_range(n: int) -> bool {
        i8::MIN <= n <= i8::MAX
    }

    fn checked_add(&self, v: &i8) -> (r: Option<i8>) {
        i8::checked_add(*self, *v)
    }
}

impl CheckedMul for i8 {
    open spec fn int_value(&self) -> int {
        *self as int
    }

    open spec fn in_range(n: int) -> bool {
        i8::MIN <= n <= i8::MAX
    }

    fn checked_mul(&self, v: &i8) -> (r: Option<i8>) {
        i8::checked_mul(*self, *v)
    }
}

impl CheckedAdd for i16 {
    open spec fn int_value(&self) -> int {
        *self as int
    }

    open spec fn in_range(n: int) -> bool {
        i16::MIN <= n <= i16::MAX
    }

    fn checked_add(&self, v: &i16) -> (r: Option<i16>) {
        i16::checked_add(*self, *v)
    }
}

impl CheckedMul for i16 {
    open spec fn int_value(&self) -> int {
        *self as int
    }

    open spec fn in_range(n: int) -> bool {
        i16::MIN <= n <= i16::MAX
    }

    fn checked_mul(&self, v: &i16) -> (r: Option<i16>) {
        i16::checked_mul(*self, *v)
    }
}

impl CheckedAdd for i32 {
    open spec fn int_value(&self) -> int {
        *self as int
    }

    open spec fn in_range(n: int) -> bool {
        i32::MIN <= n <= i32::MAX
    }

    fn checked_add(&self, v: &i32) -> (r: Option<i32>) {
        i32::checked_add(*self, *v)
    }
}

impl CheckedMul for i32 {
    open spec fn int_value(&self) -> int {
        *self as int
    }

    open spec fn in_range(n: int) -> bool {
        i32::MIN <= n <= i32::MAX
    }

    fn checked_mul(&self, v: &i32) -> (r: Option<i32>) {
        i32::checked_mul(*self, *v)
    }
}

impl CheckedAdd for i64 {
    open spec fn int_value(&self) -> int {
        *self as int
    }

    open spec fn in_range(n: int) -> bool {
        i64::MIN <= n <= i64::MAX
    }

    fn checked_add(&self, v: &i64) -> (r: Option<i64>) {
        i64::checked_add(*self, *v)
    }
}

impl CheckedMul for i64 {
    open spec fn int_value(&self) -> int {
        *self as int
    }

    open spec fn in_range(n: int) -> bool {
        i64::MIN <= n <= i64::MAX
    }

    fn checked_mul(&self, v: &i64) -> (r: Option<i64>) {
        i64::checked_mul(*self, *v)
    }
}

} // verus!
