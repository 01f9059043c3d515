pub mod cpu;
pub mod mapper;
pub mod memory;
pub mod regions;

use crate::common::{Error, ErrorKind};
use vstd::prelude::*;

verus! {

/// A value with a one-bit tag that says whether it is a reference into the heap.
#[derive(PartialEq, Eq, Structural, Clone, Copy, Debug)]
pub struct DataValue<T> {
    pub value: T,
    pub is_reference: bool,
}

/// A tagged machine word.
pub type DataWord = DataValue<u64>;

/// `2` to the sixty-fourth.
pub open spec fn word_modulus() -> int {
    0x1_0000_0000_0000_0000
}

impl<T> DataValue<T> {
    /// The value, which must be tagged as a reference.
    pub fn expect_reference(self) -> (r: Result<T, Error>)
        ensures
            r matches Ok(v) ==> self.is_reference && v == self.value,
            r matches Err(e) ==> !self.is_reference && e.kind == ErrorKind::TypeMismatch,
    {
        if !self.is_reference {
            Err(Error::of_kind(ErrorKind::TypeMismatch, "Expected a reference, but found data"))
        } else {
            Ok(self.value)
        }
    }

    /// The value, which must not be tagged as a reference.
    pub fn expect_data(self) -> (r: Result<T, Error>)
        ensures
            r matches Ok(v) ==> !self.is_reference && v == self.value,
            r matches Err(e) ==> self.is_reference && e.kind == ErrorKind::TypeMismatch,
    {
        if self.is_reference {
            Err(Error::of_kind(ErrorKind::TypeMismatch, "Expected data, but found a reference"))
        } else {
            Ok(self.value)
        }
    }

    /// The value transformed, with the tag kept.
    pub fn map<U, F: FnOnce(T) -> U>(self, f: F) -> (r: DataValue<U>)
        requires
            f.requires((self.value,)),
        ensures
            f.ensures((self.value,), r.value),
            r.is_reference == self.is_reference,
    {
        DataValue { value: f(self.value), is_reference: self.is_reference }
    }

    /// Two values combined; the result is a reference if either was.
    pub fn combine<U, V, F: FnOnce(T, U) -> V>(self, other: DataValue<U>, f: F) -> (r: DataValue<V>)
        requires
            f.requires((self.value, other.value)),
        ensures
            f.ensures((self.value, other.value), r.value),
            r.is_reference == (self.is_reference || other.is_reference),
    {
        DataValue { value: f(self.value, other.value), is_reference: self.is_reference || other.is_reference }
    }
}

impl DataValue<u64> {
    /// Sum modulo `2^64`, and whether it wrapped.
    pub fn overflowing_add(self, other: DataWord) -> (r: (DataWord, bool))
        ensures
            r.0.value == (self.value + other.value) % word_modulus(),
            r.1 == (self.value + other.value >= word_modulus()),
            r.0.is_reference == (self.is_reference || other.is_reference),
    {
        let (v, c) = if self.value <= u64::MAX - other.value {
            (self.value + other.value, false)
        } else {
            (self.value - (u64::MAX - other.value) - 1, true)
        };
        (DataWord { value: v, is_reference: self.is_reference || other.is_reference }, c)
    }

    /// Difference modulo `2^64`, and whether it wrapped.
    pub fn overflowing_sub(self, other: DataWord) -> (r: (DataWord, bool))
        ensures
            r.0.value == (self.value - other.value + word_modulus()) % word_modulus(),
            r.1 == (self.value < other.value),
            r.0.is_reference == (self.is_reference || other.is_reference),
    {
        let (v, c) = if self.value >= other.value {
            (self.value - other.value, false)
        } else {
            (u64::MAX - (other.value - self.value) + 1, true)
        };
        (DataWord { value: v, is_reference: self.is_reference || other.is_reference }, c)
    }

    /// Product modulo `2^64`, and whether it wrapped.
    pub fn overflowing_mul(self, other: DataWord) -> (r: (DataWord, bool))
        ensures
            r.0.value == (self.value * other.value) % word_modulus(),
            r.1 == (self.value * other.value >= word_modulus()),
            r.0.is_reference == (self.is_reference || other.is_reference),
    {
        proof {
            assert((self.value as int) * (other.value as int) <= (u64::MAX as int) * (u64::MAX as int)) by (nonlinear_arith)
                requires self.value <= u64::MAX, other.value <= u64::MAX;
        }
        let wide = (self.value as u128) * (other.value as u128);
        let v = (wide % 0x1_0000_0000_0000_0000u128) as u64;
        (DataWord { value: v, is_reference: self.is_reference || other.is_reference }, wide >= 0x1_0000_0000_0000_0000u128)
    }

    /// Quotient; it never wraps. Division by zero is an error.
    pub fn overflowing_div(self, other: DataWord) -> (r: Result<(DataWord, bool), Error>)
        ensures
            r is Err <==> other.value == 0,
            r matches Err(e) ==> e.kind == ErrorKind::DivideByZero,
            r matches Ok((w, c)) ==> w.value == self.value / other.value && !c
                && w.is_reference == (self.is_reference || other.is_reference),
    {
        if other.value == 0 {
            return Err(Error::of_kind(ErrorKind::DivideByZero, "Division by zero"));
        }
        Ok((DataWord { value: self.value / other.value, is_reference: self.is_reference || other.is_reference }, false))
    }

    /// Left shift by the other value taken modulo 64, as a wrapping shift does; it
    /// overflows when the other value is 64 or more.
    pub fn overflowing_shl(self, other: DataWord) -> (r: (DataWord, bool))
        ensures
            r.0.value == self.value << (other.value % 64),
            r.1 == (other.value >= 64),
            r.0.is_reference == (self.is_reference || other.is_reference),
    {
        (DataWord { value: self.value << (other.value % 64), is_reference: self.is_reference || other.is_reference }, other.value >= 64)
    }

    /// Right shift by the other value taken modulo 64, as a wrapping shift does; it
    /// overflows when the other value is 64 or more.
    pub fn overflowing_shr(self, other: DataWord) -> (r: (DataWord, bool))
        ensures
            r.0.value == self.value >> (other.value % 64),
            r.1 == (other.value >= 64),
            r.0.is_reference == (self.is_reference || other.is_reference),
    {
        (DataWord { value: self.value >> (other.value % 64), is_reference: self.is_reference || other.is_reference }, other.value >= 64)
    }
}

} // verus!
