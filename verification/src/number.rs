use vstd::prelude::*;

use crate::error::{bad_request, TCError};

verus! {

/// The class of an integer value.
#[derive(Clone, Copy, Debug, PartialEq, Eq, Structural)]
pub enum IntType {
    I16,
    I32,
    I64,
}

/// The class of an unsigned integer value.
#[derive(Clone, Copy, Debug, PartialEq, Eq, Structural)]
pub enum UIntType {
    U8,
    U16,
    U32,
    U64,
}

/// The class of a number value.
#[derive(Clone, Copy, Debug, PartialEq, Eq, Structural)]
pub enum NumberType {
    Bool,
    Int(IntType),
    UInt(UIntType),
}

/// Every number value of the core implements this marker.
pub trait Numeric {
}

/// A signed integer of one of the supported widths.
#[derive(Clone, Copy, Debug, PartialEq, Eq, Structural)]
pub enum Int {
    I16(i16),
    I32(i32),
    I64(i64),
}

/// An unsigned integer of one of the supported widths.
#[derive(Clone, Copy, Debug, PartialEq, Eq, Structural)]
pub enum UInt {
    U8(u8),
    U16(u16),
    U32(u32),
    U64(u64),
}

/// A number value: a boolean, a signed or an unsigned integer.
#[derive(Clone, Copy, Debug, PartialEq, Eq, Structural)]
pub enum Number {
    Bool(bool),
    Int(Int),
    UInt(UInt),
}

impl Numeric for Int {
}

impl Numeric for UInt {
}

impl Numeric for Number {
}

impl Int {
    /// The mathematical value this variant holds.
    pub open spec fn spec_value(self) -> int {
        match self {
            Int::I16(i) => i as int,
            Int::I32(i) => i as int,
            Int::I64(i) => i as int,
        }
    }

    pub fn class(&self) -> (r: IntType)
        ensures
            r == (match *self {
                Int::I16(_) => IntType::I16,
                Int::I32(_) => IntType::I32,
                Int::I64(_) => IntType::I64,
            }),
    {
        match self {
            Int::I16(_) => IntType::I16,
            Int::I32(_) => IntType::I32,
            Int::I64(_) => IntType::I64,
        }
    }

    /// The absolute value, in the same width.
    pub fn abs(&self) -> (r: Int)
        requires
            self.spec_value() != i64::MIN,
            self.spec_value() != i32::MIN || !(self matches Int::I32(_)),
            self.spec_value() != i16::MIN || !(self matches Int::I16(_)),
        ensures
            r.spec_value() == (if self.spec_value() < 0 {
                -self.spec_value()
            } else {
                self.spec_value()
            }),
            r.class_spec() == self.class_spec(),
    {
        match self {
            Int::I16(i) => Int::I16(if *i < 0 { -*i } else { *i }),
            Int::I32(i) => Int::I32(if *i < 0 { -*i } else { *i }),
            Int::I64(i) => Int::I64(if *i < 0 { -*i } else { *i }),
        }
    }

    pub open spec fn class_spec(self) -> IntType {
        match self {
            Int::I16(_) => IntType::I16,
            Int::I32(_) => IntType::I32,
            Int::I64(_) => IntType::I64,
        }
    }

    /// The sum, in the wider of the two widths; the mathematical sum must
    /// fit that width.
    pub fn add(self, other: Int) -> (r: Int)
        requires
            in_int_range(self.class_spec().join_spec(other.class_spec()),
                self.spec_value() + other.spec_value()),
        ensures
            r.spec_value() == self.spec_value() + other.spec_value(),
            r.class_spec() == self.class_spec().join_spec(other.class_spec()),
    {
        match (self, other) {
            (Int::I64(l), Int::I64(r)) => Int::I64(l + r),
            (Int::I64(l), Int::I32(r)) => Int::I64(l + r as i64),
            (Int::I64(l), Int::I16(r)) => Int::I64(l + r as i64),
            (Int::I32(l), Int::I64(r)) => Int::I64(l as i64 + r),
            (Int::I32(l), Int::I32(r)) => Int::I32(l + r),
            (Int::I32(l), Int::I16(r)) => Int::I32(l + r as i32),
            (Int::I16(l), Int::I64(r)) => Int::I64(l as i64 + r),
            (Int::I16(l), Int::I32(r)) => Int::I32(l as i32 + r),
            (Int::I16(l), Int::I16(r)) => Int::I16(l + r),
        }
    }

    /// The product, in the wider of the two widths; the mathematical product
    /// must fit that width.
    pub fn mul(self, other: Int) -> (r: Int)
        requires
            in_int_range(self.class_spec().join_spec(other.class_spec()),
                self.spec_value() * other.spec_value()),
        ensures
            r.spec_value() == self.spec_value() * other.spec_value(),
            r.class_spec() == self.class_spec().join_spec(other.class_spec()),
    {
        match (self, other) {
            (Int::I64(l), Int::I64(r)) => Int::I64(l * r),
            (Int::I64(l), Int::I32(r)) => Int::I64(l * r as i64),
            (Int::I64(l), Int::I16(r)) => Int::I64(l * r as i64),
            (Int::I32(l), Int::I64(r)) => Int::I64(l as i64 * r),
            (Int::I32(l), Int::I32(r)) => Int::I32(l * r),
            (Int::I32(l), Int::I16(r)) => Int::I32(l * r as i32),
            (Int::I16(l), Int::I64(r)) => Int::I64(l as i64 * r),
            (Int::I16(l), Int::I32(r)) => Int::I32(l as i32 * r),
            (Int::I16(l), Int::I16(r)) => Int::I16(l * r),
        }
    }

    /// Whether the value is not zero.
    pub fn to_bool(self) -> (r: bool)
        ensures
            r == (self.spec_value() != 0),
    {
        match self {
            Int::I16(i) => i != 0,
            Int::I32(i) => i != 0,
            Int::I64(i) => i != 0,
        }
    }

    pub fn into_i64(self) -> (r: i64)
        ensures
            r == self.spec_value(),
    {
        match self {
            Int::I16(i) => i as i64,
            Int::I32(i) => i as i64,
            Int::I64(i) => i,
        }
    }

    /// This value as an `i16`, when the variant holds one.
    pub fn try_into_i16(self) -> (r: Result<i16, TCError>)
        ensures
            r.is_ok() <==> self matches Int::I16(_),
            r.is_ok() ==> r->Ok_0 == self.spec_value(),
            r.is_err() ==> r->Err_0.spec_kind() == crate::error::ErrorKind::BadRequest,
    {
        match self {
            Int::I16(i) => Ok(i),
            _ => Err(bad_request("expected a sixteen-bit integer".to_owned())),
        }
    }

    /// This value as an `i32`, when the variant holds one.
    pub fn try_into_i32(self) -> (r: Result<i32, TCError>)
        ensures
            r.is_ok() <==> self matches Int::I32(_),
            r.is_ok() ==> r->Ok_0 == self.spec_value(),
            r.is_err() ==> r->Err_0.spec_kind() == crate::error::ErrorKind::BadRequest,
    {
        match self {
            Int::I32(i) => Ok(i),
            _ => Err(bad_request("expected a thirty-two-bit integer".to_owned())),
        }
    }

    /// The unsigned value reinterpreted in the signed width that matches
    /// its own: a value past the signed range wraps around.
    pub fn from_uint(u: UInt) -> (r: Int)
        ensures
            r == (match u {
                UInt::U8(v) => Int::I16(v as i16),
                UInt::U16(v) => Int::I16(v as i16),
                UInt::U32(v) => Int::I32(v as i32),
                UInt::U64(v) => Int::I64(v as i64),
            }),
    {
        match u {
            UInt::U64(v) => Int::I64(v as i64),
            UInt::U32(v) => Int::I32(v as i32),
            UInt::U16(v) => Int::I16(v as i16),
            UInt::U8(v) => Int::I16(v as i16),
        }
    }

    pub fn from_bool(b: bool) -> (r: Int)
        ensures
            r.spec_value() == (if b {
                1int
            } else {
                0int
            }),
            r.class_spec() == IntType::I16,
    {
        if b {
            Int::I16(1)
        } else {
            Int::I16(0)
        }
    }
}

impl IntType {
    /// The wider of two widths; mixed operands widen to the larger class.
    pub open spec fn join_spec(self, other: IntType) -> IntType {
        match (self, other) {
            (IntType::I64, _) => IntType::I64,
            (_, IntType::I64) => IntType::I64,
            (IntType::I32, _) => IntType::I32,
            (_, IntType::I32) => IntType::I32,
            _ => IntType::I16,
        }
    }
}

/// Whether `v` fits the signed width `t`.
pub open spec fn in_int_range(t: IntType, v: int) -> bool {
    match t {
        IntType::I16 => i16::MIN <= v <= i16::MAX,
        IntType::I32 => i32::MIN <= v <= i32::MAX,
        IntType::I64 => i64::MIN <= v <= i64::MAX,
    }
}

impl UInt {
    /// The mathematical value this variant holds.
    pub open spec fn spec_value(self) -> int {
        match self {
            UInt::U8(u) => u as int,
            UInt::U16(u) => u as int,
            UInt::U32(u) => u as int,
            UInt::U64(u) => u as int,
        }
    }

    pub open spec fn class_spec(self) -> UIntType {
        match self {
            UInt::U8(_) => UIntType::U8,
            UInt::U16(_) => UIntType::U16,
            UInt::U32(_) => UIntType::U32,
            UInt::U64(_) => UIntType::U64,
        }
    }

    pub fn class(&self) -> (r: UIntType)
        ensures
            r == self.class_spec(),
    {
        match self {
            UInt::U8(_) => UIntType::U8,
            UInt::U16(_) => UIntType::U16,
            UInt::U32(_) => UIntType::U32,
            UInt::U64(_) => UIntType::U64,
        }
    }

    /// The absolute value of an unsigned integer is itself.
    pub fn abs(&self) -> (r: UInt)
        ensures
            r == *self,
    {
        *self
    }

    /// Whether the value is not zero.
    pub fn to_bool(self) -> (r: bool)
        ensures
            r == (self.spec_value() != 0),
    {
        match self {
            UInt::U8(u) => u != 0,
            UInt::U16(u) => u != 0,
            UInt::U32(u) => u != 0,
            UInt::U64(u) => u != 0,
        }
    }

    pub fn into_u64(self) -> (r: u64)
        ensures
            r == self.spec_value(),
    {
        match self {
            UInt::U8(u) => u as u64,
            UInt::U16(u) => u as u64,
            UInt::U32(u) => u as u64,
            UInt::U64(u) => u,
        }
    }

    /// This value as a `u64`, when the variant holds one.
    pub fn try_into_u64(self) -> (r: Result<u64, TCError>)
        ensures
            r.is_ok() <==> self matches UInt::U64(_),
            r.is_ok() ==> r->Ok_0 == self.spec_value(),
            r.is_err() ==> r->Err_0.spec_kind() == crate::error::ErrorKind::BadRequest,
    {
        match self {
            UInt::U64(u) => Ok(u),
            _ => Err(bad_request("expected a sixty-four-bit unsigned integer".to_owned())),
        }
    }
}

impl Number {
    /// The class of this value.
    pub open spec fn class_spec(self) -> NumberType {
        match self {
            Number::Bool(_) => NumberType::Bool,
            Number::Int(i) => NumberType::Int(i.class_spec()),
            Number::UInt(u) => NumberType::UInt(u.class_spec()),
        }
    }

    pub fn class(&self) -> (r: NumberType)
        ensures
            r == self.class_spec(),
    {
        match self {
            Number::Bool(_) => NumberType::Bool,
            Number::Int(i) => NumberType::Int(i.class()),
            Number::UInt(u) => NumberType::UInt(u.class()),
        }
    }

    /// This value as an `Int`, when the variant holds one.
    pub fn try_into_int(self) -> (r: Result<Int, TCError>)
        ensures
            r.is_ok() <==> self matches Number::Int(_),
            self matches Number::Int(i) ==> r == Result::<Int, TCError>::Ok(i),
            r.is_err() ==> r->Err_0.spec_kind() == crate::error::ErrorKind::BadRequest,
    {
        match self {
            Number::Int(i) => Ok(i),
            _ => Err(bad_request("expected a signed integer".to_owned())),
        }
    }

    /// This value as a `UInt`, when the variant holds one.
    pub fn try_into_uint(self) -> (r: Result<UInt, TCError>)
        ensures
            r.is_ok() <==> self matches Number::UInt(_),
            self matches Number::UInt(u) ==> r == Result::<UInt, TCError>::Ok(u),
            r.is_err() ==> r->Err_0.spec_kind() == crate::error::ErrorKind::BadRequest,
    {
        match self {
            Number::UInt(u) => Ok(u),
            _ => Err(bad_request("expected an unsigned integer".to_owned())),
        }
    }

    /// This value as a `bool`, when the variant holds one.
    pub fn try_into_bool(self) -> (r: Result<bool, TCError>)
        ensures
            r.is_ok() <==> self matches Number::Bool(_),
            self matches Number::Bool(b) ==> r == Result::<bool, TCError>::Ok(b),
            r.is_err() ==> r->Err_0.spec_kind() == crate::error::ErrorKind::BadRequest,
    {
        match self {
            Number::Bool(b) => Ok(b),
            _ => Err(bad_request("expected a boolean".to_owned())),
        }
    }
}

} // verus!
