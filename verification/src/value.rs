use vstd::prelude::*;

use crate::error::{bad_request, TCError};
use crate::number::{Int, Number, NumberType, UInt};

verus! {

/// A short identifier naming a value inside a transaction context.
pub type ValueId = String;

/// A statically known identifier label.
#[derive(Clone, Copy, Debug)]
pub struct Label {
    id: &'static str,
}

impl View for Label {
    type V = Seq<char>;

    closed spec fn view(&self) -> Seq<char> {
        self.id@
    }
}

/// Wrap a static identifier as a [`Label`].
pub fn label(id: &'static str) -> (r: Label)
    ensures
        r@ == id@,
{
    Label { id }
}

impl Label {
    pub fn as_str(&self) -> (r: &'static str)
        ensures
            r@ == self@,
    {
        self.id
    }
}

/// The class of a [`Value`].
#[derive(Clone, Copy, Debug, PartialEq, Eq, Structural)]
pub enum TCType {
    Nil,
    Number(NumberType),
    TCString,
}

/// A scalar value of the core: nothing, a number, or a string.
#[derive(Debug)]
pub enum Value {
    Nil,
    Number(Number),
    TCString(String),
}

/// The mathematical content of a [`Value`], with the string as its
/// character sequence.
pub enum ValueView {
    Nil,
    Number(Number),
    TCString(Seq<char>),
}

impl View for Value {
    type V = ValueView;

    open spec fn view(&self) -> ValueView {
        match *self {
            Value::Nil => ValueView::Nil,
            Value::Number(n) => ValueView::Number(n),
            Value::TCString(s) => ValueView::TCString(s@),
        }
    }
}

impl Clone for Value {
    fn clone(&self) -> (r: Value)
        ensures
            r@ == self@,
    {
        match self {
            Value::Nil => Value::Nil,
            Value::Number(n) => Value::Number(*n),
            Value::TCString(s) => Value::TCString(s.clone()),
        }
    }
}

/// The class of a value, as contracts see it.
pub open spec fn spec_class_of(v: ValueView) -> TCType {
    match v {
        ValueView::Nil => TCType::Nil,
        ValueView::Number(n) => TCType::Number(n.class_spec()),
        ValueView::TCString(_) => TCType::TCString,
    }
}

impl Value {
    pub fn class(&self) -> (r: TCType)
        ensures
            r == spec_class_of(self@),
    {
        match self {
            Value::Nil => TCType::Nil,
            Value::Number(n) => TCType::Number(n.class()),
            Value::TCString(_) => TCType::TCString,
        }
    }

    /// This value as an `i32`, when it holds one.
    pub fn try_into_i32(&self) -> (r: Result<i32, TCError>)
        ensures
            r.is_ok() <==> self@ matches ValueView::Number(Number::Int(Int::I32(_))),
            self@ matches ValueView::Number(Number::Int(Int::I32(i))) ==> r == Result::<
                i32,
                TCError,
            >::Ok(i),
            r.is_err() ==> r->Err_0.spec_kind() == crate::error::ErrorKind::BadRequest,
    {
        match self {
            Value::Number(Number::Int(Int::I32(i))) => Ok(*i),
            _ => Err(bad_request("expected a thirty-two-bit integer value".to_owned())),
        }
    }

    /// This value as a `u64`, when it holds one.
    pub fn try_into_u64(&self) -> (r: Result<u64, TCError>)
        ensures
            r.is_ok() <==> self@ matches ValueView::Number(Number::UInt(UInt::U64(_))),
            self@ matches ValueView::Number(Number::UInt(UInt::U64(u))) ==> r == Result::<
                u64,
                TCError,
            >::Ok(u),
            r.is_err() ==> r->Err_0.spec_kind() == crate::error::ErrorKind::BadRequest,
    {
        match self {
            Value::Number(Number::UInt(UInt::U64(u))) => Ok(*u),
            _ => Err(bad_request("expected a sixty-four-bit unsigned value".to_owned())),
        }
    }
}

} // verus!
