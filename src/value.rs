use vstd::prelude::*;
use crate::scalar::hex_value;

verus! {

/// A number literal, classified by its textual form.
///
/// Turning it into a floating-point value is left to the caller.
#[derive(Clone, Debug, PartialEq)]
pub enum NumberLit {
    Infinity,
    NegInfinity,
    NaN,
    /// A hexadecimal literal, with its digits after the `0x` prefix.
    Hex(String),
    /// Any other literal, with its text, in decimal or exponential notation.
    Decimal(String),
}

/// The mathematical content of a [`NumberLit`].
pub enum Num {
    Infinity,
    NegInfinity,
    NaN,
    /// The base-16 value of the digits, of any size.
    Hex(nat),
    Decimal(Seq<char>),
}

pub open spec fn num_of(n: NumberLit) -> Num {
    match n {
        NumberLit::Infinity => Num::Infinity,
        NumberLit::NegInfinity => Num::NegInfinity,
        NumberLit::NaN => Num::NaN,
        NumberLit::Hex(d) => Num::Hex(hex_value(d@)),
        NumberLit::Decimal(s) => Num::Decimal(s@),
    }
}

/// A decoded value, in the shape that inferred decoding gives each kind of node.
#[derive(Debug, PartialEq)]
pub enum Value {
    Unit,
    Bool(bool),
    Str(String),
    Number(NumberLit),
    List(Vec<Value>),
    /// Key/value pairs in source order, duplicates kept.
    Object(Vec<(Value, Value)>),
}

/// The mathematical content of a [`Value`].
pub enum Val {
    Unit,
    Bool(bool),
    Str(Seq<char>),
    Number(Num),
    List(Seq<Val>),
    Object(Seq<(Val, Val)>),
}

pub open spec fn val_of(v: Value) -> Val
    decreases v,
{
    match v {
        Value::Unit => Val::Unit,
        Value::Bool(b) => Val::Bool(b),
        Value::Str(s) => Val::Str(s@),
        Value::Number(n) => Val::Number(num_of(n)),
        Value::List(items) => Val::List(vals_of(items@)),
        Value::Object(members) => Val::Object(members_of(members@)),
    }
}

pub open spec fn vals_of(s: Seq<Value>) -> Seq<Val>
    decreases s,
{
    if s.len() == 0 {
        Seq::empty()
    } else {
        vals_of(s.drop_last()).push(val_of(s.last()))
    }
}

pub open spec fn members_of(s: Seq<(Value, Value)>) -> Seq<(Val, Val)>
    decreases s,
{
    if s.len() == 0 {
        Seq::empty()
    } else {
        members_of(s.drop_last()).push((val_of(s.last().0), val_of(s.last().1)))
    }
}

} // verus!
