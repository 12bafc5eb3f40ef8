use vstd::prelude::*;

use crate::handle::Handle;

verus! {

/// A stored attribute value, tagged with the type it was written as.
///
/// A container keeps values of many types side by side; the variant records
/// which type a value has, so that a read can check it against the type the
/// reading attribute expects.
#[derive(Debug)]
pub enum Value {
    Bool(bool),
    I32(i32),
    I64(i64),
    U32(u32),
    U64(u64),
    Text(String),
    Handle(Handle),
}

impl Value {
    /// A copy of this value.
    pub fn duplicate(&self) -> (r: Value)
        ensures
            r == *self,
    {
        match self {
            Value::Bool(x) => Value::Bool(*x),
            Value::I32(x) => Value::I32(*x),
            Value::I64(x) => Value::I64(*x),
            Value::U32(x) => Value::U32(*x),
            Value::U64(x) => Value::U64(*x),
            Value::Text(x) => Value::Text(x.clone()),
            Value::Handle(x) => Value::Handle(*x),
        }
    }
}

/// A type whose values can be stored in a container.
///
/// `to_value` tags a value; `is_stored_as` says whether a stored value has this
/// type, and `of_value` reads it back.
pub trait AttributeValue: Sized {
    spec fn to_value(self) -> Value;

    spec fn is_stored_as(v: Value) -> bool;

    spec fn of_value(v: Value) -> Self;

    proof fn lemma_value_round_trip(self)
        ensures
            Self::is_stored_as(self.to_value()),
            Self::of_value(self.to_value()) == self,
    ;

    proof fn lemma_stored_round_trip(v: Value)
        requires
            Self::is_stored_as(v),
        ensures
            Self::of_value(v).to_value() == v,
    ;

    fn into_value(self) -> (v: Value)
        ensures
            v == self.to_value(),
    ;

    fn from_value(v: &Value) -> (r: Option<&Self>)
        ensures
            r is Some <==> Self::is_stored_as(*v),
            r matches Some(x) ==> *x == Self::of_value(*v),
    ;

    fn from_value_mut(v: &mut Value) -> (r: Option<&mut Self>)
        ensures
            r is Some <==> Self::is_stored_as(*old(v)),
            r matches Some(x) ==> *x == Self::of_value(*old(v)) && *final(v) == (*final(x)).to_value(),
            r is None ==> *final(v) == *old(v),
    ;

    fn duplicate(&self) -> (r: Self)
        ensures
            r == *self,
    ;
}

impl AttributeValue for bool {
    open spec fn to_value(self) -> Value {
        Value::Bool(self)
    }

    open spec fn is_stored_as(v: Value) -> bool {
        v is Bool
    }

    open spec fn of_value(v: Value) -> bool {
        match v {
            Value::Bool(x) => x,
            _ => arbitrary(),
        }
    }

    proof fn lemma_value_round_trip(self) {
    }

    proof fn lemma_stored_round_trip(v: Value) {
    }

    fn into_value(self) -> (v: Value) {
        Value::Bool(self)
    }

    fn from_value(v: &Value) -> (r: Option<&bool>) {
        match v {
            Value::Bool(x) => Some(x),
            _ => None,
        }
    }

    fn from_value_mut(v: &mut Value) -> (r: Option<&mut bool>) {
        match v {
            Value::Bool(x) => Some(x),
            _ => None,
        }
    }

    fn duplicate(&self) -> (r: bool) {
        *self
    }
}

impl AttributeValue for i32 {
    open spec fn to_value(self) -> Value {
        Value::I32(self)
    }

    open spec fn is_stored_as(v: Value) -> bool {
        v is I32
    }

    open spec fn of_value(v: Value) -> i32 {
        match v {
            Value::I32(x) => x,
            _ => arbitrary(),
        }
    }

    proof fn lemma_value_round_trip(self) {
    }

    proof fn lemma_stored_round_trip(v: Value) {
    }

    fn into_value(self) -> (v: Value) {
        Value::I32(self)
    }

    fn from_value(v: &Value) -> (r: Option<&i32>) {
        match v {
            Value::I32(x) => Some(x),
            _ => None,
        }
    }

    fn from_value_mut(v: &mut Value) -> (r: Option<&mut i32>) {
        match v {
            Value::I32(x) => Some(x),
            _ => None,
        }
    }

    fn duplicate(&self) -> (r: i32) {
        *self
    }
}

impl AttributeValue for i64 {
    open spec fn to_value(self) -> Value {
        Value::I64(self)
    }

    open spec fn is_stored_as(v: Value) -> bool {
        v is I64
    }

    open spec fn of_value(v: Value) -> i64 {
        match v {
            Value::I64(x) => x,
            _ => arbitrary(),
        }
    }

    proof fn lemma_value_round_trip(self) {
    }

    proof fn lemma_stored_round_trip(v: Value) {
    }

    fn into_value(self) -> (v: Value) {
        Value::I64(self)
    }

    fn from_value(v: &Value) -> (r: Option<&i64>) {
        match v {
            Value::I64(x) => Some(x),
            _ => None,
        }
    }

    fn from_value_mut(v: &mut Value) -> (r: Option<&mut i64>) {
        match v {
            Value::I64(x) => Some(x),
            _ => None,
        }
    }

    fn duplicate(&self) -> (r: i64) {
        *self
    }
}

impl AttributeValue for u32 {
    open spec fn to_value(self) -> Value {
        Value::U32(self)
    }

    open spec fn is_stored_as(v: Value) -> bool {
        v is U32
    }

    open spec fn of_value(v: Value) -> u32 {
        match v {
            Value::U32(x) => x,
            _ => arbitrary(),
        }
    }

    proof fn lemma_value_round_trip(self) {
    }

    proof fn lemma_stored_round_trip(v: Value) {
    }

    fn into_value(self) -> (v: Value) {
        Value::U32(self)
    }

    fn from_value(v: &Value) -> (r: Option<&u32>) {
        match v {
            Value::U32(x) => Some(x),
            _ => None,
        }
    }

    fn from_value_mut(v: &mut Value) -> (r: Option<&mut u32>) {
        match v {
            Value::U32(x) => Some(x),
            _ => None,
        }
    }

    fn duplicate(&self) -> (r: u32) {
        *self
    }
}

impl AttributeValue for u64 {
    open spec fn to_value(self) -> Value {
        Value::U64(self)
    }

    open spec fn is_stored_as(v: Value) -> bool {
        v is U64
    }

    open spec fn of_value(v: Value) -> u64 {
        match v {
            Value::U64(x) => x,
            _ => arbitrary(),
        }
    }

    proof fn lemma_value_round_trip(self) {
    }

    proof fn lemma_stored_round_trip(v: Value) {
    }

    fn into_value(self) -> (v: Value) {
        Value::U64(self)
    }

    fn from_value(v: &Value) -> (r: Option<&u64>) {
        match v {
            Value::U64(x) => Some(x),
            _ => None,
        }
    }

    fn from_value_mut(v: &mut Value) -> (r: Option<&mut u64>) {
        match v {
            Value::U64(x) => Some(x),
            _ => None,
        }
    }

    fn duplicate(&self) -> (r: u64) {
        *self
    }
}

impl AttributeValue for String {
    open spec fn to_value(self) -> Value {
        Value::Text(self)
    }

    open spec fn is_stored_as(v: Value) -> bool {
        v is Text
    }

    open spec fn of_value(v: Value) -> String {
        match v {
            Value::Text(x) => x,
            _ => arbitrary(),
        }
    }

    proof fn lemma_value_round_trip(self) {
    }

    proof fn lemma_stored_round_trip(v: Value) {
    }

    fn into_value(self) -> (v: Value) {
        Value::Text(self)
    }

    fn from_value(v: &Value) -> (r: Option<&String>) {
        match v {
            Value::Text(x) => Some(x),
            _ => None,
        }
    }

    fn from_value_mut(v: &mut Value) -> (r: Option<&mut String>) {
        match v {
            Value::Text(x) => Some(x),
            _ => None,
        }
    }

    fn duplicate(&self) -> (r: String) {
        self.clone()
    }
}

impl AttributeValue for Handle {
    open spec fn to_value(self) -> Value {
        Value::Handle(self)
    }

    open spec fn is_stored_as(v: Value) -> bool {
        v is Handle
    }

    open spec fn of_value(v: Value) -> Handle {
        match v {
            Value::Handle(x) => x,
            _ => arbitrary(),
        }
    }

    proof fn lemma_value_round_trip(self) {
    }

    proof fn lemma_stored_round_trip(v: Value) {
    }

    fn into_value(self) -> (v: Value) {
        Value::Handle(self)
    }

    fn from_value(v: &Value) -> (r: Option<&Handle>) {
        match v {
            Value::Handle(x) => Some(x),
            _ => None,
        }
    }

    fn from_value_mut(v: &mut Value) -> (r: Option<&mut Handle>) {
        match v {
            Value::Handle(x) => Some(x),
            _ => None,
        }
    }

    fn duplicate(&self) -> (r: Handle) {
        *self
    }
}

} // verus!
