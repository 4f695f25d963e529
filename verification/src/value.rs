//! The six-way classification of JSON-like shapes, and the data values that
//! validation walks.

use vstd::prelude::*;

verus! {

/// The closed classification of a JSON-like value's shape. A schema node
/// declares the kind it expects, and a data value is classified to one of
/// these before matching.
///
/// Variant names are lowercase so that they read exactly like the kind names
/// used in schema documents and in error messages.
#[allow(non_camel_case_types)]
#[derive(Debug, PartialEq, Eq, Clone, Copy, Structural)]
pub enum Type {
    object,
    string,
    number,
    bool,
    array,
    null,
}

impl Default for Type {
    /// A schema node with no declared kind is unconstrained, written `null`.
    fn default() -> (t: Type)
        ensures
            t == Type::null,
    {
        Type::null
    }
}

/// A JSON-like data value: the tree that validation walks.
///
/// Object fields keep their insertion order, so that error reporting is
/// deterministic. The numeric payload is irrelevant to validation, which only
/// ever classifies a number's shape.
pub enum Value {
    Null,
    Bool(bool),
    Number(i64),
    Text(String),
    Array(Vec<Value>),
    Object(Vec<(String, Value)>),
}

/// The shape classification of a data value.
pub open spec fn kind_of(v: Value) -> Type {
    match v {
        Value::Null => Type::null,
        Value::Bool(_) => Type::bool,
        Value::Number(_) => Type::number,
        Value::Text(_) => Type::string,
        Value::Array(_) => Type::array,
        Value::Object(_) => Type::object,
    }
}

/// Classifies a data value's actual kind.
pub fn type_of(value: &Value) -> (t: Type)
    ensures
        t == kind_of(*value),
{
    match value {
        Value::Null => Type::null,
        Value::Bool(_) => Type::bool,
        Value::Number(_) => Type::number,
        Value::Text(_) => Type::string,
        Value::Array(_) => Type::array,
        Value::Object(_) => Type::object,
    }
}

} // verus!
