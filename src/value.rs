use vstd::prelude::*;
use vstd::string::*;

verus! {

/// A scalar held by text, attribute, comment and processing-instruction
/// nodes.
#[derive(Clone, Debug)]
pub enum Value {
    String(String),
    Boolean(bool),
}

/// The string form of a value.
pub open spec fn value_text(v: Value) -> Seq<char> {
    match v {
        Value::String(s) => s@,
        Value::Boolean(b) => if b { "true"@ } else { "false"@ },
    }
}

impl Value {
    /// A copy of the value.
    pub fn clone_value(&self) -> (r: Value)
        ensures
            r == *self,
    {
        match self {
            Value::String(s) => Value::String(s.clone()),
            Value::Boolean(b) => Value::Boolean(*b),
        }
    }

    pub fn to_string(&self) -> (r: String)
        ensures
            r@ == value_text(*self),
    {
        match self {
            Value::String(s) => s.clone(),
            Value::Boolean(b) => if *b {
                String::from_str("true")
            } else {
                String::from_str("false")
            },
        }
    }
}

} // verus!
