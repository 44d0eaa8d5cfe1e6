use vstd::prelude::*;

verus! {

/// A runtime value of a script.
#[derive(Clone, Debug)]
pub enum Value {
    Number(i64),
    String(String),
    Bool(bool),
}

/// The mathematical meaning of a `Value`.
pub enum ValueModel {
    Number(int),
    Text(Seq<char>),
    Bool(bool),
}

impl View for Value {
    type V = ValueModel;

    open spec fn view(&self) -> ValueModel {
        match self {
            Value::Number(n) => ValueModel::Number(*n as int),
            Value::String(s) => ValueModel::Text(s@),
            Value::Bool(b) => ValueModel::Bool(*b),
        }
    }
}

/// Truthiness: a non-zero number, a non-empty string, or `true`.
pub open spec fn truthy_model(v: ValueModel) -> bool {
    match v {
        ValueModel::Number(n) => n != 0,
        ValueModel::Text(s) => s.len() > 0,
        ValueModel::Bool(b) => b,
    }
}

impl Value {
    pub fn truthy(&self) -> (r: bool)
        ensures
            r == truthy_model(self@),
    {
        match self {
            Value::Number(n) => *n != 0,
            Value::String(s) => !s.as_str().is_empty(),
            Value::Bool(b) => *b,
        }
    }

    /// A copy of this value.
    pub fn duplicate(&self) -> (r: Value)
        ensures
            r == *self,
    {
        match self {
            Value::Number(n) => Value::Number(*n),
            Value::String(s) => Value::String(s.clone()),
            Value::Bool(b) => Value::Bool(*b),
        }
    }

    /// Equality of meaning: same kind and same contents.
    pub fn equals(&self, other: &Value) -> (r: bool)
        ensures
            r == (self@ == other@),
    {
        match (self, other) {
            (Value::Number(a), Value::Number(b)) => *a == *b,
            (Value::String(a), Value::String(b)) => *a == *b,
            (Value::Bool(a), Value::Bool(b)) => *a == *b,
            _ => false,
        }
    }
}

} // verus!
