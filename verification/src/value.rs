//! Runtime values held in rows.
//!
//! A value is one of Int64, Float64, Text, Bool, Null.  Floating-point
//! payloads are carried as their IEEE-754 bit pattern (a `u64`): the engine
//! never computes with them, it only stores and returns them, and the I/O
//! layer converts to and from `f64` at the boundary.

use vstd::prelude::*;

verus! {

/// One typed cell of a row.
#[derive(Debug)]
pub enum Value {
    Int(i64),
    /// IEEE-754 double, as its bit pattern.
    Float(u64),
    Text(String),
    Bool(bool),
    Null,
}

/// Mathematical model of a [`Value`]: text is a sequence of characters.
pub enum ValueModel {
    Int(i64),
    Float(u64),
    Text(Seq<char>),
    Bool(bool),
    Null,
}

impl Clone for Value {
    fn clone(&self) -> (r: Self)
        ensures
            r == self,
    {
        match self {
            Value::Int(x) => Value::Int(*x),
            Value::Float(b) => Value::Float(*b),
            Value::Text(s) => Value::Text(s.clone()),
            Value::Bool(b) => Value::Bool(*b),
            Value::Null => Value::Null,
        }
    }
}

impl View for Value {
    type V = ValueModel;

    open spec fn view(&self) -> ValueModel {
        match self {
            Value::Int(x) => ValueModel::Int(*x),
            Value::Float(b) => ValueModel::Float(*b),
            Value::Text(s) => ValueModel::Text(s@),
            Value::Bool(b) => ValueModel::Bool(*b),
            Value::Null => ValueModel::Null,
        }
    }
}

impl DeepView for Value {
    type V = ValueModel;

    open spec fn deep_view(&self) -> ValueModel {
        self.view()
    }
}

} // verus!
