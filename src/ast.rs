use vstd::prelude::*;

verus! {

/// An object: name/value pairs in the order they were written.
#[derive(Debug, PartialEq)]
pub struct Object {
    pub values: Vec<PairStringValue>,
}

/// One member of an object.
#[derive(Debug, PartialEq)]
pub struct PairStringValue {
    pub name: String,
    pub value: Value,
}

/// An array: values in the order they were written.
#[derive(Debug, PartialEq)]
pub struct Array {
    pub values: Vec<Value>,
}

/// A node of the value tree.
#[derive(Debug, PartialEq)]
pub enum Value {
    Null,
    Bool(bool),
    Number(i32),
    String(String),
    Array(Array),
    Object(Object),
}

/// A value tree as a mathematical value.
pub enum JsonV {
    Null,
    Bool(bool),
    Number(i32),
    Str(Seq<char>),
    Array(Seq<JsonV>),
    Object(Seq<(Seq<char>, JsonV)>),
}

/// The mathematical value of a tree node.
pub open spec fn value_view(v: Value) -> JsonV
    decreases v, 0nat,
{
    match v {
        Value::Null => JsonV::Null,
        Value::Bool(b) => JsonV::Bool(b),
        Value::Number(n) => JsonV::Number(n),
        Value::String(s) => JsonV::Str(s@),
        Value::Array(a) => JsonV::Array(values_view(a.values@)),
        Value::Object(o) => JsonV::Object(pairs_view(o.values@)),
    }
}

/// The mathematical values of a sequence of tree nodes.
pub open spec fn values_view(s: Seq<Value>) -> Seq<JsonV>
    decreases s, s.len(),
{
    if s.len() == 0 {
        Seq::empty()
    } else {
        values_view(s.drop_last()).push(value_view(s.last()))
    }
}

/// The mathematical values of a sequence of object members.
pub open spec fn pairs_view(s: Seq<PairStringValue>) -> Seq<(Seq<char>, JsonV)>
    decreases s, s.len(),
{
    if s.len() == 0 {
        Seq::empty()
    } else {
        pairs_view(s.drop_last()).push((s.last().name@, value_view(s.last().value)))
    }
}

impl View for Value {
    type V = JsonV;

    open spec fn view(&self) -> JsonV {
        value_view(*self)
    }
}

} // verus!
