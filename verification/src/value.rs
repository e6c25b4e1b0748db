//! The canonical value: what a parse hands to its caller.

use crate::text::Text;
use vstd::prelude::*;

verus! {

/// A JSON-compatible value.
///
/// The entries of an object stand in the lexicographic order of their keys,
/// and no key occurs twice. A float is held as the text of its literal.
#[derive(Debug, PartialEq)]
pub enum Value {
    Null,
    Bool(bool),
    Int(i64),
    Float(String),
    Str(String),
    Array(Vec<Value>),
    Object(Vec<(String, Value)>),
}

/// A value as the contracts see it.
pub enum ValueView {
    Null,
    Bool(bool),
    Int(i64),
    Float(Text),
    Str(Text),
    Array(Seq<ValueView>),
    Object(Seq<(Text, ValueView)>),
}

/// The view of a value.
pub open spec fn value_view(v: Value) -> ValueView
    decreases v,
{
    match v {
        Value::Null => ValueView::Null,
        Value::Bool(b) => ValueView::Bool(b),
        Value::Int(n) => ValueView::Int(n),
        Value::Float(t) => ValueView::Float(t@),
        Value::Str(t) => ValueView::Str(t@),
        Value::Array(items) => ValueView::Array(
            Seq::new(
                items@.len(),
                |i: int|
                    if 0 <= i < items@.len() {
                        value_view(items@[i])
                    } else {
                        ValueView::Null
                    },
            ),
        ),
        Value::Object(entries) => ValueView::Object(
            Seq::new(
                entries@.len(),
                |i: int|
                    if 0 <= i < entries@.len() {
                        (entries@[i].0@, value_view(entries@[i].1))
                    } else {
                        (Seq::empty(), ValueView::Null)
                    },
            ),
        ),
    }
}

impl View for Value {
    type V = ValueView;

    open spec fn view(&self) -> ValueView {
        value_view(*self)
    }
}

} // verus!
