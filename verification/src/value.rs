//! Cell values.

use crate::text::{decimal_int, signed_decimal_string};
use vstd::prelude::*;

verus! {

/// A cell of a table: an integer or a text.
#[derive(Debug, PartialEq, Eq)]
pub enum Value {
    Integer(i64),
    Text(String),
}

/// The mathematical value of a cell: a text is its sequence of characters.
pub enum ValueView {
    Integer(i64),
    Text(Seq<char>),
}

impl View for Value {
    type V = ValueView;

    open spec fn view(&self) -> ValueView {
        match self {
            Value::Integer(i) => ValueView::Integer(*i),
            Value::Text(s) => ValueView::Text(s@),
        }
    }
}

impl DeepView for Value {
    type V = ValueView;

    open spec fn deep_view(&self) -> ValueView {
        self@
    }
}

impl Clone for Value {
    fn clone(&self) -> (r: Self)
        ensures
            r == *self,
    {
        match self {
            Value::Integer(i) => Value::Integer(*i),
            Value::Text(s) => Value::Text(s.clone()),
        }
    }
}

/// How a cell is shown: an integer in decimal, a text as it is.
pub open spec fn display_of(v: ValueView) -> Seq<char> {
    match v {
        ValueView::Integer(i) => decimal_int(i as int),
        ValueView::Text(s) => s,
    }
}

impl Value {
    /// The text that shows this value.
    pub fn as_display(&self) -> (r: String)
        ensures
            r@ == display_of(self@),
    {
        match self {
            Value::Integer(i) => signed_decimal_string(*i),
            Value::Text(s) => s.clone(),
        }
    }
}

} // verus!
