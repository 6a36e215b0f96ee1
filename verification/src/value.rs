//! The values that reactive cells hold.

use vstd::prelude::*;

verus! {

/// What a signal stores, a memo caches and an effect leaves behind.
#[derive(Debug, PartialEq, Eq)]
pub enum Value {
    /// No value: an unresolved path, or a memo that has not been computed yet.
    Absent,
    /// A boolean, such as a class toggle or an "is active" state.
    Flag(bool),
    /// A counter.
    Count(u64),
    /// A piece of text, such as a pathname or a rendered attribute.
    Text(String),
}

/// The mathematical content of a [`Value`].
pub enum ValueView {
    Absent,
    Flag(bool),
    Count(u64),
    Text(Seq<char>),
}

impl View for Value {
    type V = ValueView;

    open spec fn view(&self) -> ValueView {
        match self {
            Value::Absent => ValueView::Absent,
            Value::Flag(b) => ValueView::Flag(*b),
            Value::Count(n) => ValueView::Count(*n),
            Value::Text(s) => ValueView::Text(s@),
        }
    }
}

impl Value {
    /// The equality predicate of the graph: two values are the same when
    /// they are of the same variant and hold the same content.
    pub fn same(&self, other: &Value) -> (r: bool)
        ensures
            r == (self@ == other@),
    {
        match self {
            Value::Absent => match other {
                Value::Absent => true,
                _ => false,
            },
            Value::Flag(a) => match other {
                Value::Flag(b) => *a == *b,
                _ => false,
            },
            Value::Count(a) => match other {
                Value::Count(b) => *a == *b,
                _ => false,
            },
            Value::Text(a) => match other {
                Value::Text(b) => {
                    let r = *a == *b;
                    assert(r == (a@ == b@));
                    r
                },
                _ => false,
            },
        }
    }

    /// Whether this is `Flag(true)`; every other value counts as false.
    pub fn is_true(&self) -> (r: bool)
        ensures
            r == (self@ == ValueView::Flag(true)),
    {
        match self {
            Value::Flag(b) => *b,
            _ => false,
        }
    }
}

impl Clone for Value {
    fn clone(&self) -> (r: Value)
        ensures
            r@ == self@,
    {
        match self {
            Value::Absent => Value::Absent,
            Value::Flag(b) => Value::Flag(*b),
            Value::Count(n) => Value::Count(*n),
            Value::Text(s) => Value::Text(s.clone()),
        }
    }
}

} // verus!
