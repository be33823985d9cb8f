//! The values that expressions evaluate to.
use crate::number::Number;
use vstd::prelude::*;

verus! {

/// What an expression evaluates to.
///
/// A `List` comes from a range only and is spliced into the arguments of the
/// function that reads it.
#[derive(Debug, PartialEq)]
pub enum EvalResult {
    Bool(bool),
    Numeric(Number),
    NonNumeric(String),
    List(Vec<Box<EvalResult>>),
    Error(String),
}

/// The mathematical content of an [`EvalResult`].
pub enum Value {
    Bool(bool),
    Numeric(Number),
    NonNumeric(Seq<char>),
    List(Seq<Value>),
    Error(Seq<char>),
}

/// The mathematical content of `r`.
pub open spec fn value_of(r: EvalResult) -> Value
    decreases r,
{
    match r {
        EvalResult::Bool(b) => Value::Bool(b),
        EvalResult::Numeric(n) => Value::Numeric(n),
        EvalResult::NonNumeric(s) => Value::NonNumeric(s@),
        EvalResult::List(items) => Value::List(
            Seq::new(
                items@.len(),
                |i: int|
                    if 0 <= i < items@.len() {
                        value_of(*items@[i])
                    } else {
                        Value::Bool(false)
                    },
            ),
        ),
        EvalResult::Error(e) => Value::Error(e@),
    }
}

impl View for EvalResult {
    type V = Value;

    open spec fn view(&self) -> Value {
        value_of(*self)
    }
}

/// The contents of the results `items`, in order.
pub open spec fn values(items: Seq<EvalResult>) -> Seq<Value> {
    Seq::new(items.len(), |i: int| value_of(items[i]))
}

/// The contents of the boxed results `items`, in order.
pub open spec fn boxed_values(items: Seq<Box<EvalResult>>) -> Seq<Value> {
    Seq::new(items.len(), |i: int| value_of(*items[i]))
}

/// The view of a list holds the views of its items.
pub proof fn lemma_list_view(r: EvalResult)
    requires
        r is List,
    ensures
        r@ == Value::List(boxed_values(r->List_0@)),
{
    match r {
        EvalResult::List(items) => {
            assert(r@->List_0 =~= boxed_values(items@));
        },
        _ => {},
    }
}

/// The code shown for an argument of the wrong kind or number.
pub open spec fn value_error() -> Seq<char> {
    "#VALUE!"@
}

/// The code shown for a result too large to be stored.
pub open spec fn number_error() -> Seq<char> {
    "#NUM!"@
}

/// The code shown for a division by zero.
pub open spec fn division_error() -> Seq<char> {
    "#DIV/0!"@
}

/// The code shown for a reference outside the grid.
pub open spec fn reference_error() -> Seq<char> {
    "#REF"@
}

/// The code shown for a reference that leads back to a cell under evaluation.
pub open spec fn circular_error() -> Seq<char> {
    "#CIRCULAR"@
}

} // verus!
