//! The value of a unit property: a closed set of scalar and compound shapes.

use vstd::prelude::*;

verus! {

/// What a [`Variant`] holds, as a mathematical value: strings are sequences of
/// characters and compound values are sequences of values.
pub enum Value {
    U32(u32),
    U64(u64),
    I32(i32),
    I64(i64),
    Bool(bool),
    String(Seq<char>),
    Array(Seq<Value>),
    Struct(Seq<Value>),
}

/// A typed property value. The tag is part of the value: `U32(1)` and
/// `U64(1)` are different values.
#[derive(Debug, PartialEq, Eq)]
pub enum Variant {
    U32(u32),
    U64(u64),
    I32(i32),
    I64(i64),
    Bool(bool),
    String(String),
    Array(Vec<Variant>),
    Struct(Vec<Variant>),
}

impl View for Variant {
    type V = Value;

    open spec fn view(&self) -> Value
        decreases self,
    {
        match self {
            Variant::U32(x) => Value::U32(*x),
            Variant::U64(x) => Value::U64(*x),
            Variant::I32(x) => Value::I32(*x),
            Variant::I64(x) => Value::I64(*x),
            Variant::Bool(b) => Value::Bool(*b),
            Variant::String(s) => Value::String(s@),
            Variant::Array(items) => Value::Array(views_of(*items)),
            Variant::Struct(fields) => Value::Struct(views_of(*fields)),
        }
    }
}

/// The values of a list of variants, in order.
pub open spec fn views_of(items: Vec<Variant>) -> Seq<Value>
    decreases items,
{
    Seq::new(
        items.len() as nat,
        |i: int|
            if 0 <= i < items.len() {
                items[i]@
            } else {
                arbitrary()
            },
    )
}

impl Clone for Variant {
    /// A copy that holds the same value.
    fn clone(&self) -> (copy: Variant)
        ensures
            copy@ == self@,
        decreases self,
    {
        match self {
            Variant::U32(x) => Variant::U32(*x),
            Variant::U64(x) => Variant::U64(*x),
            Variant::I32(x) => Variant::I32(*x),
            Variant::I64(x) => Variant::I64(*x),
            Variant::Bool(b) => Variant::Bool(*b),
            Variant::String(s) => Variant::String(s.clone()),
            Variant::Array(items) => Variant::Array(clone_all(items)),
            Variant::Struct(fields) => Variant::Struct(clone_all(fields)),
        }
    }
}

/// Copies a list of variants item by item.
fn clone_all(items: &Vec<Variant>) -> (copies: Vec<Variant>)
    ensures
        views_of(copies) == views_of(*items),
    decreases items,
{
    let mut copies: Vec<Variant> = Vec::new();
    let mut i: usize = 0;
    while i < items.len()
        invariant
            i <= items.len(),
            copies.len() == i,
            forall|k: int| 0 <= k < i ==> (#[trigger] copies[k])@ == items[k]@,
        decreases items.len() - i,
    {
        let copy = items[i].clone();
        copies.push(copy);
        i += 1;
    }
    assert(views_of(copies) =~= views_of(*items));
    copies
}

} // verus!
