//! Typed property values: strings, integers, doubles and flags.
//!
//! A double is carried by its bit pattern, which is also what tells two
//! doubles apart.
use vstd::prelude::*;

use crate::text::is_name;

verus! {

/// A typed feature-property value.
#[derive(Debug, Clone)]
pub enum Value {
    String(String),
    Int(i64),
    /// The bits of a double.
    Double(u64),
    Bool(bool),
}

/// What a value holds.
pub enum Datum {
    Text(Seq<char>),
    Int(i64),
    Double(u64),
    Bool(bool),
}

impl View for Value {
    type V = Datum;

    open spec fn view(&self) -> Datum {
        match self {
            Value::String(s) => Datum::Text(s@),
            Value::Int(i) => Datum::Int(*i),
            Value::Double(d) => Datum::Double(*d),
            Value::Bool(b) => Datum::Bool(*b),
        }
    }
}

impl Value {
    /// An equal value of its own.
    pub fn duplicate(&self) -> (out: Value)
        ensures
            out@ == self@,
    {
        match self {
            Value::String(s) => Value::String(s.clone()),
            Value::Int(i) => Value::Int(*i),
            Value::Double(d) => Value::Double(*d),
            Value::Bool(b) => Value::Bool(*b),
        }
    }
}

/// A number read from a property.
#[derive(Clone, Copy, Debug, PartialEq, Eq, Structural)]
pub enum Number {
    Int(i64),
    /// The bits of a double.
    Double(u64),
}

/// The position of the first property under a key, or the number of properties.
pub open spec fn first_under(props: Seq<(String, Value)>, key: Seq<char>, from: int) -> int
    decreases props.len() - from,
{
    if from >= props.len() {
        props.len() as int
    } else if props[from].0@ == key {
        from
    } else {
        first_under(props, key, from + 1)
    }
}

fn find_under(props: &[(String, Value)], key: &str) -> (at: usize)
    ensures
        at == first_under(props@, key@, 0),
        0 <= at <= props.len(),
        at < props.len() ==> props[at as int].0@ == key@,
{
    let mut i: usize = 0;
    while i < props.len()
        invariant
            i <= props.len(),
            first_under(props@, key@, 0) == first_under(props@, key@, i as int),
        decreases props.len() - i,
    {
        if is_name(&props[i].0, key) {
            return i;
        }
        i = i + 1;
    }
    i
}

/// The string under a key: what its first property holds, unless that is of
/// another type.
pub open spec fn text_under(props: Seq<(String, Value)>, key: Seq<char>) -> Option<Seq<char>> {
    let at = first_under(props, key, 0);
    if at < props.len() {
        match props[at].1@ {
            Datum::Text(s) => Some(s),
            _ => None,
        }
    } else {
        None
    }
}

/// Reads a string property, or `None` when it is absent or another type.
pub fn str_of<'a>(props: &'a [(String, Value)], key: &str) -> (out: Option<&'a str>)
    ensures
        out is Some <==> text_under(props@, key@) is Some,
        out matches Some(s) ==> text_under(props@, key@) == Some(s@),
{
    let at: usize = find_under(props, key);
    if at < props.len() {
        match &props[at].1 {
            Value::String(s) => Some(s.as_str()),
            _ => None,
        }
    } else {
        None
    }
}

/// The number under a key: what its first property holds, unless that is
/// neither an integer nor a double.
pub open spec fn number_under(props: Seq<(String, Value)>, key: Seq<char>) -> Option<Number> {
    let at = first_under(props, key, 0);
    if at < props.len() {
        match props[at].1@ {
            Datum::Int(i) => Some(Number::Int(i)),
            Datum::Double(d) => Some(Number::Double(d)),
            _ => None,
        }
    } else {
        None
    }
}

/// Reads a numeric property. Integers and doubles both answer.
pub fn f64_of(props: &[(String, Value)], key: &str) -> (out: Option<Number>)
    ensures
        out == number_under(props@, key@),
{
    let at: usize = find_under(props, key);
    if at < props.len() {
        match &props[at].1 {
            Value::Int(i) => Some(Number::Int(*i)),
            Value::Double(d) => Some(Number::Double(*d)),
            _ => None,
        }
    } else {
        None
    }
}

/// The double of the first property from `from` on that has this key and is
/// one, whatever else stands under the key.
pub open spec fn double_under(props: Seq<(String, Value)>, key: Seq<char>, from: int) -> Option<u64>
    decreases props.len() - from,
{
    if from >= props.len() {
        None
    } else if props[from].0@ == key && props[from].1@ is Double {
        Some(props[from].1@->Double_0)
    } else {
        double_under(props, key, from + 1)
    }
}

/// The bits of the first double under a key.
pub fn double_of(props: &[(String, Value)], key: &str) -> (out: Option<u64>)
    ensures
        out == double_under(props@, key@, 0),
{
    let mut i: usize = 0;
    while i < props.len()
        invariant
            i <= props.len(),
            double_under(props@, key@, 0) == double_under(props@, key@, i as int),
        decreases props.len() - i,
    {
        if is_name(&props[i].0, key) {
            if let Value::Double(d) = &props[i].1 {
                return Some(*d);
            }
        }
        i = i + 1;
    }
    None
}

/// The bits of the mapped carriageway width in metres, where one is recorded.
/// Only a double counts: an integer here is another encoding, not a width.
pub fn width_rules_m(props: &[(String, Value)]) -> (out: Option<u64>)
    ensures
        out == double_under(props@, "width_rules"@, 0),
{
    double_of(props, "width_rules")
}

/// A width under the key is found behind any entry that is no double.
pub proof fn a_width_is_a_double(props: Seq<(String, Value)>, i: int)
    requires
        0 <= i < props.len(),
        props[i].0@ == "width_rules"@,
        props[i].1@ is Double,
        forall|k: int|
            0 <= k < i ==> !((#[trigger] props[k]).0@ == "width_rules"@ && props[k].1@ is Double),
    ensures
        double_under(props, "width_rules"@, 0) == Some(props[i].1@->Double_0),
{
    lemma_double_under(props, "width_rules"@, 0, i);
}

proof fn lemma_double_under(props: Seq<(String, Value)>, key: Seq<char>, from: int, i: int)
    requires
        0 <= from <= i < props.len(),
        props[i].0@ == key,
        props[i].1@ is Double,
        forall|k: int|
            from <= k < i ==> !((#[trigger] props[k]).0@ == key && props[k].1@ is Double),
    ensures
        double_under(props, key, from) == Some(props[i].1@->Double_0),
    decreases i - from,
{
    if from < i {
        lemma_double_under(props, key, from + 1, i);
    }
}

/// The first property under a key is the one read, and what it holds decides:
/// a string answers as text, an integer and a double as a number, and anything
/// else not at all. Under a key no property has there is nothing.
pub proof fn the_first_property_under_a_key_is_read(props: Seq<(String, Value)>, key: Seq<char>, i: int)
    requires
        0 <= i <= props.len(),
        i < props.len() ==> props[i].0@ == key,
        forall|k: int| 0 <= k < i ==> (#[trigger] props[k]).0@ != key,
    ensures
        i == props.len() ==> text_under(props, key) is None && number_under(props, key) is None,
        i < props.len() ==> {
            &&& props[i].1 matches Value::String(s) ==> text_under(props, key) == Some(s@) && number_under(props, key) is None
            &&& props[i].1 matches Value::Int(n) ==> text_under(props, key) is None && number_under(props, key) == Some(
                Number::Int(n),
            )
            &&& props[i].1 matches Value::Double(d) ==> text_under(props, key) is None && number_under(props, key)
                == Some(Number::Double(d))
            &&& props[i].1 is Bool ==> text_under(props, key) is None && number_under(props, key) is None
        },
{
    lemma_first_under(props, key, 0, i);
}

proof fn lemma_first_under(props: Seq<(String, Value)>, key: Seq<char>, from: int, i: int)
    requires
        0 <= from <= i <= props.len(),
        i < props.len() ==> props[i].0@ == key,
        forall|k: int| from <= k < i ==> (#[trigger] props[k]).0@ != key,
    ensures
        first_under(props, key, from) == i,
    decreases i - from,
{
    if from < i {
        assert(props[from].0@ != key);
        lemma_first_under(props, key, from + 1, i);
    }
}

/// Where no double stands under a key there is none.
pub proof fn without_a_double_there_is_none(props: Seq<(String, Value)>, key: Seq<char>, from: int)
    requires
        0 <= from,
        forall|k: int| from <= k < props.len() ==> !((#[trigger] props[k]).0@ == key && props[k].1@ is Double),
    ensures
        double_under(props, key, from) is None,
    decreases props.len() - from,
{
    if from < props.len() {
        without_a_double_there_is_none(props, key, from + 1);
    }
}

/// The first double under a key is the one read.
pub proof fn the_first_double_under_a_key_is_read(props: Seq<(String, Value)>, key: Seq<char>, i: int)
    requires
        0 <= i < props.len(),
        props[i].0@ == key,
        props[i].1@ is Double,
        forall|k: int| 0 <= k < i ==> !((#[trigger] props[k]).0@ == key && props[k].1@ is Double),
    ensures
        double_under(props, key, 0) == Some(props[i].1@->Double_0),
{
    lemma_double_under(props, key, 0, i);
}

} // verus!
