//! JSON values.
use crate::number::Number;
use vstd::prelude::*;

verus! {

/// A JSON value as the text spells it: nothing is merged, reordered or
/// dropped.
#[derive(Debug, PartialEq)]
pub enum Value {
    /// `null`
    Null,
    /// `true` or `false`
    Bool(bool),
    /// A number.
    Number(Number),
    /// A string.
    String(String),
    /// An array, element by element.
    Array(Vec<Value>),
    /// An object, member by member; a key may occur more than once.
    Object(Vec<(String, Value)>),
}

/// A JSON value in the abstract.
pub enum Json {
    Null,
    Bool(bool),
    Number(Number),
    String(Seq<char>),
    Array(Seq<Json>),
    Object(Seq<(Seq<char>, Json)>),
}

impl Value {
    /// The value in the abstract.
    pub open spec fn json(self) -> Json
        decreases self,
    {
        match self {
            Value::Null => Json::Null,
            Value::Bool(b) => Json::Bool(b),
            Value::Number(n) => Json::Number(n),
            Value::String(s) => Json::String(s@),
            Value::Array(v) => Json::Array(
                Seq::new(
                    v@.len(),
                    |i: int|
                        if 0 <= i < v@.len() {
                            v@[i].json()
                        } else {
                            Json::Null
                        },
                ),
            ),
            Value::Object(v) => Json::Object(
                Seq::new(
                    v@.len(),
                    |i: int|
                        if 0 <= i < v@.len() {
                            (v@[i].0@, v@[i].1.json())
                        } else {
                            (Seq::empty(), Json::Null)
                        },
                ),
            ),
        }
    }
}

impl View for Value {
    type V = Json;

    open spec fn view(&self) -> Json {
        self.json()
    }
}

/// The elements of an array in the abstract.
pub open spec fn elements(v: Seq<Value>) -> Seq<Json> {
    Seq::new(v.len(), |i: int| v[i]@)
}

/// The members of an object in the abstract.
pub open spec fn members(v: Seq<(String, Value)>) -> Seq<(Seq<char>, Json)> {
    Seq::new(v.len(), |i: int| (v[i].0@, v[i].1@))
}

/// An array is its elements, an object its members.
pub proof fn lemma_containers(v: Vec<Value>, w: Vec<(String, Value)>)
    ensures
        Value::Array(v)@ == Json::Array(elements(v@)),
        Value::Object(w)@ == Json::Object(members(w@)),
{
    assert(Value::Array(v).json()->Array_0 =~= elements(v@));
    assert(Value::Object(w).json()->Object_0 =~= members(w@));
}

/// What the deepest nesting of arrays and objects in a value is.
pub open spec fn nesting(j: Json) -> nat
    decreases j,
{
    match j {
        Json::Array(v) => 1 + elements_nesting(v),
        Json::Object(v) => 1 + members_nesting(v),
        _ => 0,
    }
}

/// The deepest nesting in any of some values.
pub open spec fn elements_nesting(v: Seq<Json>) -> nat
    decreases v,
{
    if v.len() == 0 {
        0
    } else {
        vstd::math::max(
            elements_nesting(v.drop_last()) as int,
            nesting(v[v.len() - 1]) as int,
        ) as nat
    }
}

/// The deepest nesting in any of some members.
pub open spec fn members_nesting(v: Seq<(Seq<char>, Json)>) -> nat
    decreases v,
{
    if v.len() == 0 {
        0
    } else {
        vstd::math::max(
            members_nesting(v.drop_last()) as int,
            nesting(v[v.len() - 1].1) as int,
        ) as nat
    }
}

} // verus!
