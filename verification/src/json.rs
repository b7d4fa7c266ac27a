//! A structured value as found in a settings file: null, booleans,
//! numbers, strings, arrays and string-keyed objects.

use crate::text::{chars_of, lemma_lex_transitive, lex_lt, text_less};
use vstd::prelude::*;

verus! {

/// A number. Integers are held exactly; any other number is held as the
/// bit pattern of its double-precision value together with its rendering.
#[derive(Debug, PartialEq, Eq)]
pub enum JsonNumber {
    PosInt(u64),
    NegInt(i64),
    Float { bits: u64, text: String },
}

/// One member of an object.
#[derive(Debug, PartialEq, Eq)]
pub struct Member {
    pub key: String,
    pub value: JsonValue,
}

/// A value. An object holds its members in ascending order of their
/// keys, each key once.
#[derive(Debug, PartialEq, Eq)]
pub enum JsonValue {
    Null,
    Bool(bool),
    Number(JsonNumber),
    Str(String),
    Array(Vec<JsonValue>),
    Object(Vec<Member>),
}

/// Mathematical model of a [`JsonNumber`].
pub enum NumberModel {
    PosInt(u64),
    NegInt(i64),
    Float { bits: u64, text: Seq<char> },
}

/// Mathematical model of a [`JsonValue`]. An object is the sequence of its
/// members, each a key and a value.
pub enum JsonModel {
    Null,
    Bool(bool),
    Number(NumberModel),
    Str(Seq<char>),
    Array(Seq<JsonModel>),
    Object(Seq<(Seq<char>, JsonModel)>),
}

/// Whether the keys come in strictly ascending dictionary order, so that
/// no key occurs twice.
pub open spec fn ascending_keys(members: Seq<(Seq<char>, JsonModel)>) -> bool {
    forall|i: int, j: int|
        0 <= i < j < members.len() ==> lex_lt((#[trigger] members[i]).0, (#[trigger] members[j]).0)
}

impl JsonModel {
    /// A value is well formed when the members of every object in it, at
    /// any depth, come in strictly ascending order of their keys.
    pub open spec fn wf(self) -> bool
        decreases self,
    {
        match self {
            JsonModel::Array(items) => forall|i: int|
                0 <= i < items.len() ==> (#[trigger] items[i]).wf(),
            JsonModel::Object(members) => ascending_keys(members) && forall|i: int|
                0 <= i < members.len() ==> (#[trigger] members[i]).1.wf(),
            _ => true,
        }
    }
}

/// An array is well formed exactly when each of its items is.
pub proof fn lemma_array_wf(items: Seq<JsonModel>)
    ensures
        JsonModel::Array(items).wf() == (forall|k: int|
            0 <= k < items.len() ==> (#[trigger] items[k]).wf()),
{
    let a = JsonModel::Array(items);
    assert(a->Array_0 == items);
}

impl View for JsonNumber {
    type V = NumberModel;

    open spec fn view(&self) -> NumberModel {
        match self {
            JsonNumber::PosInt(n) => NumberModel::PosInt(*n),
            JsonNumber::NegInt(n) => NumberModel::NegInt(*n),
            JsonNumber::Float { bits, text } => NumberModel::Float { bits: *bits, text: text@ },
        }
    }
}

/// The model of a value.
pub open spec fn value_model(v: JsonValue) -> JsonModel
    decreases v, 0nat,
{
    match v {
        JsonValue::Null => JsonModel::Null,
        JsonValue::Bool(b) => JsonModel::Bool(b),
        JsonValue::Number(n) => JsonModel::Number(n@),
        JsonValue::Str(s) => JsonModel::Str(s@),
        JsonValue::Array(items) => JsonModel::Array(items_model(items@, items@.len())),
        JsonValue::Object(members) => JsonModel::Object(members_model(members@, members@.len())),
    }
}

/// The models of the first `n` items.
pub open spec fn items_model(items: Seq<JsonValue>, n: nat) -> Seq<JsonModel>
    decreases items, n,
{
    if n == 0 || n > items.len() {
        Seq::empty()
    } else {
        items_model(items, (n - 1) as nat).push(value_model(items[n - 1]))
    }
}

/// The keys and models of the first `n` members.
pub open spec fn members_model(members: Seq<Member>, n: nat) -> Seq<(Seq<char>, JsonModel)>
    decreases members, n,
{
    if n == 0 || n > members.len() {
        Seq::empty()
    } else {
        members_model(members, (n - 1) as nat).push(
            (members[n - 1].key@, value_model(members[n - 1].value)),
        )
    }
}

impl View for JsonValue {
    type V = JsonModel;

    open spec fn view(&self) -> JsonModel {
        value_model(*self)
    }
}

/// The models of all items of an array.
pub open spec fn items_view(items: Seq<JsonValue>) -> Seq<JsonModel> {
    Seq::new(items.len(), |i: int| items[i]@)
}

/// The keys and models of all members of an object.
pub open spec fn members_view(members: Seq<Member>) -> Seq<(Seq<char>, JsonModel)> {
    Seq::new(members.len(), |i: int| (members[i].key@, members[i].value@))
}

proof fn lemma_items_model(items: Seq<JsonValue>, n: nat)
    requires
        n <= items.len(),
    ensures
        items_model(items, n) =~= items_view(items).take(n as int),
    decreases n,
{
    if n > 0 {
        lemma_items_model(items, (n - 1) as nat);
    }
}

proof fn lemma_members_model(members: Seq<Member>, n: nat)
    requires
        n <= members.len(),
    ensures
        members_model(members, n) =~= members_view(members).take(n as int),
    decreases n,
{
    if n > 0 {
        lemma_members_model(members, (n - 1) as nat);
    }
}

/// The model of an array is the array of its items' models.
pub proof fn lemma_array_view(v: &JsonValue)
    requires
        v is Array,
    ensures
        v@ == JsonModel::Array(items_view(v->Array_0@)),
{
    lemma_items_model(v->Array_0@, v->Array_0@.len());
    assert(items_view(v->Array_0@).take(v->Array_0@.len() as int) =~= items_view(v->Array_0@));
}

/// The model of an object is the sequence of its members' keys and models.
pub proof fn lemma_object_view(v: &JsonValue)
    requires
        v is Object,
    ensures
        v@ == JsonModel::Object(members_view(v->Object_0@)),
{
    lemma_members_model(v->Object_0@, v->Object_0@.len());
    assert(members_view(v->Object_0@).take(v->Object_0@.len() as int) =~= members_view(
        v->Object_0@,
    ));
}

/// Tells whether a value is well formed: whether the members of every
/// object in it come in strictly ascending order of their keys.
#[verifier::spinoff_prover]
#[verifier::rlimit(40)]
pub fn well_formed(v: &JsonValue) -> (r: bool)
    ensures
        r == v@.wf(),
    decreases v,
{
    match v {
        JsonValue::Array(items) => {
            proof {
                lemma_array_view(v);
                lemma_array_wf(items_view(items@));
            }
            let mut i: usize = 0;
            while i < items.len()
                invariant
                    i <= items.len(),
                    v == JsonValue::Array(*items),
                    v@.wf() == (forall|k: int|
                        0 <= k < items_view(items@).len() ==> (#[trigger] items_view(
                            items@,
                        )[k]).wf()),
                    v@ == JsonModel::Array(items_view(items@)),
                    forall|k: int| 0 <= k < i ==> (#[trigger] items_view(items@)[k]).wf(),
                decreases items.len() - i,
            {
                if !well_formed(&items[i]) {
                    assert(!items_view(items@)[i as int].wf());
                    assert(!v@.wf());
                    return false;
                }
                i += 1;
            }
            true
        },
        JsonValue::Object(members) => {
            proof {
                lemma_object_view(v);
            }
            let ghost keyed = members_view(members@);
            let mut i: usize = 0;
            while i < members.len()
                invariant
                    i <= members.len(),
                    v == JsonValue::Object(*members),
                    keyed == members_view(members@),
                    v@ == JsonModel::Object(keyed),
                    forall|k: int| 0 <= k < i ==> (#[trigger] keyed[k]).1.wf(),
                    forall|a: int, b: int|
                        0 <= a < b < i ==> lex_lt((#[trigger] keyed[a]).0, (#[trigger] keyed[b]).0),
                decreases members.len() - i,
            {
                if i > 0 {
                    let before = chars_of(members[i - 1].key.as_str());
                    let here = chars_of(members[i].key.as_str());
                    if !text_less(&before, &here) {
                        assert(!lex_lt(keyed[i - 1].0, keyed[i as int].0));
                        assert(!ascending_keys(keyed));
                        return false;
                    }
                    assert forall|a: int| 0 <= a < i implies lex_lt(
                        (#[trigger] keyed[a]).0,
                        keyed[i as int].0,
                    ) by {
                        if a < i - 1 {
                            lemma_lex_transitive(keyed[a].0, keyed[i - 1].0, keyed[i as int].0);
                        }
                    }
                }
                if !well_formed(&members[i].value) {
                    assert(!keyed[i as int].1.wf());
                    assert(!v@.wf());
                    return false;
                }
                i += 1;
            }
            true
        },
        _ => true,
    }
}

/// A value of `serde_json`. Nothing inside it is visible to contracts.
#[verifier::external_type_specification]
#[verifier::external_body]
pub struct ExValue(serde_json::Value);

/// A number of `serde_json`. Nothing inside it is visible to contracts.
#[verifier::external_type_specification]
#[verifier::external_body]
pub struct ExNumber(serde_json::Number);

/// What `serde_json` reads from a text: the value that the text denotes, or
/// nothing where the text is not one JSON document.
pub uninterp spec fn json_parse(text: Seq<char>) -> Option<JsonModel>;

/// Converts a `serde_json::Number`, told apart by `as_u64` and `as_i64`: a
/// non-negative integer, a negative integer, or else a double, of which the
/// bits and the rendering by `to_string` are kept. Nothing is claimed.
#[verifier::external_body]
fn number_from_outside(n: &serde_json::Number) -> JsonNumber {
    match (n.as_u64(), n.as_i64()) {
        (Some(u), _) => JsonNumber::PosInt(u),
        (None, Some(i)) => JsonNumber::NegInt(i),
        _ => JsonNumber::Float {
            bits: n.as_f64().unwrap_or_default().to_bits(),
            text: n.to_string(),
        },
    }
}

/// Converts a `serde_json::Value`, variant by variant. The contract claims
/// that the result is well formed: `serde_json` keeps the members of an
/// object in a `BTreeMap` keyed by `String`, which hands them out in
/// ascending order of the keys, each key once; `String` orders by bytes,
/// which for UTF-8 is the order of the code points.
#[verifier::external_body]
fn value_from_outside(v: &serde_json::Value) -> (r: JsonValue)
    ensures
        r@.wf(),
{
    match v {
        serde_json::Value::Null => JsonValue::Null,
        serde_json::Value::Bool(b) => JsonValue::Bool(*b),
        serde_json::Value::Number(n) => JsonValue::Number(number_from_outside(n)),
        serde_json::Value::String(s) => JsonValue::Str(s.clone()),
        serde_json::Value::Array(a) => JsonValue::Array(a.iter().map(value_from_outside).collect()),
        serde_json::Value::Object(o) => JsonValue::Object(
            o.iter().map(|(k, v)| Member { key: k.clone(), value: value_from_outside(v) }).collect(),
        ),
    }
}

/// `serde_json::from_str::<serde_json::Value>`, with the error dropped and
/// the value converted. The contract names the result, which depends on
/// the text alone, and claims that it is well formed.
#[verifier::external_body]
pub(crate) fn parse_json(text: &str) -> (r: Option<JsonValue>)
    ensures
        match r {
            Some(v) => json_parse(text@) == Some(v@) && v@.wf(),
            None => json_parse(text@) is None,
        },
{
    match serde_json::from_str::<serde_json::Value>(text) {
        Ok(v) => Some(value_from_outside(&v)),
        Err(_) => None,
    }
}

} // verus!
