//! JSON documents as plain values, and the calls into `serde_json` that read
//! and write them.

use vstd::prelude::*;

verus! {

/// A JSON document.
#[derive(Debug, PartialEq, Eq)]
pub enum Json {
    Null,
    Bool(bool),
    /// A number that is a non-negative integer below 2^64.
    Unsigned(u64),
    /// Any other number, by its text.
    Number(String),
    Text(String),
    Array(Vec<Json>),
    /// The members of an object, in document order.
    Object(Vec<Member>),
}

/// A named member of a JSON object.
#[derive(Debug, PartialEq, Eq)]
pub struct Member {
    pub name: String,
    pub value: Json,
}

/// The mathematical content of a [`Json`] document.
pub enum JsonModel {
    Null,
    Bool(bool),
    Unsigned(u64),
    Number(Seq<char>),
    Text(Seq<char>),
    Array(Seq<JsonModel>),
    Object(Seq<(Seq<char>, JsonModel)>),
}

/// The models of a sequence of documents, in order.
pub open spec fn array_models(s: Seq<Json>) -> Seq<JsonModel>
    decreases s, 0nat,
{
    if s.len() == 0 {
        Seq::empty()
    } else {
        array_models(s.drop_last()).push(s.last()@)
    }
}

/// The models of a sequence of members, in order.
pub open spec fn member_models(s: Seq<Member>) -> Seq<(Seq<char>, JsonModel)>
    decreases s, 0nat,
{
    if s.len() == 0 {
        Seq::empty()
    } else {
        member_models(s.drop_last()).push((s.last().name@, s.last().value@))
    }
}

impl View for Json {
    type V = JsonModel;

    open spec fn view(&self) -> JsonModel
        decreases self, 1nat,
    {
        match self {
            Json::Null => JsonModel::Null,
            Json::Bool(b) => JsonModel::Bool(*b),
            Json::Unsigned(u) => JsonModel::Unsigned(*u),
            Json::Number(t) => JsonModel::Number(t@),
            Json::Text(t) => JsonModel::Text(t@),
            Json::Array(a) => JsonModel::Array(array_models(a@)),
            Json::Object(m) => JsonModel::Object(member_models(m@)),
        }
    }
}

/// `array_models` keeps length and order.
pub proof fn lemma_array_models(s: Seq<Json>)
    ensures
        array_models(s).len() == s.len(),
        forall|i: int| 0 <= i < s.len() ==> (#[trigger] array_models(s)[i]) == s[i]@,
    decreases s.len(),
{
    if s.len() > 0 {
        let front = s.drop_last();
        lemma_array_models(front);
        assert(array_models(s) == array_models(front).push(s.last()@));
        assert forall|i: int| 0 <= i < s.len() implies (#[trigger] array_models(s)[i])
            == s[i]@ by {
            if i < front.len() {
                assert(array_models(front)[i] == front[i]@);
            }
        }
    }
}

/// `member_models` keeps length and order.
pub proof fn lemma_member_models(s: Seq<Member>)
    ensures
        member_models(s).len() == s.len(),
        forall|i: int|
            0 <= i < s.len() ==> (#[trigger] member_models(s)[i]) == (s[i].name@, s[i].value@),
    decreases s.len(),
{
    if s.len() > 0 {
        let front = s.drop_last();
        lemma_member_models(front);
        assert(member_models(s) == member_models(front).push((s.last().name@, s.last().value@)));
        assert forall|i: int| 0 <= i < s.len() implies (#[trigger] member_models(s)[i]) == (
            s[i].name@,
            s[i].value@,
        ) by {
            if i < front.len() {
                assert(member_models(front)[i] == (front[i].name@, front[i].value@));
            }
        }
    }
}

/// `serde_json::Value`, of which nothing is known here: it is only handed
/// on.
#[verifier::external_type_specification]
#[verifier::external_body]
pub struct ExValue(serde_json::Value);

/// The document that `serde_json::from_str` reads from `text` as a
/// `serde_json::Value`, or `None` where it reports an error.
pub uninterp spec fn parsed(text: Seq<char>) -> Option<JsonModel>;

/// The text that `serde_json::to_string` writes for a document.
pub uninterp spec fn rendered(doc: JsonModel) -> Seq<char>;

/// The text that `serde_json::to_string_pretty` writes for a document.
pub uninterp spec fn rendered_pretty(doc: JsonModel) -> Seq<char>;

/// Moves a `serde_json::Value` into a [`Json`], variant by variant; a
/// number goes by `serde_json::Number::as_u64` where that gives one, else by
/// its text. Nothing is claimed of the result.
#[verifier::external_body]
fn json_of_value(v: serde_json::Value) -> Json {
    match v {
        serde_json::Value::Null => Json::Null,
        serde_json::Value::Bool(b) => Json::Bool(b),
        serde_json::Value::Number(n) => match n.as_u64() {
            Some(u) => Json::Unsigned(u),
            None => Json::Number(n.to_string()),
        },
        serde_json::Value::String(s) => Json::Text(s),
        serde_json::Value::Array(a) => Json::Array(a.into_iter().map(json_of_value).collect()),
        serde_json::Value::Object(m) => Json::Object(
            m.into_iter().map(|(name, v)| Member { name, value: json_of_value(v) }).collect(),
        ),
    }
}

/// Copies a [`Json`] into a `serde_json::Value`, variant by variant; the
/// text of a number is read back as a `serde_json::Number`. Nothing is
/// claimed of the result.
#[verifier::external_body]
fn value_of_json(doc: &Json) -> serde_json::Value {
    match doc {
        Json::Null => serde_json::Value::Null,
        Json::Bool(b) => serde_json::Value::Bool(*b),
        Json::Unsigned(u) => serde_json::Value::from(*u),
        Json::Number(t) => t.parse().map_or(serde_json::Value::Null, serde_json::Value::Number),
        Json::Text(t) => serde_json::Value::String(t.clone()),
        Json::Array(a) => serde_json::Value::Array(a.iter().map(value_of_json).collect()),
        Json::Object(m) => serde_json::Value::Object(
            m.iter().map(|f| (f.name.clone(), value_of_json(&f.value))).collect(),
        ),
    }
}

/// Calls `serde_json::from_str` for a `serde_json::Value`. The result is a
/// function of the text alone: the document read, or `None` on an error.
#[verifier::external_body]
pub(crate) fn parse(text: &str) -> (doc: Option<Json>)
    ensures
        match doc {
            Some(d) => parsed(text@) == Some(d@),
            None => parsed(text@).is_none(),
        },
{
    match serde_json::from_str::<serde_json::Value>(text) {
        Ok(v) => Some(json_of_value(v)),
        Err(_) => None,
    }
}

/// Calls `serde_json::to_string` on the document. The result is a function
/// of the document alone; an error, which a document with text keys does not
/// give, yields the empty text.
#[verifier::external_body]
pub(crate) fn render(doc: &Json) -> (text: String)
    ensures
        text@ == rendered(doc@),
{
    match serde_json::to_string(&value_of_json(doc)) {
        Ok(text) => text,
        Err(_) => String::new(),
    }
}

/// Calls `serde_json::to_string_pretty` on the document. The result is a
/// function of the document alone; an error, which a document with text keys
/// does not give, yields the empty text.
#[verifier::external_body]
pub(crate) fn render_pretty(doc: &Json) -> (text: String)
    ensures
        text@ == rendered_pretty(doc@),
{
    match serde_json::to_string_pretty(&value_of_json(doc)) {
        Ok(text) => text,
        Err(_) => String::new(),
    }
}

} // verus!
