//! JSON documents as plain values.

use vstd::prelude::*;

verus! {

/// A JSON document.
#[derive(Debug)]
pub enum Json {
    Null,
    Bool(bool),
    /// The bits of the binary64 number that `serde_json` gives for the one written, if it gives one.
    Number(Option<u64>),
    Text(String),
    List(Vec<Json>),
    /// The entries, each key once.
    Object(Vec<(String, Json)>),
}

/// What a [`Json`] document holds.
pub enum Doc {
    Null,
    Bool(bool),
    Number(Option<u64>),
    Text(Seq<char>),
    List(Seq<Doc>),
    Object(Seq<(Seq<char>, Doc)>),
}

/// The document that a [`Json`] value holds.
pub open spec fn doc_of(json: Json) -> Doc
    decreases json,
{
    match json {
        Json::Null => Doc::Null,
        Json::Bool(b) => Doc::Bool(b),
        Json::Number(n) => Doc::Number(n),
        Json::Text(s) => Doc::Text(s@),
        Json::List(v) => Doc::List(
            Seq::new(
                v@.len(),
                |i: int|
                    if 0 <= i < v@.len() {
                        doc_of(v@[i])
                    } else {
                        Doc::Null
                    },
            ),
        ),
        Json::Object(v) => Doc::Object(
            Seq::new(
                v@.len(),
                |i: int|
                    if 0 <= i < v@.len() {
                        (v@[i].0@, doc_of(v@[i].1))
                    } else {
                        (Seq::empty(), Doc::Null)
                    },
            ),
        ),
    }
}

impl View for Json {
    type V = Doc;

    open spec fn view(&self) -> Doc {
        doc_of(*self)
    }
}

/// The document value of `serde_json`, carried through unread.
#[verifier::external_type_specification]
#[verifier::external_body]
pub struct ExValue(serde_json::Value);

/// The document that a value of `serde_json` holds: its variant, and what the variant carries, an
/// object's entries in the order of its map.
pub uninterp spec fn value_doc(value: serde_json::Value) -> Doc;

/// What `serde_json` reads out of a text: the document, or the message of its error.
pub uninterp spec fn parsed_json(text: Seq<char>) -> Result<Doc, Seq<char>>;

/// Reads a text with `serde_json::from_str`. Which texts are documents, what they hold, and what its
/// error prints for the others is left to that crate; the claim is that the text alone decides it.
#[verifier::external_body]
fn parse_value(text: &str) -> (r: Result<serde_json::Value, String>)
    ensures
        match r {
            Ok(value) => parsed_json(text@) == Ok::<Doc, Seq<char>>(value_doc(value)),
            Err(message) => parsed_json(text@) == Err::<Doc, Seq<char>>(message@),
        },
{
    serde_json::from_str(text).map_err(|e| e.to_string())
}

/// One level of a `serde_json` value.
enum Node {
    Null,
    Bool(bool),
    Number(Option<u64>),
    Text(String),
    List(Vec<serde_json::Value>),
    Object(Vec<(String, serde_json::Value)>),
}

/// Takes a `serde_json::Value` apart, one level deep. The claim is that the parts are what the
/// value holds; a number is what `Number::as_f64` gives, as bits.
#[verifier::external_body]
fn open_value(value: serde_json::Value) -> (node: Node)
    ensures
        match node {
            Node::Null => value_doc(value) == Doc::Null,
            Node::Bool(b) => value_doc(value) == Doc::Bool(b),
            Node::Number(n) => value_doc(value) == Doc::Number(n),
            Node::Text(s) => value_doc(value) == Doc::Text(s@),
            Node::List(v) => value_doc(value) matches Doc::List(docs) && docs.len() == v@.len()
                && forall|i: int| 0 <= i < v@.len() ==> docs[i] == value_doc(#[trigger] v@[i]),
            Node::Object(v) => value_doc(value) matches Doc::Object(entries) && entries.len()
                == v@.len() && forall|i: int|
                0 <= i < v@.len() ==> entries[i] == ((#[trigger] v@[i]).0@, value_doc(v@[i].1)),
        },
{
    match value {
        serde_json::Value::Null => Node::Null,
        serde_json::Value::Bool(b) => Node::Bool(b),
        serde_json::Value::Number(n) => Node::Number(n.as_f64().map(|x| x.to_bits())),
        serde_json::Value::String(s) => Node::Text(s),
        serde_json::Value::Array(v) => Node::List(v),
        serde_json::Value::Object(m) => Node::Object(m.into_iter().collect()),
    }
}

/// A `serde_json` value as a document.
fn read_value(value: serde_json::Value) -> (json: Json)
    ensures
        json@ == value_doc(value),
    decreases value_doc(value),
{
    let ghost doc = value_doc(value);
    match open_value(value) {
        Node::Null => Json::Null,
        Node::Bool(b) => Json::Bool(b),
        Node::Number(n) => Json::Number(n),
        Node::Text(s) => Json::Text(s),
        Node::List(mut values) => {
            let ghost all = values@;
            let ghost docs = doc->List_0;
            let mut items: Vec<Json> = Vec::new();
            while values.len() > 0
                invariant
                    doc == value_doc(value),
                    doc == Doc::List(docs),
                    docs.len() == all.len(),
                    forall|i: int| 0 <= i < all.len() ==> docs[i] == value_doc(#[trigger] all[i]),
                    values@.len() + items@.len() == all.len(),
                    forall|i: int|
                        0 <= i < values@.len() ==> #[trigger] values@[i] == all[i + items@.len()],
                    forall|i: int| 0 <= i < items@.len() ==> (#[trigger] items@[i])@ == docs[i],
                decreases values@.len(),
            {
                let item = values.remove(0);
                assert(item == all[items@.len() as int]);
                assert(decreases_to!(doc => doc->List_0));
                assert(decreases_to!(docs => docs[items@.len() as int]));
                items.push(read_value(item));
            }
            let json = Json::List(items);
            assert(json@ == doc) by {
                assert(json@->List_0 =~= docs);
            }
            json
        },
        Node::Object(mut values) => {
            let ghost all = values@;
            let ghost entries = doc->Object_0;
            let mut items: Vec<(String, Json)> = Vec::new();
            while values.len() > 0
                invariant
                    doc == value_doc(value),
                    doc == Doc::Object(entries),
                    entries.len() == all.len(),
                    forall|i: int|
                        0 <= i < all.len() ==> entries[i] == (
                            (#[trigger] all[i]).0@,
                            value_doc(all[i].1),
                        ),
                    values@.len() + items@.len() == all.len(),
                    forall|i: int|
                        0 <= i < values@.len() ==> #[trigger] values@[i] == all[i + items@.len()],
                    forall|i: int|
                        0 <= i < items@.len() ==> ((#[trigger] items@[i]).0@, items@[i].1@)
                            == entries[i],
                decreases values@.len(),
            {
                let (key, item) = values.remove(0);
                assert((key, item) == all[items@.len() as int]);
                assert(decreases_to!(doc => doc->Object_0));
                assert(decreases_to!(entries => entries[items@.len() as int]));
                assert(decreases_to!(entries[items@.len() as int] => entries[items@.len() as int].1));
                items.push((key, read_value(item)));
            }
            let json = Json::Object(items);
            assert(json@ == doc) by {
                assert(json@->Object_0 =~= entries);
            }
            json
        },
    }
}

/// Reads a JSON text.
pub fn parse_json(text: &str) -> (r: Result<Json, String>)
    ensures
        match r {
            Ok(json) => parsed_json(text@) == Ok::<Doc, Seq<char>>(json@),
            Err(message) => parsed_json(text@) == Err::<Doc, Seq<char>>(message@),
        },
{
    match parse_value(text) {
        Ok(value) => Ok(read_value(value)),
        Err(message) => Err(message),
    }
}

} // verus!
