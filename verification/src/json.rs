//! JSON values that arrive on the IPC bus.
use serde_json::Value;
use vstd::prelude::*;
use vstd::string::*;

use crate::text::same;

verus! {

/// A JSON value. Numbers are told apart from other values, no more.
#[derive(Debug)]
pub enum Json {
    Null,
    Bool(bool),
    Number,
    Text(String),
    List(Vec<Json>),
    Fields(Vec<(String, Json)>),
}

/// A JSON value, its strings as sequences of characters.
pub enum JsonView {
    Null,
    Bool(bool),
    Number,
    Text(Seq<char>),
    List(Seq<JsonView>),
    Fields(Seq<(Seq<char>, JsonView)>),
}

/// The value that `json` stands for.
pub open spec fn json_view(json: Json) -> JsonView
    decreases json,
{
    match json {
        Json::Null => JsonView::Null,
        Json::Bool(flag) => JsonView::Bool(flag),
        Json::Number => JsonView::Number,
        Json::Text(string) => JsonView::Text(string@),
        Json::List(items) => JsonView::List(list_view(items@)),
        Json::Fields(fields) => JsonView::Fields(fields_view(fields@)),
    }
}

/// The values that `items` stand for.
pub open spec fn list_view(items: Seq<Json>) -> Seq<JsonView>
    decreases items,
{
    if items.len() == 0 {
        Seq::empty()
    } else {
        list_view(items.drop_last()).push(json_view(items.last()))
    }
}

/// The members that `fields` stand for.
pub open spec fn fields_view(fields: Seq<(String, Json)>) -> Seq<(Seq<char>, JsonView)>
    decreases fields,
{
    if fields.len() == 0 {
        Seq::empty()
    } else {
        let (name, value) = fields.last();
        fields_view(fields.drop_last()).push((name@, json_view(value)))
    }
}

impl View for Json {
    type V = JsonView;

    open spec fn view(&self) -> JsonView {
        json_view(*self)
    }
}

/// The first member called `name`.
pub open spec fn lookup(fields: Seq<(Seq<char>, JsonView)>, name: Seq<char>) -> Option<JsonView>
    decreases fields.len(),
{
    if fields.len() == 0 {
        None
    } else if fields[0].0 == name {
        Some(fields[0].1)
    } else {
        lookup(fields.skip(1), name)
    }
}

/// The member of `value` called `name`. Only objects have members.
pub open spec fn member(value: JsonView, name: Seq<char>) -> Option<JsonView> {
    match value {
        JsonView::Fields(fields) => lookup(fields, name),
        _ => None,
    }
}

/// The string in the member called `name`, or `default` where there is no such string.
pub open spec fn text_or(value: JsonView, name: Seq<char>, default: Seq<char>) -> Seq<char> {
    match member(value, name) {
        Some(JsonView::Text(string)) => string,
        _ => default,
    }
}

/// The flag in the member called `name`, false where there is no such flag.
pub open spec fn flag(value: JsonView, name: Seq<char>) -> bool {
    member(value, name) == Some(JsonView::Bool(true))
}

/// The view of a value that may not be there.
pub open spec fn maybe(value: Option<&Json>) -> Option<JsonView> {
    match value {
        Some(value) => Some(value@),
        None => None,
    }
}

/// The view of a list, entry by entry.
pub proof fn lemma_list_view(items: Seq<Json>)
    ensures
        list_view(items).len() == items.len(),
        forall|i: int| 0 <= i < items.len() ==> #[trigger] list_view(items)[i] == items[i]@,
    decreases items.len(),
{
    if items.len() > 0 {
        lemma_list_view(items.drop_last());
        assert forall|i: int| 0 <= i < items.len() implies #[trigger] list_view(items)[i]
            == items[i]@ by {
            if i < items.len() - 1 {
                assert(list_view(items)[i] == list_view(items.drop_last())[i]);
                assert(items.drop_last()[i] == items[i]);
            }
        }
    }
}

/// The view of the members, one by one.
pub proof fn lemma_fields_view(fields: Seq<(String, Json)>)
    ensures
        fields_view(fields).len() == fields.len(),
        forall|i: int|
            0 <= i < fields.len() ==> #[trigger] fields_view(fields)[i] == (
                fields[i].0@,
                fields[i].1@,
            ),
    decreases fields.len(),
{
    if fields.len() > 0 {
        lemma_fields_view(fields.drop_last());
        assert forall|i: int| 0 <= i < fields.len() implies #[trigger] fields_view(fields)[i] == (
            fields[i].0@,
            fields[i].1@,
        ) by {
            if i < fields.len() - 1 {
                assert(fields_view(fields)[i] == fields_view(fields.drop_last())[i]);
                assert(fields.drop_last()[i] == fields[i]);
            }
        }
    }
}

impl Json {
    /// The member called `name`.
    pub fn get<'a>(&'a self, name: &str) -> (value: Option<&'a Json>)
        ensures
            match value {
                Some(json) => member(self@, name@) == Some(json@),
                None => member(self@, name@) is None,
            },
    {
        match self {
            Json::Fields(fields) => {
                let ghost all = fields_view(fields@);
                proof {
                    lemma_fields_view(fields@);
                    assert(all.skip(0) =~= all);
                }
                let mut i: usize = 0;
                while i < fields.len()
                    invariant
                        i <= fields@.len(),
                        all == fields_view(fields@),
                        all.len() == fields@.len(),
                        forall|j: int|
                            0 <= j < fields@.len() ==> #[trigger] all[j] == (
                                fields@[j].0@,
                                fields@[j].1@,
                            ),
                        self@ == JsonView::Fields(all),
                        lookup(all, name@) == lookup(all.skip(i as int), name@),
                    decreases fields@.len() - i,
                {
                    assert(all.skip(i as int)[0] == all[i as int]);
                    assert(all.skip(i as int).skip(1) =~= all.skip(i + 1));
                    if same(fields[i].0.as_str(), name) {
                        return Some(&fields[i].1);
                    }
                    i = i + 1;
                }
                None
            },
            _ => None,
        }
    }

    /// The string that the value is, if it is one.
    pub fn as_str<'a>(&'a self) -> (string: Option<&'a str>)
        ensures
            match string {
                Some(string) => self@ == JsonView::Text(string@),
                None => !(self@ is Text),
            },
    {
        match self {
            Json::Text(string) => Some(string.as_str()),
            _ => None,
        }
    }

    /// The list that the value is, if it is one.
    pub fn as_list<'a>(&'a self) -> (items: Option<&'a Vec<Json>>)
        ensures
            match items {
                Some(items) => self@ == JsonView::List(list_view(items@)),
                None => !(self@ is List),
            },
    {
        match self {
            Json::List(items) => Some(items),
            _ => None,
        }
    }

    /// A copy of the value.
    pub fn duplicate(&self) -> (copy: Json)
        ensures
            copy@ == self@,
        decreases self,
    {
        match self {
            Json::Null => Json::Null,
            Json::Bool(flag) => Json::Bool(*flag),
            Json::Number => Json::Number,
            Json::Text(string) => Json::Text(string.clone()),
            Json::List(items) => {
                let mut copies: Vec<Json> = Vec::new();
                let mut i: usize = 0;
                while i < items.len()
                    invariant
                        i <= items@.len(),
                        *self == Json::List(*items),
                        copies@.len() == i,
                        forall|j: int| 0 <= j < i ==> (#[trigger] copies@[j])@ == items@[j]@,
                    decreases items@.len() - i,
                {
                    assert(decreases_to!(self => self->List_0));
                    assert(decreases_to!(items@ => items@[i as int]));
                    copies.push(items[i].duplicate());
                    i = i + 1;
                }
                proof {
                    lemma_list_view(copies@);
                    lemma_list_view(items@);
                    assert(list_view(copies@) =~= list_view(items@));
                }
                Json::List(copies)
            },
            Json::Fields(fields) => {
                let mut copies: Vec<(String, Json)> = Vec::new();
                let mut i: usize = 0;
                while i < fields.len()
                    invariant
                        i <= fields@.len(),
                        *self == Json::Fields(*fields),
                        copies@.len() == i,
                        forall|j: int|
                            0 <= j < i ==> (#[trigger] copies@[j]).0@ == fields@[j].0@
                                && copies@[j].1@ == fields@[j].1@,
                    decreases fields@.len() - i,
                {
                    assert(decreases_to!(self => self->Fields_0));
                    assert(decreases_to!(fields@ => fields@[i as int]));
                    assert(decreases_to!(fields@[i as int] => fields@[i as int].1));
                    copies.push((fields[i].0.clone(), fields[i].1.duplicate()));
                    i = i + 1;
                }
                proof {
                    lemma_fields_view(copies@);
                    lemma_fields_view(fields@);
                    assert(fields_view(copies@) =~= fields_view(fields@));
                }
                Json::Fields(copies)
            },
        }
    }

    /// The string in the member called `name`, or `default`.
    pub fn text_or<'a>(&'a self, name: &str, default: &'a str) -> (string: &'a str)
        ensures
            string@ == text_or(self@, name@, default@),
    {
        match self.get(name) {
            Some(value) => match value.as_str() {
                Some(string) => string,
                None => default,
            },
            None => default,
        }
    }

    /// The flag in the member called `name`.
    pub fn flag(&self, name: &str) -> (on: bool)
        ensures
            on == flag(self@, name@),
    {
        match self.get(name) {
            Some(Json::Bool(on)) => *on,
            _ => false,
        }
    }
}

/// A value of `serde_json`. It is opaque here: [`open_value`] tells what it is made of.
#[verifier::external_type_specification]
#[verifier::external_body]
pub struct ExValue(Value);

/// What a value of `serde_json` holds.
pub uninterp spec fn value_tree(value: Value) -> JsonView;

/// What `serde_json::from_slice` reads from `bytes`; nothing where they are no JSON document.
pub uninterp spec fn json_document(bytes: Seq<u8>) -> Option<JsonView>;

/// A value of `serde_json`, taken apart.
enum Parts<'a> {
    Null,
    Bool(bool),
    Number,
    Text(&'a String),
    List(&'a Vec<Value>),
    Fields(Vec<(&'a String, &'a Value)>),
}

/// What the parts of a value amount to.
spec fn parts_tree(parts: Parts) -> JsonView {
    match parts {
        Parts::Null => JsonView::Null,
        Parts::Bool(flag) => JsonView::Bool(flag),
        Parts::Number => JsonView::Number,
        Parts::Text(string) => JsonView::Text(string@),
        Parts::List(items) => JsonView::List(items@.map_values(|item: Value| value_tree(item))),
        Parts::Fields(fields) => JsonView::Fields(
            fields@.map_values(|field: (&String, &Value)| (field.0@, value_tree(*field.1))),
        ),
    }
}

/// Parse JSON text, by `serde_json::from_slice` into a `serde_json::Value`. Whether the bytes
/// are a document, and what it holds, is a function of the bytes alone.
#[verifier::external_body]
fn value_from_slice(bytes: &[u8]) -> (value: Option<Value>)
    ensures
        match value {
            Some(value) => json_document(bytes@) == Some(value_tree(value)),
            None => json_document(bytes@) is None,
        },
{
    match serde_json::from_slice(bytes) {
        Ok(value) => Some(value),
        Err(_) => None,
    }
}

/// Take a `serde_json::Value` apart, one level deep: a value holds what its variant holds, an
/// array its elements in their order, an object its members as `Map::iter` walks them.
#[verifier::external_body]
fn open_value<'a>(value: &'a Value) -> (parts: Parts<'a>)
    ensures
        parts_tree(parts) == value_tree(*value),
{
    match value {
        Value::Null => Parts::Null,
        Value::Bool(flag) => Parts::Bool(*flag),
        Value::Number(_) => Parts::Number,
        Value::String(string) => Parts::Text(string),
        Value::Array(items) => Parts::List(items),
        Value::Object(fields) => Parts::Fields(fields.iter().collect()),
    }
}

/// Copy a value of `serde_json`.
fn json_of(value: &Value) -> (json: Json)
    ensures
        json@ == value_tree(*value),
    decreases value_tree(*value),
{
    let ghost tree = value_tree(*value);
    match open_value(value) {
        Parts::Null => Json::Null,
        Parts::Bool(flag) => Json::Bool(flag),
        Parts::Number => Json::Number,
        Parts::Text(string) => Json::Text(string.clone()),
        Parts::List(items) => {
            let mut copies: Vec<Json> = Vec::new();
            let ghost trees = items@.map_values(|item: Value| value_tree(item));
            let mut i: usize = 0;
            while i < items.len()
                invariant
                    i <= items@.len(),
                    trees == items@.map_values(|item: Value| value_tree(item)),
                    tree == JsonView::List(trees),
                    tree == value_tree(*value),
                    copies@.len() == i,
                    forall|j: int| 0 <= j < i ==> (#[trigger] copies@[j])@ == trees[j],
                decreases items@.len() - i,
            {
                assert(trees[i as int] == value_tree(items@[i as int]));
                assert(decreases_to!(tree => tree->List_0));
                assert(decreases_to!(trees => trees[i as int]));
                copies.push(json_of(&items[i]));
                i = i + 1;
            }
            proof {
                lemma_list_view(copies@);
                assert(list_view(copies@) =~= trees);
            }
            Json::List(copies)
        },
        Parts::Fields(fields) => {
            let mut copies: Vec<(String, Json)> = Vec::new();
            let ghost trees = fields@.map_values(
                |field: (&String, &Value)| (field.0@, value_tree(*field.1)),
            );
            let mut i: usize = 0;
            while i < fields.len()
                invariant
                    i <= fields@.len(),
                    trees == fields@.map_values(
                        |field: (&String, &Value)| (field.0@, value_tree(*field.1)),
                    ),
                    tree == JsonView::Fields(trees),
                    tree == value_tree(*value),
                    copies@.len() == i,
                    forall|j: int|
                        0 <= j < i ==> ((#[trigger] copies@[j]).0@, copies@[j].1@) == trees[j],
                decreases fields@.len() - i,
            {
                let (name, field) = fields[i];
                assert(trees[i as int] == (name@, value_tree(*field)));
                assert(decreases_to!(tree => tree->Fields_0));
                assert(decreases_to!(trees => trees[i as int]));
                assert(decreases_to!(trees[i as int] => trees[i as int].1));
                copies.push((name.clone(), json_of(field)));
                i = i + 1;
            }
            proof {
                lemma_fields_view(copies@);
                assert(fields_view(copies@) =~= trees);
            }
            Json::Fields(copies)
        },
    }
}

/// Parse a JSON document.
pub fn parse_json(bytes: &[u8]) -> (json: Option<Json>)
    ensures
        match json {
            Some(json) => json_document(bytes@) == Some(json@),
            None => json_document(bytes@) is None,
        },
{
    match value_from_slice(bytes) {
        Some(value) => Some(json_of(&value)),
        None => None,
    }
}

/// The view of a value holds what the value holds.
pub proof fn views_hold_what_values_hold(
    flag: bool,
    string: String,
    items: Vec<Json>,
    fields: Vec<(String, Json)>,
)
    ensures
        Json::Null@ == JsonView::Null,
        Json::Bool(flag)@ == JsonView::Bool(flag),
        Json::Number@ == JsonView::Number,
        Json::Text(string)@ == JsonView::Text(string@),
        Json::List(items)@ == JsonView::List(
            Seq::new(items@.len(), |i: int| items@[i]@),
        ),
        Json::Fields(fields)@ == JsonView::Fields(
            Seq::new(fields@.len(), |i: int| (fields@[i].0@, fields@[i].1@)),
        ),
{
    lemma_list_view(items@);
    lemma_fields_view(fields@);
    assert(list_view(items@) =~= Seq::new(items@.len(), |i: int| items@[i]@));
    assert(fields_view(fields@) =~= Seq::new(
        fields@.len(),
        |i: int| (fields@[i].0@, fields@[i].1@),
    ));
}

} // verus!
