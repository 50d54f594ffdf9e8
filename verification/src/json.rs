//! JSON values.
//!
//! Text is parsed and printed by `serde_json`. The library's own [`Json`] holds
//! what a parsed value is made of.

use crate::order::same_text;
use vstd::prelude::*;

verus! {

/// A JSON value. A number is held as it is written.
pub enum Json {
    Null,
    Bool(bool),
    Number(String),
    Text(String),
    Array(Vec<Json>),
    Object(Vec<(String, Json)>),
}

/// What a JSON value says.
pub enum JsonView {
    Null,
    Bool(bool),
    Number(Seq<char>),
    Text(Seq<char>),
    Array(Seq<JsonView>),
    Object(Seq<(Seq<char>, JsonView)>),
}

/// The entries of an object.
pub type Entries = Seq<(Seq<char>, JsonView)>;

impl Json {
    /// What the value says.
    pub open spec fn value(self) -> JsonView
        decreases self,
    {
        match self {
            Json::Null => JsonView::Null,
            Json::Bool(b) => JsonView::Bool(b),
            Json::Number(n) => JsonView::Number(n@),
            Json::Text(t) => JsonView::Text(t@),
            Json::Array(items) => JsonView::Array(values(items@)),
            Json::Object(entries) => JsonView::Object(entry_values(entries@)),
        }
    }
}

/// What each of some values says.
pub open spec fn values(items: Seq<Json>) -> Seq<JsonView>
    decreases items,
{
    if items.len() == 0 {
        Seq::empty()
    } else {
        values(items.drop_last()).push(items.last().value())
    }
}

/// What each of an object's entries says.
pub open spec fn entry_values(entries: Seq<(String, Json)>) -> Entries
    decreases entries,
{
    if entries.len() == 0 {
        Seq::empty()
    } else {
        let last = entries.last();
        entry_values(entries.drop_last()).push((last.0@, last.1.value()))
    }
}

pub(crate) proof fn values_each(items: Seq<Json>)
    ensures
        values(items).len() == items.len(),
        forall|i: int| 0 <= i < items.len() ==> values(items)[i] == (#[trigger] items[i]).value(),
    decreases items.len(),
{
    if items.len() > 0 {
        let rest = items.drop_last();
        values_each(rest);
        assert forall|i: int| 0 <= i < items.len() implies values(items)[i] == (
        #[trigger] items[i]).value() by {
            if i < rest.len() {
                assert(rest[i] == items[i]);
            }
        }
    }
}

pub(crate) proof fn entry_values_each(entries: Seq<(String, Json)>)
    ensures
        entry_values(entries).len() == entries.len(),
        forall|i: int|
            0 <= i < entries.len() ==> entry_values(entries)[i] == ((#[trigger] entries[i]).0@,
                entries[i].1.value()),
    decreases entries.len(),
{
    if entries.len() > 0 {
        let rest = entries.drop_last();
        entry_values_each(rest);
        assert forall|i: int| 0 <= i < entries.len() implies entry_values(entries)[i] == ((
        #[trigger] entries[i]).0@, entries[i].1.value()) by {
            if i < rest.len() {
                assert(rest[i] == entries[i]);
            }
        }
    }
}

/// The value of the first entry under a key.
pub open spec fn lookup(entries: Entries, key: Seq<char>) -> Option<JsonView>
    decreases entries.len(),
{
    if entries.len() == 0 {
        None
    } else if entries[0].0 == key {
        Some(entries[0].1)
    } else {
        lookup(entries.drop_first(), key)
    }
}

/// The entries of a value, if it is an object.
pub open spec fn object(value: JsonView) -> Option<Entries> {
    match value {
        JsonView::Object(entries) => Some(entries),
        _ => None,
    }
}

/// The value under a key, if there is an object with that key.
pub open spec fn field(value: JsonView, key: Seq<char>) -> Option<JsonView> {
    match value {
        JsonView::Object(entries) => lookup(entries, key),
        _ => None,
    }
}

/// The text of a value, if it is a text.
pub open spec fn text(value: Option<JsonView>) -> Option<Seq<char>> {
    match value {
        Some(JsonView::Text(t)) => Some(t),
        _ => None,
    }
}

/// What an optional reference to a value says.
pub open spec fn opt_value(value: Option<&Json>) -> Option<JsonView> {
    match value {
        Some(v) => Some(v.value()),
        None => None,
    }
}

/// The lookup ends at the first entry with the key.
pub(crate) proof fn lookup_at(entries: Entries, key: Seq<char>, at: int)
    requires
        0 <= at <= entries.len(),
        forall|i: int| 0 <= i < at ==> (#[trigger] entries[i]).0 != key,
        at < entries.len() ==> entries[at].0 == key,
    ensures
        lookup(entries, key) == if at < entries.len() {
            Some(entries[at].1)
        } else {
            None
        },
    decreases entries.len(),
{
    if at > 0 {
        let rest = entries.drop_first();
        assert forall|i: int| 0 <= i < at - 1 implies (#[trigger] rest[i]).0 != key by {
            assert(rest[i] == entries[i + 1]);
        }
        assert(entries[0].0 != key);
        lookup_at(rest, key, at - 1);
    }
}

/// The value of the first entry under `key`.
pub fn find<'a>(entries: &'a Vec<(String, Json)>, key: &str) -> (r: Option<&'a Json>)
    ensures
        opt_value(r) == lookup(entry_values(entries@), key@),
{
    let ghost all = entry_values(entries@);
    proof {
        entry_values_each(entries@);
    }
    let n: usize = entries.len();
    let mut at: usize = 0;
    while at < n && !same_text(entries[at].0.as_str(), key)
        invariant
            at <= n,
            n == entries@.len(),
            all.len() == n,
            forall|i: int|
                0 <= i < n ==> all[i] == ((#[trigger] entries@[i]).0@, entries@[i].1.value()),
            forall|i: int| 0 <= i < at ==> (#[trigger] all[i]).0 != key@,
        ensures
            at < n ==> all[at as int].0 == key@,
        decreases n - at,
    {
        assert(all[at as int] == (entries@[at as int].0@, entries@[at as int].1.value()));
        at = at + 1;
    }
    proof {
        lookup_at(all, key@, at as int);
    }
    if at < n {
        Some(&entries[at].1)
    } else {
        None
    }
}

impl Json {
    /// The entries, if this is an object.
    pub fn as_object(&self) -> (r: Option<&Vec<(String, Json)>>)
        ensures
            match r {
                Some(entries) => object(self.value()) == Some(entry_values(entries@)),
                None => object(self.value()) is None,
            },
    {
        match self {
            Json::Object(entries) => Some(entries),
            _ => None,
        }
    }

    /// The text, if this is a text.
    pub fn as_str(&self) -> (r: Option<&str>)
        ensures
            match r {
                Some(t) => text(Some(self.value())) == Some(t@),
                None => text(Some(self.value())) is None,
            },
    {
        match self {
            Json::Text(t) => Some(t.as_str()),
            _ => None,
        }
    }

    /// The first item, if this is an array that has one.
    pub fn first_item(&self) -> (r: Option<&Json>)
        ensures
            opt_value(r) == match self.value() {
                JsonView::Array(items) => if items.len() > 0 {
                    Some(items[0])
                } else {
                    None
                },
                _ => None,
            },
    {
        match self {
            Json::Array(items) => {
                proof {
                    values_each(items@);
                }
                if items.len() > 0 {
                    assert(values(items@)[0] == items@[0].value());
                    Some(&items[0])
                } else {
                    None
                }
            },
            _ => None,
        }
    }

    /// The value under `key`, if this is an object with that key.
    pub fn get(&self, key: &str) -> (r: Option<&Json>)
        ensures
            opt_value(r) == field(self.value(), key@),
    {
        match self {
            Json::Object(entries) => find(entries, key),
            _ => None,
        }
    }
}

/// A value of `serde_json`.
#[verifier::external_type_specification]
#[verifier::external_body]
pub struct ExValue(serde_json::Value);

/// What a value of `serde_json` holds: its variant and contents, an object's
/// entries in the order in which the object is iterated, a number as it prints.
pub uninterp spec fn holds(value: serde_json::Value) -> JsonView;

/// What `serde_json` parses a text as.
pub uninterp spec fn parsed(text: Seq<char>) -> Option<JsonView>;

/// How `serde_json` prints a value over several lines.
pub uninterp spec fn printed(value: JsonView) -> Option<Seq<char>>;

/// `serde_json::from_str` into a value. Whether a text is JSON, and what value
/// it is, depends on the text alone.
#[verifier::external_body]
pub(crate) fn parse_text(text: &str) -> (r: Option<serde_json::Value>)
    ensures
        match r {
            Some(value) => parsed(text@) == Some(holds(value)),
            None => parsed(text@) is None,
        },
{
    serde_json::from_str(text).ok()
}

/// `serde_json::to_string_pretty` of a value. What is printed depends on what
/// the value holds alone.
#[verifier::external_body]
pub(crate) fn print_pretty(value: &serde_json::Value) -> (r: Option<String>)
    ensures
        match r {
            Some(text) => printed(holds(*value)) == Some(text@),
            None => printed(holds(*value)) is None,
        },
{
    serde_json::to_string_pretty(value).ok()
}

/// A value of `serde_json`, taken apart once.
pub(crate) enum Shape<'a> {
    Null,
    Bool(bool),
    Number(String),
    Text(&'a str),
    Array(Vec<&'a serde_json::Value>),
    Object(Vec<(&'a String, &'a serde_json::Value)>),
}

/// What a value that was taken apart holds.
pub(crate) open spec fn shape_holds(shape: Shape<'_>) -> JsonView {
    match shape {
        Shape::Null => JsonView::Null,
        Shape::Bool(b) => JsonView::Bool(b),
        Shape::Number(n) => JsonView::Number(n@),
        Shape::Text(t) => JsonView::Text(t@),
        Shape::Array(items) => JsonView::Array(
            items@.map_values(|v: &serde_json::Value| holds(*v)),
        ),
        Shape::Object(entries) => JsonView::Object(
            entries@.map_values(|e: (&String, &serde_json::Value)| (e.0@, holds(*e.1))),
        ),
    }
}

/// Takes a `serde_json::Value` apart into its variant and that variant's
/// contents.
#[verifier::external_body]
pub(crate) fn shape(value: &serde_json::Value) -> (r: Shape<'_>)
    ensures
        shape_holds(r) == holds(*value),
{
    match value {
        serde_json::Value::Null => Shape::Null,
        serde_json::Value::Bool(b) => Shape::Bool(*b),
        serde_json::Value::Number(n) => Shape::Number(n.to_string()),
        serde_json::Value::String(t) => Shape::Text(t),
        serde_json::Value::Array(items) => Shape::Array(items.iter().collect()),
        serde_json::Value::Object(entries) => Shape::Object(entries.iter().collect()),
    }
}

/// The library's value for a value of `serde_json`.
pub(crate) fn convert(value: &serde_json::Value) -> (r: Json)
    ensures
        r.value() == holds(*value),
    decreases holds(*value),
{
    match shape(value) {
        Shape::Null => Json::Null,
        Shape::Bool(b) => Json::Bool(b),
        Shape::Number(n) => Json::Number(n),
        Shape::Text(t) => Json::Text(t.to_owned()),
        Shape::Array(items) => {
            let ghost all = items@.map_values(|v: &serde_json::Value| holds(*v));
            let mut out: Vec<Json> = Vec::new();
            let n: usize = items.len();
            while out.len() < n
                invariant
                    out@.len() <= n,
                    n == items@.len(),
                    all == items@.map_values(|v: &serde_json::Value| holds(*v)),
                    holds(*value) == JsonView::Array(all),
                    values(out@) == all.take(out@.len() as int),
                decreases n - out@.len(),
            {
                let ghost at = out@.len() as int;
                assert(all[at] == holds(*items@[at]));
                assert(decreases_to!(holds(*value) => holds(*value)->Array_0[at]));
                let item = convert(items[out.len()]);
                let ghost before = out@;
                out.push(item);
                assert(out@.drop_last() =~= before);
                assert(all.take(at + 1) =~= all.take(at).push(all[at]));
            }
            assert(all.take(n as int) =~= all);
            Json::Array(out)
        },
        Shape::Object(entries) => {
            let ghost all = entries@.map_values(
                |e: (&String, &serde_json::Value)| (e.0@, holds(*e.1)),
            );
            let mut out: Vec<(String, Json)> = Vec::new();
            let n: usize = entries.len();
            while out.len() < n
                invariant
                    out@.len() <= n,
                    n == entries@.len(),
                    all == entries@.map_values(
                        |e: (&String, &serde_json::Value)| (e.0@, holds(*e.1)),
                    ),
                    holds(*value) == JsonView::Object(all),
                    entry_values(out@) == all.take(out@.len() as int),
                decreases n - out@.len(),
            {
                let ghost at = out@.len() as int;
                let entry = &entries[out.len()];
                assert(all[at] == (entry.0@, holds(*entry.1)));
                assert(decreases_to!(holds(*value) => holds(*value)->Object_0[at].1));
                let item = convert(entry.1);
                let key = entry.0.as_str().to_owned();
                let ghost before = out@;
                out.push((key, item));
                assert(out@.drop_last() =~= before);
                assert(all.take(at + 1) =~= all.take(at).push(all[at]));
            }
            assert(all.take(n as int) =~= all);
            Json::Object(out)
        },
    }
}

} // verus!
