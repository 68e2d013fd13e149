//! The key of a sample, decoded from the JSON text of a record.
//!
//! A key is written as a JSON array of four items, or as a JSON object of four
//! members: the name of the metric, the name of the sample, the labels, which
//! are an object of strings, and the help text of the metric.

use crate::error::{fails_with, Corruption, MergeError};
use crate::labels::Labels;
use vstd::hash_map::StringHashMap;
use vstd::prelude::*;

verus! {

/// The key of a sample.
#[derive(Debug)]
pub struct Key {
    pub metric_name: String,
    pub name: String,
    pub labels: Labels,
    pub help_text: String,
}

/// What a key holds.
pub struct KeyView {
    pub metric_name: Seq<char>,
    pub name: Seq<char>,
    pub labels: Map<Seq<char>, Seq<char>>,
    pub help_text: Seq<char>,
}

impl View for Key {
    type V = KeyView;

    open spec fn view(&self) -> KeyView {
        KeyView {
            metric_name: self.metric_name@,
            name: self.name@,
            labels: self.labels@,
            help_text: self.help_text@,
        }
    }
}

impl Clone for Key {
    fn clone(&self) -> (r: Key)
        ensures
            r@ == self@,
    {
        Key {
            metric_name: self.metric_name.clone(),
            name: self.name.clone(),
            labels: self.labels.clone(),
            help_text: self.help_text.clone(),
        }
    }
}

/// A JSON document, as far as a key is read from it: of a number only that it
/// is one is kept.
pub enum JsonView {
    Null,
    Bool(bool),
    Number,
    Text(Seq<char>),
    List(Seq<JsonView>),
    Dict(Map<Seq<char>, JsonView>),
}

/// `serde_json::Value`, a JSON document; nothing is known of what is in one
/// but what [`json_view`] says.
#[verifier::external_type_specification]
#[verifier::external_body]
pub struct ExJsonValue(serde_json::Value);

/// `serde_json::Error`, the error of reading a text; it is passed on and not
/// looked into.
#[verifier::external_type_specification]
#[verifier::external_body]
pub struct ExJsonError(serde_json::Error);

/// `serde_json::Map`, the members of a JSON object; nothing is known of what
/// is in one but what [`json_members`] says.
#[verifier::external_type_specification]
#[verifier::external_body]
#[verifier::reject_recursive_types(K)]
#[verifier::reject_recursive_types(V)]
pub struct ExJsonMap<K, V>(serde_json::Map<K, V>);

/// The document that `serde_json::from_str` reads from a text, and none where
/// it reports an error.
pub uninterp spec fn json_document(text: Seq<char>) -> Option<JsonView>;

/// What a `serde_json::Value` holds.
pub uninterp spec fn json_view(value: serde_json::Value) -> JsonView;

/// The members that a `serde_json::Map` holds, by their names.
pub uninterp spec fn json_members(members: serde_json::Map<String, serde_json::Value>) -> Map<
    Seq<char>,
    JsonView,
>;

/// `serde_json::from_str`, to a `serde_json::Value`: the text is read as one
/// JSON document, and what it returns depends on the text alone.
#[verifier::external_body]
fn json_from_str(text: &str) -> (r: Result<serde_json::Value, serde_json::Error>)
    ensures
        match r {
            Ok(value) => json_document(text@) == Some(json_view(value)),
            Err(_) => json_document(text@) is None,
        },
{
    serde_json::from_str::<serde_json::Value>(text)
}

/// `serde_json::Value::as_str`: the string of a value that is a string, and
/// none for any other value.
pub assume_specification<'a>[ serde_json::Value::as_str ](value: &'a serde_json::Value) -> (r:
    Option<&'a str>)
    ensures
        r matches Some(s) ==> json_view(*value) == JsonView::Text(s@),
        r is None ==> !(json_view(*value) is Text),
;

/// `serde_json::Value::as_array`: the items of a value that is an array, and
/// none for any other value.
pub assume_specification<'a>[ serde_json::Value::as_array ](value: &'a serde_json::Value) -> (r:
    Option<&'a Vec<serde_json::Value>>)
    ensures
        r matches Some(items) ==> json_view(*value) == JsonView::List(json_views(items@)),
        r is None ==> !(json_view(*value) is List),
;

/// `serde_json::Value::as_object`: the members of a value that is an object,
/// and none for any other value.
pub assume_specification<'a>[ serde_json::Value::as_object ](value: &'a serde_json::Value) -> (r:
    Option<&'a serde_json::Map<String, serde_json::Value>>)
    ensures
        r matches Some(members) ==> json_view(*value) == JsonView::Dict(json_members(*members)),
        r is None ==> !(json_view(*value) is Dict),
;

/// `serde_json::Map::get`, with a string as the key: the member of that name,
/// and none where there is no such member.
#[verifier::external_body]
fn member<'a>(members: &'a serde_json::Map<String, serde_json::Value>, name: &str) -> (r: Option<
    &'a serde_json::Value,
>)
    ensures
        r matches Some(value) ==> json_members(*members).contains_key(name@) && json_members(
            *members,
        )[name@] == json_view(*value),
        r is None ==> !json_members(*members).contains_key(name@),
{
    members.get(name)
}

/// `serde_json::Map::keys`: the names of the members, each once.
#[verifier::external_body]
fn member_names(members: &serde_json::Map<String, serde_json::Value>) -> (names: Vec<String>)
    ensures
        texts(names@).no_duplicates(),
        texts(names@).to_set() == json_members(*members).dom(),
{
    members.keys().cloned().collect()
}

/// What a list of values holds.
pub open spec fn json_views(values: Seq<serde_json::Value>) -> Seq<JsonView> {
    values.map_values(|v: serde_json::Value| json_view(v))
}

/// The texts of a list of strings.
pub open spec fn texts(strings: Seq<String>) -> Seq<Seq<char>> {
    strings.map_values(|s: String| s@)
}

/// The labels that a document stands for: it is an object, and each of its
/// members is a string.
pub open spec fn labels_of(document: JsonView) -> Option<Map<Seq<char>, Seq<char>>> {
    match document {
        JsonView::Dict(members) => if forall|k: Seq<char>|
            members.contains_key(k) ==> #[trigger] members[k] is Text {
            Some(
                Map::new(
                    |k: Seq<char>| members.contains_key(k),
                    |k: Seq<char>| members[k]->Text_0,
                ),
            )
        } else {
            None
        },
        _ => None,
    }
}

/// The key that four documents stand for: three strings, and the labels in
/// the third place.
pub open spec fn key_of_parts(
    metric_name: JsonView,
    name: JsonView,
    labels: JsonView,
    help_text: JsonView,
) -> Option<KeyView> {
    match (metric_name, name, labels_of(labels), help_text) {
        (JsonView::Text(metric_name), JsonView::Text(name), Some(labels), JsonView::Text(help_text)) => {
            Some(KeyView { metric_name, name, labels, help_text })
        },
        _ => None,
    }
}

/// The key that a document stands for: an array of the four parts, or an
/// object whose members are the four parts, by their names.
pub open spec fn key_of_json(document: JsonView) -> Option<KeyView> {
    match document {
        JsonView::List(items) => if items.len() == 4 {
            key_of_parts(items[0], items[1], items[2], items[3])
        } else {
            None
        },
        JsonView::Dict(members) => if members.dom().len() == 4 && members.contains_key(
            "metric_name"@,
        ) && members.contains_key("name"@) && members.contains_key("labels"@)
            && members.contains_key("help_text"@) {
            key_of_parts(
                members["metric_name"@],
                members["name"@],
                members["labels"@],
                members["help_text"@],
            )
        } else {
            None
        },
        _ => None,
    }
}

/// The key that a text stands for, and none where the text is no JSON
/// document or the document is no key.
pub open spec fn spec_parse_key(text: Seq<char>) -> Option<KeyView> {
    match json_document(text) {
        Some(document) => key_of_json(document),
        None => None,
    }
}

/// Whether `k` is one of the first `count` names.
spec fn among_first(names: Seq<Seq<char>>, count: int, k: Seq<char>) -> bool {
    exists|j: int| 0 <= j < count && j < names.len() && #[trigger] names[j] == k
}

/// The labels that a value stands for.
fn labels_from_json(value: &serde_json::Value) -> (r: Option<Labels>)
    ensures
        match labels_of(json_view(*value)) {
            Some(labels) => r is Some && r->Some_0@ == labels,
            None => r is None,
        },
{
    let members = match value.as_object() {
        Some(members) => members,
        None => {
            return None;
        },
    };
    let ghost model = json_members(*members);
    let names = member_names(members);
    let mut labels = Labels::new();
    let mut i: usize = 0;
    while i < names.len()
        invariant
            i <= names.len(),
            model == json_members(*members),
            json_view(*value) == JsonView::Dict(model),
            texts(names@).to_set() == model.dom(),
            forall|j: int| 0 <= j < i ==> model[#[trigger] texts(names@)[j]] is Text,
            labels@ == Map::new(
                |k: Seq<char>| among_first(texts(names@), i as int, k),
                |k: Seq<char>| model[k]->Text_0,
            ),
        decreases names.len() - i,
    {
        let ghost k = texts(names@)[i as int];
        assert(k == names@[i as int]@);
        assert(texts(names@).to_set().contains(k));
        let text = match member(members, names[i].as_str()) {
            Some(value) => value.as_str(),
            None => None,
        };
        match text {
            Some(text) => {
                let ghost before = labels@;
                labels.insert(names[i].clone(), text.to_owned());
                assert(labels@ =~= Map::new(
                    |k: Seq<char>| among_first(texts(names@), i + 1, k),
                    |k: Seq<char>| model[k]->Text_0,
                )) by {
                    assert forall|q: Seq<char>| #[trigger]
                        among_first(texts(names@), i + 1, q) <==> (q == k || among_first(
                            texts(names@),
                            i as int,
                            q,
                        )) by {
                        if q == k {
                            assert(texts(names@)[i as int] == q);
                        }
                        if among_first(texts(names@), i as int, q) {
                            let j = choose|j: int|
                                0 <= j < i && j < names.len() && #[trigger] texts(names@)[j] == q;
                            assert(texts(names@)[j] == q);
                        }
                    }
                }
            },
            None => {
                assert(model.contains_key(k) && !(model[k] is Text));
                return None;
            },
        }
        i += 1;
    }
    proof {
        assert forall|q: Seq<char>| model.contains_key(q) implies #[trigger] model[q] is Text by {
            assert(texts(names@).to_set().contains(q));
            let j = choose|j: int| 0 <= j < names.len() && texts(names@)[j] == q;
            assert(model[texts(names@)[j]] is Text);
        }
        assert(labels@ =~= Map::new(
            |k: Seq<char>| model.contains_key(k),
            |k: Seq<char>| model[k]->Text_0,
        )) by {
            assert forall|q: Seq<char>| model.contains_key(q) <==> #[trigger] among_first(
                texts(names@),
                i as int,
                q,
            ) by {
                if model.contains_key(q) {
                    assert(texts(names@).to_set().contains(q));
                    assert(texts(names@).contains(q));
                    let j = choose|j: int| 0 <= j < names.len() && texts(names@)[j] == q;
                    assert(texts(names@)[j] == q);
                }
                if among_first(texts(names@), i as int, q) {
                    let j = choose|j: int|
                        0 <= j < i && j < names.len() && #[trigger] texts(names@)[j] == q;
                    assert(texts(names@).contains(texts(names@)[j]));
                    assert(texts(names@).to_set().contains(q));
                }
            }
        }
    }
    Some(labels)
}

/// The key that four values stand for.
fn key_from_parts(
    metric_name: &serde_json::Value,
    name: &serde_json::Value,
    labels: &serde_json::Value,
    help_text: &serde_json::Value,
) -> (r: Option<Key>)
    ensures
        match key_of_parts(
            json_view(*metric_name),
            json_view(*name),
            json_view(*labels),
            json_view(*help_text),
        ) {
            Some(key) => r is Some && r->Some_0@ == key,
            None => r is None,
        },
{
    let metric_name = match metric_name.as_str() {
        Some(text) => text,
        None => {
            return None;
        },
    };
    let name = match name.as_str() {
        Some(text) => text,
        None => {
            return None;
        },
    };
    let labels = match labels_from_json(labels) {
        Some(labels) => labels,
        None => {
            return None;
        },
    };
    let help_text = match help_text.as_str() {
        Some(text) => text,
        None => {
            return None;
        },
    };
    Some(
        Key {
            metric_name: metric_name.to_owned(),
            name: name.to_owned(),
            labels,
            help_text: help_text.to_owned(),
        },
    )
}

/// The key that a JSON document stands for: that of an array of the four
/// parts, or of an object whose members are the four parts, by their names,
/// and none for any other document.
pub fn key_from_json(value: &serde_json::Value) -> (r: Option<Key>)
    ensures
        match key_of_json(json_view(*value)) {
            Some(key) => r is Some && r->Some_0@ == key,
            None => r is None,
        },
{
    match value.as_array() {
        Some(items) => {
            if items.len() != 4 {
                return None;
            }
            assert(json_views(items@)[0] == json_view(items@[0]));
            assert(json_views(items@)[1] == json_view(items@[1]));
            assert(json_views(items@)[2] == json_view(items@[2]));
            assert(json_views(items@)[3] == json_view(items@[3]));
            return key_from_parts(&items[0], &items[1], &items[2], &items[3]);
        },
        None => {},
    }
    let members = match value.as_object() {
        Some(members) => members,
        None => {
            return None;
        },
    };
    let names = member_names(members);
    proof {
        texts(names@).unique_seq_to_set();
    }
    if names.len() != 4 {
        return None;
    }
    let metric_name = match member(members, "metric_name") {
        Some(value) => value,
        None => {
            return None;
        },
    };
    let name = match member(members, "name") {
        Some(value) => value,
        None => {
            return None;
        },
    };
    let labels = match member(members, "labels") {
        Some(value) => value,
        None => {
            return None;
        },
    };
    let help_text = match member(members, "help_text") {
        Some(value) => value,
        None => {
            return None;
        },
    };
    key_from_parts(metric_name, name, labels, help_text)
}

/// Decodes the key of a sample from its JSON text.
///
/// Fails, on corruption of the kind [`Corruption::InvalidKey`], where the text
/// is no JSON document or the document is no key.
pub fn parse_key(text: &str) -> (r: Result<Key, MergeError>)
    ensures
        match spec_parse_key(text@) {
            Some(key) => r is Ok && r->Ok_0@ == key,
            None => fails_with(r, Corruption::InvalidKey),
        },
{
    let value = match json_from_str(text) {
        Ok(value) => value,
        Err(_) => {
            return Err(MergeError::DataCorruption(Corruption::InvalidKey));
        },
    };
    match key_from_json(&value) {
        Some(key) => Ok(key),
        None => Err(MergeError::DataCorruption(Corruption::InvalidKey)),
    }
}

/// The keys that were decoded during one merge, by their texts: a text that
/// comes again is not decoded again.
pub struct KeyCache {
    entries: StringHashMap<Key>,
}

impl KeyCache {
    /// The texts whose keys the cache holds.
    pub closed spec fn held(self) -> Set<Seq<char>> {
        self.entries@.dom()
    }

    /// Each key in the cache is the key of its text.
    #[verifier::type_invariant]
    spec fn wf(self) -> bool {
        forall|text: Seq<char>| #[trigger]
            self.entries@.contains_key(text) ==> spec_parse_key(text) == Some(
                self.entries@[text]@,
            )
    }

    /// A cache that holds no key.
    pub fn new() -> (cache: KeyCache)
        ensures
            cache.held() == Set::<Seq<char>>::empty(),
    {
        let cache = KeyCache { entries: StringHashMap::new() };
        assert(cache.held() =~= Set::<Seq<char>>::empty());
        cache
    }

    /// The key of the text, from the cache where the text was seen before.
    ///
    /// The outcome is that of [`parse_key`], whatever the cache holds. A text
    /// that is a key is held from then on; a text that is none leaves the cache
    /// as it is.
    pub fn decode(&mut self, text: &str) -> (r: Result<Key, MergeError>)
        ensures
            match spec_parse_key(text@) {
                Some(key) => r is Ok && r->Ok_0@ == key && final(self).held() == old(
                    self,
                ).held().insert(text@),
                None => fails_with(r, Corruption::InvalidKey) && final(self).held() == old(
                    self,
                ).held(),
            },
    {
        proof {
            use_type_invariant(&*self);
        }
        match self.entries.get(text) {
            Some(key) => {
                assert(self.held() =~= old(self).held().insert(text@));
                return Ok(key.clone());
            },
            None => {},
        }
        let key = match parse_key(text) {
            Ok(key) => key,
            Err(e) => {
                return Err(e);
            },
        };
        let ghost before = self.held();
        let mut taken = KeyCache { entries: StringHashMap::new() };
        core::mem::swap(self, &mut taken);
        let KeyCache { mut entries } = taken;
        entries.insert(text.to_owned(), key.clone());
        *self = KeyCache { entries };
        assert(self.held() =~= before.insert(text@));
        Ok(key)
    }
}

} // verus!
