//! JSON values as the library reads them, parsed and printed by `serde_json`.
use vstd::prelude::*;

use crate::text::text_eq;

verus! {

/// A JSON value. An object lists its members in the order of the parser's map,
/// each key once.
#[derive(Debug)]
pub enum Json {
    Null,
    Bool(bool),
    /// A number, spelled as the parser spells its value (`1E2` is `100.0`), and the
    /// value itself where it is written as a non-negative integer of at most 64 bits.
    Number { unsigned: Option<u64>, text: String },
    Text(String),
    Array(Vec<Json>),
    Object(Vec<(String, Json)>),
}

/// The parser's own value type, carried only between the parser and [`Json`].
#[verifier::external_type_specification]
#[verifier::external_body]
pub struct ExValue(serde_json::Value);

/// What a [`Json`] value denotes.
pub enum JsonView {
    Null,
    Bool(bool),
    Number { unsigned: Option<u64>, text: Seq<char> },
    Text(Seq<char>),
    Array(Seq<JsonView>),
    Object(Seq<(Seq<char>, JsonView)>),
}

impl View for Json {
    type V = JsonView;

    open spec fn view(&self) -> JsonView
        decreases self,
    {
        match self {
            Json::Null => JsonView::Null,
            Json::Bool(b) => JsonView::Bool(*b),
            Json::Number { unsigned, text } => JsonView::Number { unsigned: *unsigned, text: text@ },
            Json::Text(s) => JsonView::Text(s@),
            Json::Array(items) => JsonView::Array(
                Seq::new(
                    items@.len(),
                    |i: int|
                        if 0 <= i < items@.len() {
                            items@[i].view()
                        } else {
                            arbitrary()
                        },
                ),
            ),
            Json::Object(members) => JsonView::Object(
                Seq::new(
                    members@.len(),
                    |i: int|
                        if 0 <= i < members@.len() {
                            (members@[i].0@, members@[i].1.view())
                        } else {
                            arbitrary()
                        },
                ),
            ),
        }
    }
}

/// The views of the items of an array.
pub open spec fn item_views(items: Seq<Json>) -> Seq<JsonView> {
    items.map_values(|item: Json| item@)
}

/// The views of the members of an object.
pub open spec fn member_views(members: Seq<(String, Json)>) -> Seq<(Seq<char>, JsonView)> {
    members.map_values(|member: (String, Json)| (member.0@, member.1@))
}

/// The view of an array holds the views of its items.
pub proof fn array_view(items: Vec<Json>)
    ensures
        Json::Array(items)@ == JsonView::Array(item_views(items@)),
{
    reveal_with_fuel(<Json as View>::view, 2);
    assert(Json::Array(items)@->Array_0 =~= item_views(items@));
}

/// The view of an object holds the views of its members.
pub proof fn object_view(members: Vec<(String, Json)>)
    ensures
        Json::Object(members)@ == JsonView::Object(member_views(members@)),
{
    reveal_with_fuel(<Json as View>::view, 2);
    assert(Json::Object(members)@->Object_0 =~= member_views(members@));
}

impl Clone for Json {
    fn clone(&self) -> (copy: Self)
        ensures
            copy@ == self@,
        decreases self,
    {
        match self {
            Json::Null => Json::Null,
            Json::Bool(b) => Json::Bool(*b),
            Json::Number { unsigned, text } => Json::Number {
                unsigned: *unsigned,
                text: text.clone(),
            },
            Json::Text(s) => Json::Text(s.clone()),
            Json::Array(items) => {
                let mut copies: Vec<Json> = Vec::new();
                let mut i: usize = 0;
                while i < items.len()
                    invariant
                        i <= items@.len(),
                        copies@.len() == i,
                        self matches Json::Array(v) && v == items,
                        forall|j: int| 0 <= j < i ==> (#[trigger] copies@[j])@ == items@[j]@,
                    decreases items@.len() - i,
                {
                    copies.push(items[i].clone());
                    i = i + 1;
                }
                proof {
                    array_view(*items);
                    array_view(copies);
                    assert(item_views(copies@) =~= item_views(items@));
                }
                Json::Array(copies)
            },
            Json::Object(members) => {
                let mut copies: Vec<(String, Json)> = Vec::new();
                let mut i: usize = 0;
                while i < members.len()
                    invariant
                        i <= members@.len(),
                        copies@.len() == i,
                        self matches Json::Object(v) && v == members,
                        forall|j: int|
                            0 <= j < i ==> (#[trigger] copies@[j]).0@ == members@[j].0@
                                && copies@[j].1@ == members@[j].1@,
                    decreases members@.len() - i,
                {
                    copies.push((members[i].0.clone(), members[i].1.clone()));
                    i = i + 1;
                }
                proof {
                    object_view(*members);
                    object_view(copies);
                    assert(member_views(copies@) =~= member_views(members@));
                }
                Json::Object(copies)
            },
        }
    }
}

/// The first value listed under `key`.
pub open spec fn lookup(members: Seq<(Seq<char>, JsonView)>, key: Seq<char>) -> Option<JsonView>
    decreases members.len(),
{
    if members.len() == 0 {
        None
    } else if members[0].0 == key {
        Some(members[0].1)
    } else {
        lookup(members.drop_first(), key)
    }
}

impl JsonView {
    /// The member `key` of an object; nothing of any other value.
    pub open spec fn member(self, key: Seq<char>) -> Option<JsonView> {
        match self {
            JsonView::Object(members) => lookup(members, key),
            _ => None,
        }
    }

    /// The truth value of a boolean.
    pub open spec fn boolean(self) -> Option<bool> {
        match self {
            JsonView::Bool(b) => Some(b),
            _ => None,
        }
    }

    /// The value of a non-negative integer of at most 64 bits.
    pub open spec fn unsigned(self) -> Option<u64> {
        match self {
            JsonView::Number { unsigned, .. } => unsigned,
            _ => None,
        }
    }

    /// The characters of a string.
    pub open spec fn text(self) -> Option<Seq<char>> {
        match self {
            JsonView::Text(s) => Some(s),
            _ => None,
        }
    }
}

impl Json {
    /// The member `key` of an object.
    pub fn get(&self, key: &str) -> (found: Option<&Json>)
        ensures
            found matches Some(v) ==> self@.member(key@) == Some(v@),
            found is None ==> self@.member(key@) is None,
    {
        match self {
            Json::Object(members) => {
                let ghost all = member_views(members@);
                proof {
                    object_view(*members);
                    assert(all.skip(0) =~= all);
                }
                let mut i: usize = 0;
                while i < members.len()
                    invariant
                        i <= members@.len(),
                        all == member_views(members@),
                        self@ == JsonView::Object(all),
                        lookup(all, key@) == lookup(all.skip(i as int), key@),
                    decreases members@.len() - i,
                {
                    if text_eq(members[i].0.as_str(), key) {
                        return Some(&members[i].1);
                    }
                    proof {
                        assert(all.skip(i as int).drop_first() =~= all.skip(i + 1));
                    }
                    i = i + 1;
                }
                None
            },
            _ => None,
        }
    }

    /// The truth value of a boolean.
    pub fn as_bool(&self) -> (b: Option<bool>)
        ensures
            b == self@.boolean(),
    {
        match self {
            Json::Bool(b) => Some(*b),
            _ => None,
        }
    }

    /// The value of a non-negative integer of at most 64 bits.
    pub fn as_u64(&self) -> (n: Option<u64>)
        ensures
            n == self@.unsigned(),
    {
        match self {
            Json::Number { unsigned, .. } => *unsigned,
            _ => None,
        }
    }

    /// The characters of a string.
    pub fn as_str(&self) -> (s: Option<&String>)
        ensures
            match s {
                Some(s) => self@.text() == Some(s@),
                None => self@.text() is None,
            },
    {
        match self {
            Json::Text(s) => Some(s),
            _ => None,
        }
    }

    /// Moves a `serde_json::Value` into a [`Json`], variant by variant.
    #[verifier::external_body]
    fn of_value(value: serde_json::Value) -> Json {
        match value {
            serde_json::Value::Null => Json::Null,
            serde_json::Value::Bool(b) => Json::Bool(b),
            serde_json::Value::Number(n) => Json::Number { unsigned: n.as_u64(), text: n.to_string() },
            serde_json::Value::String(s) => Json::Text(s),
            serde_json::Value::Array(items) => Json::Array(items.into_iter().map(Json::of_value).collect()),
            serde_json::Value::Object(members) => Json::Object(
                members.into_iter().map(|(k, v)| (k, Json::of_value(v))).collect(),
            ),
        }
    }

    /// Builds the `serde_json::Value` that a [`Json`] stands for, variant by variant.
    #[verifier::external_body]
    fn to_value(&self) -> serde_json::Value {
        match self {
            Json::Null => serde_json::Value::Null,
            Json::Bool(b) => serde_json::Value::Bool(*b),
            Json::Number { text, .. } => text.parse().map_or(serde_json::Value::Null, serde_json::Value::Number),
            Json::Text(s) => serde_json::Value::String(s.clone()),
            Json::Array(items) => serde_json::Value::Array(items.iter().map(Json::to_value).collect()),
            Json::Object(members) => serde_json::Value::Object(
                members.iter().map(|(k, v)| (k.clone(), v.to_value())).collect(),
            ),
        }
    }
}

/// The value that `serde_json::from_slice` reads from a byte string, if it reads
/// one.
pub uninterp spec fn json_of_bytes(raw: Seq<u8>) -> Option<JsonView>;

/// Parses a byte string as JSON.
///
/// Trusted: calls `serde_json::from_slice` for a `serde_json::Value`. The outcome
/// depends on the bytes alone. How bytes spell a value is not stated; where an
/// object repeats a key, the parser keeps the last member.
#[verifier::external_body]
pub(crate) fn parse_json(raw: &[u8]) -> (parsed: Option<Json>)
    ensures
        match parsed {
            Some(value) => json_of_bytes(raw@) == Some(value@),
            None => json_of_bytes(raw@) is None,
        },
{
    match serde_json::from_slice::<serde_json::Value>(raw) {
        Ok(value) => Some(Json::of_value(value)),
        Err(_) => None,
    }
}

/// Whether `serde_json` can go through a byte string without looking into its
/// values.
pub uninterp spec fn has_json_form(raw: Seq<u8>) -> bool;

/// Checks that a byte string has the form of JSON.
///
/// Trusted: calls `serde_json::from_slice` for a `serde::de::IgnoredAny`, which
/// passes over a value without keeping it. The outcome depends on the bytes alone.
/// Which byte strings have the form is not stated; numbers of any size, strings
/// with any `\u` escapes and any depth of nesting are let through.
#[verifier::external_body]
pub(crate) fn check_form(raw: &[u8]) -> (has_form: bool)
    ensures
        has_form == has_json_form(raw@),
{
    serde_json::from_slice::<serde::de::IgnoredAny>(raw).is_ok()
}

/// The indented text that `serde_json::to_string_pretty` writes for a value.
pub uninterp spec fn pretty_json(value: JsonView) -> Seq<char>;

/// Prints a value as indented JSON.
///
/// Trusted: calls `serde_json::to_string_pretty`. The text depends on the value
/// alone; its layout is not stated.
#[verifier::external_body]
pub(crate) fn print_pretty(value: &Json) -> (text: String)
    ensures
        text@ == pretty_json(value@),
{
    serde_json::to_string_pretty(&value.to_value()).unwrap_or_default()
}

/// The member under a key is the first with that key; of a value that is no object,
/// or has no such key, there is none.
pub proof fn a_member_is_the_first_under_its_key(value: JsonView, key: Seq<char>)
    ensures
        match value {
            JsonView::Object(members) => {
                &&& forall|i: int|
                    0 <= i < members.len() && (#[trigger] members[i]).0 == key && (forall|j: int|
                        0 <= j < i ==> (#[trigger] members[j]).0 != key) ==> value.member(key)
                        == Some(members[i].1)
                &&& (forall|i: int| 0 <= i < members.len() ==> (#[trigger] members[i]).0 != key)
                    ==> value.member(key) is None
            },
            _ => value.member(key) is None,
        },
{
    if let JsonView::Object(members) = value {
        assert forall|i: int|
            0 <= i < members.len() && (#[trigger] members[i]).0 == key && (forall|j: int|
                0 <= j < i ==> (#[trigger] members[j]).0 != key) implies value.member(key) == Some(
            members[i].1,
        ) by {
            lookup_finds_the_first(members, key, i);
        }
        if forall|i: int| 0 <= i < members.len() ==> (#[trigger] members[i]).0 != key {
            lookup_finds_nothing(members, key);
        }
    }
}

proof fn lookup_finds_the_first(members: Seq<(Seq<char>, JsonView)>, key: Seq<char>, i: int)
    requires
        0 <= i < members.len(),
        members[i].0 == key,
        forall|j: int| 0 <= j < i ==> (#[trigger] members[j]).0 != key,
    ensures
        lookup(members, key) == Some(members[i].1),
    decreases members.len(),
{
    if i > 0 {
        assert(members[0].0 != key);
        let rest = members.drop_first();
        assert forall|j: int| 0 <= j < i - 1 implies (#[trigger] rest[j]).0 != key by {
            assert(members[j + 1].0 != key);
        }
        lookup_finds_the_first(rest, key, i - 1);
    }
}

proof fn lookup_finds_nothing(members: Seq<(Seq<char>, JsonView)>, key: Seq<char>)
    requires
        forall|i: int| 0 <= i < members.len() ==> (#[trigger] members[i]).0 != key,
    ensures
        lookup(members, key) is None,
    decreases members.len(),
{
    if members.len() > 0 {
        assert(members[0].0 != key);
        let rest = members.drop_first();
        assert forall|i: int| 0 <= i < rest.len() implies (#[trigger] rest[i]).0 != key by {
            assert(members[i + 1].0 != key);
        }
        lookup_finds_nothing(rest, key);
    }
}

} // verus!
