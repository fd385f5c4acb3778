//! JSON values, as far as tilesets and subtrees are read.

use vstd::prelude::*;

use crate::text;

verus! {

/// A JSON value.
#[derive(Debug)]
pub enum Json {
    /// `null`.
    Null,
    /// `true` or `false`.
    Bool(bool),
    /// A number: its value where that is an integer of 64 bits without a sign.
    Number(Option<u64>),
    /// A string.
    Text(String),
    /// An array.
    Array(Vec<Json>),
    /// An object: its keys and values.
    Object(Vec<(String, Json)>),
}

/// What a [`Json`] stands for.
#[verifier::ext_equal]
pub enum JsonModel {
    /// `null`.
    Null,
    /// `true` or `false`.
    Bool(bool),
    /// A number.
    Number(Option<u64>),
    /// A string.
    Text(Seq<char>),
    /// An array.
    Array(Seq<JsonModel>),
    /// An object.
    Object(Seq<(Seq<char>, JsonModel)>),
}

/// What a JSON value stands for.
pub open spec fn model(json: Json) -> JsonModel
    decreases json,
{
    match json {
        Json::Null => JsonModel::Null,
        Json::Bool(value) => JsonModel::Bool(value),
        Json::Number(value) => JsonModel::Number(value),
        Json::Text(value) => JsonModel::Text(value@),
        Json::Array(values) => JsonModel::Array(
            Seq::new(
                values@.len(),
                |i: int|
                    if 0 <= i < values@.len() {
                        model(values@[i])
                    } else {
                        JsonModel::Null
                    },
            ),
        ),
        Json::Object(entries) => JsonModel::Object(
            Seq::new(
                entries@.len(),
                |i: int|
                    if 0 <= i < entries@.len() {
                        (entries@[i].0@, model(entries@[i].1))
                    } else {
                        (Seq::empty(), JsonModel::Null)
                    },
            ),
        ),
    }
}

impl View for Json {
    type V = JsonModel;

    open spec fn view(&self) -> JsonModel {
        model(*self)
    }
}

/// What the entries of an object stand for.
pub open spec fn entries_view(entries: Seq<(String, Json)>) -> Seq<(Seq<char>, JsonModel)> {
    entries.map_values(|entry: (String, Json)| (entry.0@, entry.1@))
}

/// What a list of values stands for.
pub open spec fn values_view(values: Seq<Json>) -> Seq<JsonModel> {
    values.map_values(|value: Json| value@)
}

/// What an optional reference to a value stands for.
pub open spec fn optional_view(json: Option<&Json>) -> Option<JsonModel> {
    match json {
        Some(value) => Some(value@),
        None => None,
    }
}

/// The value of the first entry with the given key.
pub open spec fn lookup(entries: Seq<(Seq<char>, JsonModel)>, key: Seq<char>) -> Option<JsonModel>
    decreases entries.len(),
{
    if entries.len() == 0 {
        None
    } else if entries[0].0 == key {
        Some(entries[0].1)
    } else {
        lookup(entries.skip(1), key)
    }
}

/// The value under a key, where the JSON value is an object that has it.
pub open spec fn field(json: JsonModel, key: Seq<char>) -> Option<JsonModel> {
    match json {
        JsonModel::Object(entries) => lookup(entries, key),
        _ => None,
    }
}

/// The text of an optional value, where that is a string.
pub open spec fn string_of(json: Option<JsonModel>) -> Option<Seq<char>> {
    match json {
        Some(JsonModel::Text(value)) => Some(value),
        _ => None,
    }
}

/// The number of an optional value, where that is an integer of 64 bits without a
/// sign.
pub open spec fn number_of(json: Option<JsonModel>) -> Option<u64> {
    match json {
        Some(JsonModel::Number(value)) => value,
        _ => None,
    }
}

proof fn lemma_lookup_skips(entries: Seq<(Seq<char>, JsonModel)>, key: Seq<char>, n: int)
    requires
        0 <= n <= entries.len(),
        forall|i: int| 0 <= i < n ==> (#[trigger] entries[i]).0 != key,
    ensures
        lookup(entries, key) == lookup(entries.skip(n), key),
    decreases n,
{
    if n == 0 {
        assert(entries.skip(0) =~= entries);
    } else {
        assert(entries[0].0 != key);
        assert forall|i: int| 0 <= i < n - 1 implies (#[trigger] entries.skip(1)[i]).0 != key by {
            assert(entries[i + 1].0 != key);
        }
        lemma_lookup_skips(entries.skip(1), key, n - 1);
        assert(entries.skip(1).skip(n - 1) =~= entries.skip(n));
    }
}

/// The value of the first entry with the given key.
pub fn find<'a>(entries: &'a Vec<(String, Json)>, key: &str) -> (out: Option<&'a Json>)
    ensures
        optional_view(out) == lookup(entries_view(entries@), key@),
{
    let ghost model = entries_view(entries@);
    let mut i: usize = 0;
    while i < entries.len()
        invariant
            i <= entries.len(),
            model == entries_view(entries@),
            forall|j: int| 0 <= j < i ==> (#[trigger] model[j]).0 != key@,
        decreases entries.len() - i,
    {
        let entry = &entries[i];
        assert(model[i as int] == (entry.0@, entry.1@));
        if text::same_text(entry.0.as_str(), key) {
            proof {
                lemma_lookup_skips(model, key@, i as int);
                assert(model.skip(i as int)[0] == model[i as int]);
            }
            return Some(&entry.1);
        }
        i += 1;
    }
    proof {
        lemma_lookup_skips(model, key@, i as int);
    }
    None
}

impl Json {
    /// The value under a key, where this is an object that has it.
    pub fn get(&self, key: &str) -> (out: Option<&Json>)
        ensures
            optional_view(out) == field(self@, key@),
    {
        match self {
            Json::Object(entries) => {
                assert(self@->Object_0 =~= entries_view(entries@));
                find(entries, key)
            },
            _ => None,
        }
    }

    /// The text, where this is a string.
    pub fn as_str(&self) -> (out: Option<&str>)
        ensures
            match out {
                Some(value) => string_of(Some(self@)) == Some(value@),
                None => string_of(Some(self@)) is None,
            },
    {
        match self {
            Json::Text(value) => Some(value.as_str()),
            _ => None,
        }
    }

    /// The number, where this is an integer of 64 bits without a sign.
    pub fn as_u64(&self) -> (out: Option<u64>)
        ensures
            out == number_of(Some(self@)),
    {
        match self {
            Json::Number(value) => *value,
            _ => None,
        }
    }

    /// The truth value, where this is one.
    pub fn as_bool(&self) -> (out: Option<bool>)
        ensures
            out == (match self@ {
                JsonModel::Bool(value) => Some(value),
                _ => None,
            }),
    {
        match self {
            Json::Bool(value) => Some(*value),
            _ => None,
        }
    }

    /// The elements, where this is an array.
    pub fn as_array(&self) -> (out: Option<&Vec<Json>>)
        ensures
            match out {
                Some(values) => self@ == JsonModel::Array(values_view(values@)),
                None => !(self@ is Array),
            },
    {
        match self {
            Json::Array(values) => {
                assert(self@->Array_0 =~= values_view(values@));
                Some(values)
            },
            _ => None,
        }
    }

    /// A copy of this value.
    pub fn duplicate(&self) -> (out: Json)
        ensures
            out@ == self@,
        decreases self,
    {
        match self {
            Json::Null => Json::Null,
            Json::Bool(value) => Json::Bool(*value),
            Json::Number(value) => Json::Number(*value),
            Json::Text(value) => Json::Text(value.clone()),
            Json::Array(values) => {
                let mut copy: Vec<Json> = Vec::new();
                let mut i: usize = 0;
                while i < values.len()
                    invariant
                        i <= values.len(),
                        *self == Json::Array(*values),
                        copy@.len() == i,
                        forall|j: int| 0 <= j < i ==> (#[trigger] copy@[j])@ == values@[j]@,
                    decreases values.len() - i,
                {
                    assert(decreases_to!(*self => self->Array_0));
                    assert(decreases_to!(self->Array_0 => values@));
                    assert(decreases_to!(values@ => values@[i as int]));
                    copy.push(values[i].duplicate());
                    i += 1;
                }
                let out = Json::Array(copy);
                assert(out@->Array_0 =~= self@->Array_0);
                out
            },
            Json::Object(entries) => {
                let mut copy: Vec<(String, Json)> = Vec::new();
                let mut i: usize = 0;
                while i < entries.len()
                    invariant
                        i <= entries.len(),
                        *self == Json::Object(*entries),
                        copy@.len() == i,
                        forall|j: int|
                            0 <= j < i ==> (#[trigger] copy@[j]).0@ == entries@[j].0@
                                && copy@[j].1@ == entries@[j].1@,
                    decreases entries.len() - i,
                {
                    assert(decreases_to!(*self => self->Object_0));
                    assert(decreases_to!(self->Object_0 => entries@));
                    assert(decreases_to!(entries@ => entries@[i as int]));
                    assert(decreases_to!(entries@[i as int] => entries@[i as int].1));
                    copy.push((entries[i].0.clone(), entries[i].1.duplicate()));
                    i += 1;
                }
                let out = Json::Object(copy);
                assert(out@->Object_0 =~= self@->Object_0);
                out
            },
        }
    }
}

/// A key finds the first entry that has it, and finds nothing exactly where no entry
/// has it.
pub proof fn law_lookup_finds_the_first(entries: Seq<(Seq<char>, JsonModel)>, key: Seq<char>)
    ensures
        lookup(entries, key) is None <==> (forall|i: int|
            0 <= i < entries.len() ==> (#[trigger] entries[i]).0 != key),
        lookup(entries, key) matches Some(value) ==> exists|i: int|
            {
                &&& 0 <= i < entries.len()
                &&& #[trigger] entries[i] == (key, value)
                &&& forall|j: int| 0 <= j < i ==> (#[trigger] entries[j]).0 != key
            },
    decreases entries.len(),
{
    if entries.len() > 0 {
        let rest = entries.skip(1);
        if entries[0].0 == key {
            assert(entries[0] == (key, entries[0].1));
        } else {
            law_lookup_finds_the_first(rest, key);
            assert forall|i: int| 0 < i < entries.len() implies #[trigger] entries[i] == rest[i
                - 1] by {}
            if let Some(value) = lookup(rest, key) {
                let i = choose|i: int|
                    {
                        &&& 0 <= i < rest.len()
                        &&& #[trigger] rest[i] == (key, value)
                        &&& forall|j: int| 0 <= j < i ==> (#[trigger] rest[j]).0 != key
                    };
                assert(entries[i + 1] == (key, value));
                assert forall|j: int| 0 <= j < i + 1 implies (#[trigger] entries[j]).0 != key by {
                    if j > 0 {
                        assert(entries[j] == rest[j - 1]);
                    }
                }
            } else {
                assert forall|i: int| 0 <= i < entries.len() implies (#[trigger] entries[i]).0
                    != key by {
                    if i > 0 {
                        assert(entries[i] == rest[i - 1]);
                    }
                }
            }
            if forall|i: int| 0 <= i < entries.len() ==> (#[trigger] entries[i]).0 != key {
                assert forall|i: int| 0 <= i < rest.len() implies (#[trigger] rest[i]).0
                    != key by {
                    assert(entries[i + 1].0 != key);
                }
            }
        }
    }
}

/// A value under a key is had of objects alone, a text of strings alone, and a number
/// of integers alone.
pub proof fn law_values_have_one_type(json: JsonModel, key: Seq<char>)
    ensures
        field(json, key) is Some ==> json is Object,
        json matches JsonModel::Object(entries) ==> field(json, key) == lookup(entries, key),
        string_of(Some(json)) is Some <==> json is Text,
        json matches JsonModel::Text(t) ==> string_of(Some(json)) == Some(t),
        number_of(Some(json)) is Some ==> json is Number,
        json matches JsonModel::Number(n) ==> number_of(Some(json)) == n,
        string_of(None) is None,
        number_of(None) is None,
{
}

} // verus!
