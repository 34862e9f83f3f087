//! JSON values.
//!
//! [`Json`] holds what the protocol reads of a JSON document. Parsing itself is
//! done by `serde_json`; [`parse`] turns what it returns into a [`Json`].
use vstd::prelude::*;

use crate::text;

verus! {

/// A JSON value.
///
/// A number is kept as its integer value; one that is not an integer of
/// `serde_json` (a fraction, an exponent, a magnitude past 64 bits) is kept as
/// `None`. An object keeps its entries in the order in which they were handed
/// over.
#[derive(Debug)]
pub enum Json {
    Null,
    Bool(bool),
    Number(Option<i128>),
    Str(String),
    Array(Vec<Json>),
    Object(Vec<(String, Json)>),
}

/// What a [`Json`] denotes.
pub enum JsonModel {
    Null,
    Bool(bool),
    Number(Option<i128>),
    Str(Seq<char>),
    Array(Seq<JsonModel>),
    Object(Seq<(Seq<char>, JsonModel)>),
}

impl Json {
    /// The value that this one denotes.
    pub open spec fn model(self) -> JsonModel
        decreases self,
    {
        match self {
            Json::Null => JsonModel::Null,
            Json::Bool(b) => JsonModel::Bool(b),
            Json::Number(n) => JsonModel::Number(n),
            Json::Str(s) => JsonModel::Str(s@),
            Json::Array(items) => JsonModel::Array(
                Seq::new(
                    items@.len(),
                    |i: int|
                        if 0 <= i < items@.len() {
                            items@[i].model()
                        } else {
                            JsonModel::Null
                        },
                ),
            ),
            Json::Object(entries) => JsonModel::Object(
                Seq::new(
                    entries@.len(),
                    |i: int|
                        if 0 <= i < entries@.len() {
                            (entries@[i].0@, entries@[i].1.model())
                        } else {
                            (Seq::empty(), JsonModel::Null)
                        },
                ),
            ),
        }
    }
}

impl View for Json {
    type V = JsonModel;

    open spec fn view(&self) -> JsonModel {
        self.model()
    }
}

/// What the values of a list denote.
pub open spec fn views(items: Seq<Json>) -> Seq<JsonModel> {
    Seq::new(items.len(), |i: int| items[i]@)
}

/// The value of the first entry with the given key.
pub open spec fn lookup(entries: Seq<(Seq<char>, JsonModel)>, key: Seq<char>) -> Option<JsonModel>
    decreases entries.len(),
{
    if entries.len() == 0 {
        None
    } else if entries[0].0 == key {
        Some(entries[0].1)
    } else {
        lookup(entries.drop_first(), key)
    }
}

/// A key that is found stands in one of the entries.
pub proof fn lemma_lookup(entries: Seq<(Seq<char>, JsonModel)>, key: Seq<char>)
    ensures
        lookup(entries, key) matches Some(v) ==> exists|i: int|
            0 <= i < entries.len() && #[trigger] entries[i] == (key, v),
    decreases entries.len(),
{
    if entries.len() > 0 && entries[0].0 != key {
        lemma_lookup(entries.drop_first(), key);
        if let Some(v) = lookup(entries, key) {
            let i = choose|i: int|
                0 <= i < entries.drop_first().len() && #[trigger] entries.drop_first()[i] == (
                    key,
                    v,
                );
            assert(entries[i + 1] == (key, v));
        }
    } else if entries.len() > 0 {
        assert(entries[0] == (key, entries[0].1));
    }
}

impl JsonModel {
    /// The member `key` of an object; nothing else has members.
    pub open spec fn get(self, key: Seq<char>) -> Option<JsonModel> {
        match self {
            JsonModel::Object(entries) => lookup(entries, key),
            _ => None,
        }
    }

    /// The text of a string.
    pub open spec fn as_str(self) -> Option<Seq<char>> {
        match self {
            JsonModel::Str(s) => Some(s),
            _ => None,
        }
    }

    /// The items of an array.
    pub open spec fn as_array(self) -> Option<Seq<JsonModel>> {
        match self {
            JsonModel::Array(items) => Some(items),
            _ => None,
        }
    }

    /// An integer that fits in `u64`.
    pub open spec fn as_u64(self) -> Option<u64> {
        match self {
            JsonModel::Number(Some(n)) => if 0 <= n <= u64::MAX {
                Some(n as u64)
            } else {
                None
            },
            _ => None,
        }
    }

    /// An integer that fits in `i64`.
    pub open spec fn as_i64(self) -> Option<i64> {
        match self {
            JsonModel::Number(Some(n)) => if i64::MIN <= n <= i64::MAX {
                Some(n as i64)
            } else {
                None
            },
            _ => None,
        }
    }

    /// The text of the string member `key`.
    pub open spec fn str_at(self, key: Seq<char>) -> Option<Seq<char>> {
        match self.get(key) {
            Some(v) => v.as_str(),
            None => None,
        }
    }

    /// The member `key` as an integer that fits in `i64`.
    pub open spec fn i64_at(self, key: Seq<char>) -> Option<i64> {
        match self.get(key) {
            Some(v) => v.as_i64(),
            None => None,
        }
    }

    /// The member `key` as an integer that fits in `u64`.
    pub open spec fn u64_at(self, key: Seq<char>) -> Option<u64> {
        match self.get(key) {
            Some(v) => v.as_u64(),
            None => None,
        }
    }

    /// The items of the array member `key`.
    pub open spec fn array_at(self, key: Seq<char>) -> Option<Seq<JsonModel>> {
        match self.get(key) {
            Some(v) => v.as_array(),
            None => None,
        }
    }
}

impl Json {
    /// The member `key` of an object; `None` for anything else and for a key
    /// that the object lacks.
    pub fn get(&self, key: &str) -> (r: Option<&Json>)
        ensures
            match r {
                Some(j) => self@.get(key@) == Some(j@),
                None => self@.get(key@) is None,
            },
    {
        match self {
            Json::Object(entries) => {
                let ghost m = self@->Object_0;
                let mut i: usize = 0;
                assert(m.skip(0) =~= m);
                while i < entries.len()
                    invariant
                        i <= entries@.len(),
                        *self == Json::Object(*entries),
                        self@ == JsonModel::Object(m),
                        m.len() == entries@.len(),
                        forall|k: int|
                            0 <= k < m.len() ==> #[trigger] m[k] == (
                                entries@[k].0@,
                                entries@[k].1@,
                            ),
                        lookup(m.skip(i as int), key@) == lookup(m, key@),
                    decreases entries@.len() - i,
                {
                    let entry = &entries[i];
                    assert(m.skip(i as int)[0] == m[i as int]);
                    if text::same(entry.0.as_str(), key) {
                        return Some(&entry.1);
                    }
                    assert(m.skip(i as int).drop_first() =~= m.skip(i + 1));
                    i = i + 1;
                }
                None
            },
            _ => None,
        }
    }

    /// The text of a string.
    pub fn as_str(&self) -> (r: Option<&str>)
        ensures
            match r {
                Some(s) => self@.as_str() == Some(s@),
                None => self@.as_str() is None,
            },
    {
        match self {
            Json::Str(s) => Some(s.as_str()),
            _ => None,
        }
    }

    /// The items of an array.
    pub fn as_array(&self) -> (r: Option<&Vec<Json>>)
        ensures
            match r {
                Some(items) => self@.as_array() == Some(views(items@)),
                None => self@.as_array() is None,
            },
    {
        match self {
            Json::Array(items) => {
                assert(self@->Array_0 =~= views(items@));
                Some(items)
            },
            _ => None,
        }
    }

    /// An integer that fits in `u64`.
    pub fn as_u64(&self) -> (r: Option<u64>)
        ensures
            r == self@.as_u64(),
    {
        match self {
            Json::Number(Some(n)) => {
                let n: i128 = *n;
                if 0 <= n && n <= u64::MAX as i128 {
                    Some(n as u64)
                } else {
                    None
                }
            },
            _ => None,
        }
    }

    /// An integer that fits in `i64`.
    pub fn as_i64(&self) -> (r: Option<i64>)
        ensures
            r == self@.as_i64(),
    {
        match self {
            Json::Number(Some(n)) => {
                let n: i128 = *n;
                if i64::MIN as i128 <= n && n <= i64::MAX as i128 {
                    Some(n as i64)
                } else {
                    None
                }
            },
            _ => None,
        }
    }

    /// The text of the string member `key`.
    pub fn str_at(&self, key: &str) -> (r: Option<&str>)
        ensures
            match r {
                Some(s) => self@.str_at(key@) == Some(s@),
                None => self@.str_at(key@) is None,
            },
    {
        match self.get(key) {
            Some(v) => v.as_str(),
            None => None,
        }
    }

    /// The member `key` as an integer that fits in `i64`.
    pub fn i64_at(&self, key: &str) -> (r: Option<i64>)
        ensures
            r == self@.i64_at(key@),
    {
        match self.get(key) {
            Some(v) => v.as_i64(),
            None => None,
        }
    }

    /// The member `key` as an integer that fits in `u64`.
    pub fn u64_at(&self, key: &str) -> (r: Option<u64>)
        ensures
            r == self@.u64_at(key@),
    {
        match self.get(key) {
            Some(v) => v.as_u64(),
            None => None,
        }
    }

    /// The items of the array member `key`.
    pub fn array_at(&self, key: &str) -> (r: Option<&Vec<Json>>)
        ensures
            match r {
                Some(items) => self@.array_at(key@) == Some(views(items@)),
                None => self@.array_at(key@) is None,
            },
    {
        match self.get(key) {
            Some(v) => v.as_array(),
            None => None,
        }
    }
}

/// `serde_json::Value`, a parsed document.
#[verifier::external_type_specification]
#[verifier::external_body]
pub struct ExValue(serde_json::Value);

/// `serde_json::Error`, the reason why a text is no document.
#[verifier::external_type_specification]
#[verifier::external_body]
pub struct ExJsonError(serde_json::Error);

/// What a `serde_json::Value` holds.
pub uninterp spec fn value_model(v: serde_json::Value) -> JsonModel;

/// What `serde_json::from_str` makes of a text: the document that the text
/// holds, or nothing where the text holds none.
pub uninterp spec fn json_text(text: Seq<char>) -> Option<JsonModel>;

/// `serde_json::from_str` into a `serde_json::Value`.
///
/// Whether the text is a document, and which one, depends on the text alone and
/// bears the name [`json_text`]; which error comes is left unsaid.
#[verifier::external_body]
fn from_str(text: &str) -> (r: Result<serde_json::Value, serde_json::Error>)
    ensures
        match r {
            Ok(v) => json_text(text@) == Some(value_model(v)),
            Err(_) => json_text(text@) is None,
        },
{
    serde_json::from_str(text)
}

/// One layer of a `serde_json::Value`.
enum Layer<'a> {
    Null,
    Bool(bool),
    Number(Option<i128>),
    Str(&'a str),
    Array(&'a Vec<serde_json::Value>),
    Object(Vec<(&'a String, &'a serde_json::Value)>),
}

/// Opens a `serde_json::Value` by one layer: its variant and what the variant
/// holds. A number is handed out as `serde_json::Number::as_i128` gives it, an
/// object as the entries that `serde_json::Map::iter` walks.
#[verifier::external_body]
fn layer<'a>(v: &'a serde_json::Value) -> (r: Layer<'a>)
    ensures
        match (r, value_model(*v)) {
            (Layer::Null, JsonModel::Null) => true,
            (Layer::Bool(b), JsonModel::Bool(m)) => b == m,
            (Layer::Number(n), JsonModel::Number(m)) => n == m,
            (Layer::Str(s), JsonModel::Str(m)) => s@ == m,
            (Layer::Array(items), JsonModel::Array(m)) => {
                &&& items@.len() == m.len()
                &&& forall|i: int| 0 <= i < m.len() ==> value_model(#[trigger] items@[i]) == m[i]
            },
            (Layer::Object(entries), JsonModel::Object(m)) => {
                &&& entries@.len() == m.len()
                &&& forall|i: int|
                    0 <= i < m.len() ==> (#[trigger] entries@[i]).0@ == m[i].0 && value_model(
                        *entries@[i].1,
                    ) == m[i].1
            },
            _ => false,
        },
{
    match v {
        serde_json::Value::Null => Layer::Null,
        serde_json::Value::Bool(b) => Layer::Bool(*b),
        serde_json::Value::Number(n) => Layer::Number(n.as_i128()),
        serde_json::Value::String(s) => Layer::Str(s.as_str()),
        serde_json::Value::Array(items) => Layer::Array(items),
        serde_json::Value::Object(entries) => Layer::Object(entries.iter().collect()),
    }
}

/// The [`Json`] that holds what a `serde_json::Value` holds.
fn json_of(v: &serde_json::Value) -> (r: Json)
    ensures
        r@ == value_model(*v),
    decreases value_model(*v),
{
    match layer(v) {
        Layer::Null => Json::Null,
        Layer::Bool(b) => Json::Bool(b),
        Layer::Number(n) => Json::Number(n),
        Layer::Str(s) => Json::Str(s.to_owned()),
        Layer::Array(items) => {
            let ghost m = value_model(*v)->Array_0;
            let mut out: Vec<Json> = Vec::new();
            let mut i: usize = 0;
            while i < items.len()
                invariant
                    i <= items@.len(),
                    value_model(*v) == JsonModel::Array(m),
                    items@.len() == m.len(),
                    forall|k: int|
                        0 <= k < m.len() ==> value_model(#[trigger] items@[k]) == m[k],
                    out@.len() == i,
                    forall|k: int| 0 <= k < i ==> (#[trigger] out@[k]).model() == m[k],
                decreases items@.len() - i,
            {
                proof {
                    assert(decreases_to!(value_model(*v) => value_model(*v)->Array_0));
                    assert(decreases_to!(m => m[i as int]));
                }
                out.push(json_of(&items[i]));
                i = i + 1;
            }
            let r = Json::Array(out);
            assert(r.model()->Array_0 =~= m);
            r
        },
        Layer::Object(entries) => {
            let ghost m = value_model(*v)->Object_0;
            let mut out: Vec<(String, Json)> = Vec::new();
            let mut i: usize = 0;
            while i < entries.len()
                invariant
                    i <= entries@.len(),
                    value_model(*v) == JsonModel::Object(m),
                    entries@.len() == m.len(),
                    forall|k: int|
                        0 <= k < m.len() ==> (#[trigger] entries@[k]).0@ == m[k].0 && value_model(
                            *entries@[k].1,
                        ) == m[k].1,
                    out@.len() == i,
                    forall|k: int|
                        0 <= k < i ==> (#[trigger] out@[k]).0@ == m[k].0 && out@[k].1.model()
                            == m[k].1,
                decreases entries@.len() - i,
            {
                let entry = entries[i];
                proof {
                    assert(decreases_to!(value_model(*v) => value_model(*v)->Object_0));
                    assert(decreases_to!(m => m[i as int]));
                    assert(decreases_to!(m[i as int] => m[i as int].1));
                }
                out.push((entry.0.clone(), json_of(entry.1)));
                i = i + 1;
            }
            let r = Json::Object(out);
            assert(r.model()->Object_0 =~= m);
            r
        },
    }
}

/// Parses a JSON document.
pub fn parse(text: &str) -> (r: Option<Json>)
    ensures
        match r {
            Some(j) => json_text(text@) == Some(j@),
            None => json_text(text@) is None,
        },
{
    match from_str(text) {
        Ok(v) => Some(json_of(&v)),
        Err(_) => None,
    }
}

/// An object's member is the value of its first entry with that key, and an object
/// without such an entry has no such member.
pub proof fn law_member(entries: Seq<(Seq<char>, JsonModel)>, key: Seq<char>)
    ensures
        match JsonModel::Object(entries).get(key) {
            Some(v) => exists|i: int|
                0 <= i < entries.len() && #[trigger] entries[i] == (key, v) && forall|k: int|
                    0 <= k < i ==> (#[trigger] entries[k]).0 != key,
            None => forall|k: int| 0 <= k < entries.len() ==> (#[trigger] entries[k]).0 != key,
        },
    decreases entries.len(),
{
    if entries.len() > 0 && entries[0].0 != key {
        let rest = entries.drop_first();
        law_member(rest, key);
        match lookup(rest, key) {
            Some(v) => {
                let i = choose|i: int|
                    0 <= i < rest.len() && #[trigger] rest[i] == (key, v) && forall|k: int|
                        0 <= k < i ==> (#[trigger] rest[k]).0 != key;
                assert(entries[i + 1] == (key, v));
                assert forall|k: int| 0 <= k < i + 1 implies (#[trigger] entries[k]).0 != key by {
                    if k > 0 {
                        assert(rest[k - 1] == entries[k]);
                    }
                }
            },
            None => {
                assert forall|k: int| 0 <= k < entries.len() implies (#[trigger] entries[k]).0
                    != key by {
                    if k > 0 {
                        assert(rest[k - 1] == entries[k]);
                    }
                }
            },
        }
    } else if entries.len() > 0 {
        assert(entries[0] == (key, entries[0].1));
    }
}

/// Nothing but an object has members.
pub proof fn law_only_objects_have_members(v: JsonModel, key: Seq<char>)
    requires
        v !is Object,
    ensures
        v.get(key) is None,
        v.str_at(key) is None,
        v.i64_at(key) is None,
        v.u64_at(key) is None,
        v.array_at(key) is None,
{
}

/// A value reads as what it is and as nothing else: a string as its text, an array
/// as its items, a number as an integer of a type that holds it.
pub proof fn law_readings(s: Seq<char>, items: Seq<JsonModel>, n: i128, v: JsonModel)
    ensures
        JsonModel::Str(s).as_str() == Some(s),
        JsonModel::Array(items).as_array() == Some(items),
        0 <= n <= u64::MAX ==> JsonModel::Number(Some(n)).as_u64() == Some(n as u64),
        !(0 <= n <= u64::MAX) ==> JsonModel::Number(Some(n)).as_u64() is None,
        i64::MIN <= n <= i64::MAX ==> JsonModel::Number(Some(n)).as_i64() == Some(n as i64),
        !(i64::MIN <= n <= i64::MAX) ==> JsonModel::Number(Some(n)).as_i64() is None,
        v !is Str ==> v.as_str() is None,
        v !is Array ==> v.as_array() is None,
        v !is Number || v == JsonModel::Number(None) ==> v.as_u64() is None && v.as_i64() is None,
{
}

/// A member is read as the value that it is.
pub proof fn law_member_readings(v: JsonModel, key: Seq<char>)
    ensures
        v.get(key) matches Some(member) ==> {
            &&& v.str_at(key) == member.as_str()
            &&& v.array_at(key) == member.as_array()
            &&& v.u64_at(key) == member.as_u64()
            &&& v.i64_at(key) == member.as_i64()
        },
        v.get(key) is None ==> v.str_at(key) is None && v.array_at(key) is None && v.u64_at(
            key,
        ) is None && v.i64_at(key) is None,
{
}

/// A [`Json`] denotes what it holds, item by item and entry by entry.
pub proof fn law_json_denotes(
    b: bool,
    n: Option<i128>,
    s: String,
    items: Vec<Json>,
    entries: Vec<(String, Json)>,
)
    ensures
        Json::Null@ == JsonModel::Null,
        Json::Bool(b)@ == JsonModel::Bool(b),
        Json::Number(n)@ == JsonModel::Number(n),
        Json::Str(s)@ == JsonModel::Str(s@),
        Json::Array(items)@ matches JsonModel::Array(m) && m.len() == items@.len() && forall|i: int|
            0 <= i < m.len() ==> #[trigger] m[i] == items@[i]@,
        Json::Object(entries)@ matches JsonModel::Object(m) && m.len() == entries@.len()
            && forall|i: int|
            0 <= i < m.len() ==> #[trigger] m[i] == (entries@[i].0@, entries@[i].1@),
{
}

/// A list of values denotes what each of them denotes, in order.
pub proof fn law_lists_denote(items: Seq<Json>)
    ensures
        views(items).len() == items.len(),
        forall|i: int| 0 <= i < items.len() ==> #[trigger] views(items)[i] == items[i]@,
{
}

} // verus!
