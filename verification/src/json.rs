//! JSON values.

use crate::arithmetic::{lemma_negated, lemma_whole_double};
use crate::double::{double_of, fine_unit, one, Double, NEAR_BOUND};
use crate::text::text_eq;
use vstd::arithmetic::mul::lemma_mul_unary_negation;
use vstd::arithmetic::power2::{
    lemma2_to64, lemma2_to64_rest, lemma_pow2_adds, lemma_pow2_pos, pow2,
};
use vstd::prelude::*;

verus! {

/// A JSON number, as it was written: whole or not, negative or not.
#[derive(Clone, Copy, Debug)]
pub enum JsonNumber {
    PosInt(u64),
    NegInt(i64),
    Float(Double),
}

/// A JSON value. Of two entries of an object with the same key the later one
/// counts.
#[derive(Debug)]
pub enum JsonValue {
    Null,
    Bool(bool),
    Number(JsonNumber),
    Text(String),
    Array(Vec<JsonValue>),
    Object(Vec<(String, JsonValue)>),
}

/// What a [`JsonValue`] says.
pub enum Json {
    Null,
    Bool(bool),
    Number(JsonNumber),
    Text(Seq<char>),
    Array(Seq<Json>),
    Object(Seq<(Seq<char>, Json)>),
}

impl JsonValue {
    pub open spec fn model(self) -> Json
        decreases self,
    {
        match self {
            JsonValue::Null => Json::Null,
            JsonValue::Bool(b) => Json::Bool(b),
            JsonValue::Number(n) => Json::Number(n),
            JsonValue::Text(s) => Json::Text(s@),
            JsonValue::Array(items) => Json::Array(
                Seq::new(
                    items@.len(),
                    |i: int|
                        if 0 <= i < items@.len() {
                            items@[i].model()
                        } else {
                            Json::Null
                        },
                ),
            ),
            JsonValue::Object(entries) => Json::Object(
                Seq::new(
                    entries@.len(),
                    |i: int|
                        if 0 <= i < entries@.len() {
                            (entries@[i].0@, entries@[i].1.model())
                        } else {
                            (Seq::empty(), Json::Null)
                        },
                ),
            ),
        }
    }
}

/// What the values of a list say.
pub open spec fn models(items: Seq<JsonValue>) -> Seq<Json> {
    Seq::new(items.len(), |i: int| items[i].model())
}

/// What the entries of a list say.
pub open spec fn entry_models(entries: Seq<(String, JsonValue)>) -> Seq<(Seq<char>, Json)> {
    Seq::new(entries.len(), |i: int| (entries[i].0@, entries[i].1.model()))
}

proof fn lemma_array_model(items: Vec<JsonValue>)
    ensures
        JsonValue::Array(items).model() == Json::Array(models(items@)),
{
    let m = JsonValue::Array(items).model();
    assert(m->Array_0 =~= models(items@));
}

proof fn lemma_object_model(entries: Vec<(String, JsonValue)>)
    ensures
        JsonValue::Object(entries).model() == Json::Object(entry_models(entries@)),
{
    let m = JsonValue::Object(entries).model();
    assert(m->Object_0 =~= entry_models(entries@));
}

/// The last entry with this key.
pub open spec fn last_entry(entries: Seq<(Seq<char>, Json)>, key: Seq<char>) -> Option<int>
    decreases entries.len(),
{
    if entries.len() == 0 {
        None
    } else if entries.last().0 == key {
        Some(entries.len() - 1)
    } else {
        last_entry(entries.drop_last(), key)
    }
}

/// The value of a key.
pub open spec fn lookup(entries: Seq<(Seq<char>, Json)>, key: Seq<char>) -> Option<Json> {
    match last_entry(entries, key) {
        Some(i) => Some(entries[i].1),
        None => None,
    }
}

pub proof fn lemma_last_entry(entries: Seq<(Seq<char>, Json)>, key: Seq<char>)
    ensures
        match last_entry(entries, key) {
            Some(i) => 0 <= i < entries.len() && entries[i].0 == key,
            None => forall|i: int| 0 <= i < entries.len() ==> (#[trigger] entries[i]).0 != key,
        },
    decreases entries.len(),
{
    if entries.len() > 0 && entries.last().0 != key {
        lemma_last_entry(entries.drop_last(), key);
        assert forall|i: int|
            last_entry(entries, key) is None && 0 <= i < entries.len() implies (
        #[trigger] entries[i]).0 != key by {
            if i < entries.len() - 1 {
                assert(entries.drop_last()[i] == entries[i]);
            }
        }
    }
}

impl Json {
    /// The value of a key of an object.
    pub open spec fn get(self, key: Seq<char>) -> Option<Json> {
        match self {
            Json::Object(entries) => lookup(entries, key),
            _ => None,
        }
    }

    pub open spec fn as_text(self) -> Option<Seq<char>> {
        match self {
            Json::Text(s) => Some(s),
            _ => None,
        }
    }

    pub open spec fn as_array(self) -> Option<Seq<Json>> {
        match self {
            Json::Array(items) => Some(items),
            _ => None,
        }
    }

    pub open spec fn as_object(self) -> Option<Seq<(Seq<char>, Json)>> {
        match self {
            Json::Object(entries) => Some(entries),
            _ => None,
        }
    }

    /// The number that the value holds, as a double.
    pub open spec fn as_double(self) -> Option<Double> {
        match self {
            Json::Number(n) => Some(n.double()),
            _ => None,
        }
    }

    /// The whole number that the value holds, where it fits.
    pub open spec fn as_i64(self) -> Option<int> {
        match self {
            Json::Number(JsonNumber::PosInt(n)) => if n <= i64::MAX {
                Some(n as int)
            } else {
                None
            },
            Json::Number(JsonNumber::NegInt(n)) => Some(n as int),
            _ => None,
        }
    }

    /// Whether two values are the same: numbers of the same kind, lists item by
    /// item, objects key by key.
    pub open spec fn equals(self, other: Json) -> bool
        decreases self,
    {
        match (self, other) {
            (Json::Null, Json::Null) => true,
            (Json::Bool(a), Json::Bool(b)) => a == b,
            (Json::Number(a), Json::Number(b)) => a.equals(b),
            (Json::Text(a), Json::Text(b)) => a == b,
            (Json::Array(a), Json::Array(b)) => a.len() == b.len() && forall|i: int|
                0 <= i < a.len() ==> (#[trigger] a[i]).equals(b[i]),
            (Json::Object(a), Json::Object(b)) => {
                &&& forall|i: int|
                    0 <= i < a.len() && last_entry(a, (#[trigger] a[i]).0) == Some(i) ==> {
                        &&& last_entry(b, a[i].0) is Some
                        &&& a[i].1.equals(b[last_entry(b, a[i].0)->0].1)
                    }
                &&& forall|j: int|
                    0 <= j < b.len() ==> last_entry(a, (#[trigger] b[j]).0) is Some
            },
            _ => false,
        }
    }
}

impl JsonNumber {
    /// The number as a double.
    pub open spec fn double(self) -> Double {
        match self {
            JsonNumber::PosInt(n) => double_of(n as int),
            JsonNumber::NegInt(n) => double_of(n as int),
            JsonNumber::Float(d) => d,
        }
    }

    /// Whether two numbers are the same and of the same kind.
    pub open spec fn equals(self, other: JsonNumber) -> bool {
        match (self, other) {
            (JsonNumber::PosInt(a), JsonNumber::PosInt(b)) => a == b,
            (JsonNumber::NegInt(a), JsonNumber::NegInt(b)) => a == b,
            (JsonNumber::Float(a), JsonNumber::Float(b)) => a.same(b),
            _ => false,
        }
    }

    pub fn to_double(&self) -> (r: Double)
        ensures
            r == self.double(),
    {
        match self {
            JsonNumber::PosInt(n) => Double::from_u64(*n),
            JsonNumber::NegInt(n) => Double::from_i64(*n),
            JsonNumber::Float(d) => *d,
        }
    }

    fn is_equal(&self, other: &JsonNumber) -> (r: bool)
        ensures
            r == self.equals(*other),
    {
        match (self, other) {
            (JsonNumber::PosInt(a), JsonNumber::PosInt(b)) => *a == *b,
            (JsonNumber::NegInt(a), JsonNumber::NegInt(b)) => *a == *b,
            (JsonNumber::Float(a), JsonNumber::Float(b)) => a.is_same(b),
            _ => false,
        }
    }
}

impl JsonValue {
    pub fn get(&self, key: &str) -> (r: Option<&JsonValue>)
        ensures
            match r {
                Some(v) => self.model().get(key@) == Some(v.model()),
                None => self.model().get(key@) is None,
            },
    {
        match self {
            JsonValue::Object(entries) => {
                proof {
                    lemma_object_model(*entries);
                }
                match find_entry(entries, key) {
                    Some(i) => Some(&entries[i].1),
                    None => None,
                }
            },
            _ => None,
        }
    }

    pub fn as_str(&self) -> (r: Option<&String>)
        ensures
            match r {
                Some(s) => self.model().as_text() == Some(s@),
                None => self.model().as_text() is None,
            },
    {
        match self {
            JsonValue::Text(s) => Some(s),
            _ => None,
        }
    }

    pub fn as_array(&self) -> (r: Option<&Vec<JsonValue>>)
        ensures
            match r {
                Some(items) => self.model().as_array() == Some(models(items@)),
                None => self.model().as_array() is None,
            },
            r matches Some(items) ==> *self == JsonValue::Array(*items),
    {
        match self {
            JsonValue::Array(items) => {
                proof {
                    lemma_array_model(*items);
                }
                Some(items)
            },
            _ => None,
        }
    }

    pub fn as_object(&self) -> (r: Option<&Vec<(String, JsonValue)>>)
        ensures
            match r {
                Some(entries) => self.model().as_object() == Some(entry_models(entries@)),
                None => self.model().as_object() is None,
            },
    {
        match self {
            JsonValue::Object(entries) => {
                proof {
                    lemma_object_model(*entries);
                }
                Some(entries)
            },
            _ => None,
        }
    }

    pub fn as_double(&self) -> (r: Option<Double>)
        ensures
            r == self.model().as_double(),
    {
        match self {
            JsonValue::Number(n) => Some(n.to_double()),
            _ => None,
        }
    }

    pub fn as_i64(&self) -> (r: Option<i64>)
        ensures
            match r {
                Some(n) => self.model().as_i64() == Some(n as int),
                None => self.model().as_i64() is None,
            },
    {
        match self {
            JsonValue::Number(JsonNumber::PosInt(n)) => {
                if *n <= 0x7fff_ffff_ffff_ffff {
                    Some(*n as i64)
                } else {
                    None
                }
            },
            JsonValue::Number(JsonNumber::NegInt(n)) => Some(*n),
            _ => None,
        }
    }
}

/// The place of the last entry with this key.
pub fn find_entry(entries: &Vec<(String, JsonValue)>, key: &str) -> (r: Option<usize>)
    ensures
        match r {
            Some(i) => i < entries@.len() && last_entry(entry_models(entries@), key@) == Some(
                i as int,
            ),
            None => last_entry(entry_models(entries@), key@) is None,
        },
{
    let ghost all = entry_models(entries@);
    let mut i: usize = entries.len();
    assert(all.take(i as int) =~= all);
    while i > 0
        invariant
            i <= entries@.len(),
            all == entry_models(entries@),
            last_entry(all, key@) == last_entry(all.take(i as int), key@),
        decreases i,
    {
        assert(all.take(i as int).drop_last() =~= all.take(i - 1));
        i = i - 1;
        if text_eq(entries[i].0.as_str(), key) {
            return Some(i);
        }
    }
    None
}

/// The value of a key.
pub fn find_value<'a>(entries: &'a Vec<(String, JsonValue)>, key: &str) -> (r: Option<
    &'a JsonValue,
>)
    ensures
        match r {
            Some(v) => lookup(entry_models(entries@), key@) == Some(v.model()),
            None => lookup(entry_models(entries@), key@) is None,
        },
{
    match find_entry(entries, key) {
        Some(i) => Some(&entries[i].1),
        None => None,
    }
}

// -- Parsing ---------------------------------------------------------------

/// The error of the `serde_json` crate.
#[verifier::external_type_specification]
#[verifier::external_body]
pub struct ExJsonError(serde_json::Error);

/// The value type of the `serde_json` crate.
#[verifier::external_type_specification]
#[verifier::external_body]
pub struct ExSerdeValue(serde_json::Value);

/// The number type of the `serde_json` crate.
#[verifier::external_type_specification]
#[verifier::external_body]
pub struct ExSerdeNumber(serde_json::Number);

/// What `serde_json::from_str` makes of a text; `None` where it refuses it.
pub uninterp spec fn parsed_json(text: Seq<char>) -> Option<Json>;

/// `serde_json::from_str` into a `serde_json::Value`, whose variants are then
/// moved over one by one. The result depends on the text alone; what the
/// grammar of JSON makes of a text is not stated here.
#[verifier::external_body]
pub(crate) fn parse_json(text: &str) -> (r: Result<JsonValue, serde_json::Error>)
    ensures
        match r {
            Ok(v) => parsed_json(text@) == Some(v.model()),
            Err(_) => parsed_json(text@) is None,
        },
{
    let value: serde_json::Value = serde_json::from_str(text)?;
    Ok(from_serde(value))
}

/// Moves a `serde_json::Value` over, variant by variant. Nothing is claimed of
/// the result by itself: `parse_json` names what comes out.
#[verifier::external_body]
fn from_serde(value: serde_json::Value) -> JsonValue {
    match value {
        serde_json::Value::Null => JsonValue::Null,
        serde_json::Value::Bool(b) => JsonValue::Bool(b),
        serde_json::Value::Number(n) => JsonValue::Number(from_number(n)),
        serde_json::Value::String(s) => JsonValue::Text(s),
        serde_json::Value::Array(v) => JsonValue::Array(v.into_iter().map(from_serde).collect()),
        serde_json::Value::Object(m) => {
            JsonValue::Object(m.into_iter().map(|(k, v)| (k, from_serde(v))).collect())
        },
    }
}

/// Moves a `serde_json::Number` over: what `as_u64` gives, else what `as_i64`
/// gives, else the bits of what `as_f64` gives. Nothing is claimed of the
/// result by itself: `parse_json` names what comes out.
#[verifier::external_body]
fn from_number(n: serde_json::Number) -> JsonNumber {
    match (n.as_u64(), n.as_i64()) {
        (Some(u), _) => JsonNumber::PosInt(u),
        (None, Some(i)) => JsonNumber::NegInt(i),
        (None, None) => {
            JsonNumber::Float(Double { bits: n.as_f64().unwrap_or_default().to_bits() })
        },
    }
}

// -- Copies and comparisons ------------------------------------------------

impl JsonValue {
    /// A copy of the value.
    pub fn duplicate(&self) -> (r: JsonValue)
        ensures
            r.model() == self.model(),
        decreases self,
    {
        match self {
            JsonValue::Null => JsonValue::Null,
            JsonValue::Bool(b) => JsonValue::Bool(*b),
            JsonValue::Number(n) => JsonValue::Number(*n),
            JsonValue::Text(s) => JsonValue::Text(s.clone()),
            JsonValue::Array(items) => {
                let mut out: Vec<JsonValue> = Vec::new();
                let mut i: usize = 0;
                while i < items.len()
                    invariant
                        i <= items@.len(),
                        *self == JsonValue::Array(*items),
                        out@.len() == i,
                        forall|k: int| 0 <= k < i ==> (#[trigger] out@[k]).model() == items@[k].model(),
                    decreases items@.len() - i,
                {
                    assert(decreases_to!(self => self->Array_0));
                    assert(decreases_to!(self => items@[i as int]));
                    let item: JsonValue = items[i].duplicate();
                    out.push(item);
                    i = i + 1;
                }
                proof {
                    lemma_array_model(*items);
                    lemma_array_model(out);
                    assert(models(out@) =~= models(items@));
                }
                JsonValue::Array(out)
            },
            JsonValue::Object(entries) => {
                let mut out: Vec<(String, JsonValue)> = Vec::new();
                let mut i: usize = 0;
                while i < entries.len()
                    invariant
                        i <= entries@.len(),
                        *self == JsonValue::Object(*entries),
                        out@.len() == i,
                        forall|k: int|
                            0 <= k < i ==> (#[trigger] out@[k]).0@ == entries@[k].0@ && out@[k].1.model()
                                == entries@[k].1.model(),
                    decreases entries@.len() - i,
                {
                    assert(decreases_to!(self => self->Object_0));
                    assert(decreases_to!(entries@ => entries@[i as int]));
                    assert(decreases_to!(self => entries@[i as int].1));
                    let item: JsonValue = entries[i].1.duplicate();
                    out.push((entries[i].0.clone(), item));
                    i = i + 1;
                }
                proof {
                    lemma_object_model(*entries);
                    lemma_object_model(out);
                    assert(entry_models(out@) =~= entry_models(entries@));
                }
                JsonValue::Object(out)
            },
        }
    }

    /// Whether two values are the same.
    pub fn is_equal(&self, other: &JsonValue) -> (r: bool)
        ensures
            r == self.model().equals(other.model()),
        decreases self,
    {
        match (self, other) {
            (JsonValue::Null, JsonValue::Null) => true,
            (JsonValue::Bool(a), JsonValue::Bool(b)) => *a == *b,
            (JsonValue::Number(a), JsonValue::Number(b)) => a.is_equal(b),
            (JsonValue::Text(a), JsonValue::Text(b)) => text_eq(a.as_str(), b.as_str()),
            (JsonValue::Array(a), JsonValue::Array(b)) => {
                let ghost ma = models(a@);
                let ghost mb = models(b@);
                proof {
                    lemma_array_model(*a);
                    lemma_array_model(*b);
                }
                if a.len() != b.len() {
                    return false;
                }
                let mut i: usize = 0;
                while i < a.len()
                    invariant
                        i <= a@.len(),
                        a@.len() == b@.len(),
                        ma == models(a@),
                        mb == models(b@),
                        *self == JsonValue::Array(*a),
                        self.model() == Json::Array(ma),
                        other.model() == Json::Array(mb),
                        forall|k: int| 0 <= k < i ==> (#[trigger] ma[k]).equals(mb[k]),
                    decreases a@.len() - i,
                {
                    let same: bool = a[i].is_equal(&b[i]);
                    if !same {
                        assert(!ma[i as int].equals(mb[i as int]));
                        return false;
                    }
                    i = i + 1;
                }
                true
            },
            (JsonValue::Object(a), JsonValue::Object(b)) => {
                let ghost ma = entry_models(a@);
                let ghost mb = entry_models(b@);
                proof {
                    lemma_object_model(*a);
                    lemma_object_model(*b);
                }
                let mut i: usize = 0;
                while i < a.len()
                    invariant
                        i <= a@.len(),
                        ma == entry_models(a@),
                        mb == entry_models(b@),
                        *self == JsonValue::Object(*a),
                        self.model() == Json::Object(ma),
                        other.model() == Json::Object(mb),
                        forall|k: int|
                            0 <= k < i && last_entry(ma, (#[trigger] ma[k]).0) == Some(k) ==> {
                                &&& last_entry(mb, ma[k].0) is Some
                                &&& ma[k].1.equals(mb[last_entry(mb, ma[k].0)->0].1)
                            },
                    decreases a@.len() - i,
                {
                    let key: &str = a[i].0.as_str();
                    let counts: bool = match find_entry(a, key) {
                        Some(j) => j == i,
                        None => false,
                    };
                    assert(ma[i as int].0 == key@);
                    if counts {
                        match find_entry(b, key) {
                            Some(j) => {
                                let same: bool = a[i].1.is_equal(&b[j].1);
                                if !same {
                                    assert(!ma[i as int].1.equals(mb[j as int].1));
                                    return false;
                                }
                            },
                            None => {
                                return false;
                            },
                        }
                    }
                    i = i + 1;
                }
                let mut j: usize = 0;
                while j < b.len()
                    invariant
                        j <= b@.len(),
                        ma == entry_models(a@),
                        mb == entry_models(b@),
                        self.model() == Json::Object(ma),
                        other.model() == Json::Object(mb),
                        forall|k: int|
                            0 <= k < ma.len() && last_entry(ma, (#[trigger] ma[k]).0) == Some(k)
                                ==> {
                                &&& last_entry(mb, ma[k].0) is Some
                                &&& ma[k].1.equals(mb[last_entry(mb, ma[k].0)->0].1)
                            },
                        forall|k: int|
                            0 <= k < j ==> last_entry(ma, (#[trigger] mb[k]).0) is Some,
                    decreases b@.len() - j,
                {
                    assert(mb[j as int].0 == b@[j as int].0@);
                    if find_entry(a, b[j].0.as_str()).is_none() {
                        assert(last_entry(ma, mb[j as int].0) is None);
                        return false;
                    }
                    j = j + 1;
                }
                true
            },
            _ => false,
        }
    }
}

/// Whether two values match: numbers up to the machine epsilon whatever their
/// kind, everything else by [`Json::equals`].
pub open spec fn values_match(a: Json, b: Json) -> bool {
    match (a, b) {
        (Json::Number(x), Json::Number(y)) => x.double().near(y.double()),
        _ => a.equals(b),
    }
}

/// Compare two values for equality, handling number type mismatches.
pub fn values_equal(a: &JsonValue, b: &JsonValue) -> (r: bool)
    ensures
        r == values_match(a.model(), b.model()),
{
    match (a, b) {
        (JsonValue::Number(x), JsonValue::Number(y)) => x.to_double().is_near(&y.to_double()),
        _ => a.is_equal(b),
    }
}

// -- Constants -------------------------------------------------------------

/// A text that stands for a constant, with the constant in its place.
pub open spec fn replaced_text(constants: Json, s: Seq<char>) -> Json {
    if s.len() > 0 && s.first() == '@' {
        match constants.get(s) {
            Some(value) => value,
            None => Json::Text(s),
        }
    } else {
        Json::Text(s)
    }
}

/// A tree with every `@constant` reference replaced that has a replacement.
pub open spec fn replaced(constants: Json, tree: Json) -> Json
    decreases tree,
{
    match tree {
        Json::Array(items) => Json::Array(
            Seq::new(
                items.len(),
                |i: int|
                    if 0 <= i < items.len() {
                        replaced(constants, items[i])
                    } else {
                        Json::Null
                    },
            ),
        ),
        Json::Object(entries) => Json::Object(
            Seq::new(
                entries.len(),
                |i: int|
                    if 0 <= i < entries.len() {
                        (entries[i].0, replaced(constants, entries[i].1))
                    } else {
                        (Seq::empty(), Json::Null)
                    },
            ),
        ),
        Json::Text(s) => replaced_text(constants, s),
        _ => tree,
    }
}

/// Recursively replace `@constant` references in a tree.
pub fn replace_constants(constants: &JsonValue, tree: &JsonValue) -> (r: JsonValue)
    ensures
        r.model() == replaced(constants.model(), tree.model()),
    decreases tree,
{
    match tree {
        JsonValue::Array(items) => {
            let mut out: Vec<JsonValue> = Vec::new();
            let mut i: usize = 0;
            while i < items.len()
                invariant
                    i <= items@.len(),
                    *tree == JsonValue::Array(*items),
                    out@.len() == i,
                    forall|k: int|
                        0 <= k < i ==> (#[trigger] out@[k]).model() == replaced(
                            constants.model(),
                            items@[k].model(),
                        ),
                decreases items@.len() - i,
            {
                assert(decreases_to!(tree => tree->Array_0));
                assert(decreases_to!(tree => items@[i as int]));
                let item: JsonValue = replace_constants(constants, &items[i]);
                out.push(item);
                i = i + 1;
            }
            let r: JsonValue = JsonValue::Array(out);
            proof {
                lemma_array_model(*items);
                lemma_array_model(out);
                assert(r.model()->Array_0 =~= replaced(constants.model(), tree.model())->Array_0);
            }
            r
        },
        JsonValue::Object(entries) => {
            let mut out: Vec<(String, JsonValue)> = Vec::new();
            let mut i: usize = 0;
            while i < entries.len()
                invariant
                    i <= entries@.len(),
                    *tree == JsonValue::Object(*entries),
                    out@.len() == i,
                    forall|k: int|
                        0 <= k < i ==> (#[trigger] out@[k]).0@ == entries@[k].0@ && out@[k].1.model()
                            == replaced(constants.model(), entries@[k].1.model()),
                decreases entries@.len() - i,
            {
                assert(decreases_to!(tree => tree->Object_0));
                assert(decreases_to!(entries@ => entries@[i as int]));
                assert(decreases_to!(tree => entries@[i as int].1));
                let item: JsonValue = replace_constants(constants, &entries[i].1);
                out.push((entries[i].0.clone(), item));
                i = i + 1;
            }
            let r: JsonValue = JsonValue::Object(out);
            proof {
                lemma_object_model(*entries);
                lemma_object_model(out);
                assert(r.model()->Object_0 =~= replaced(constants.model(), tree.model())->Object_0);
            }
            r
        },
        JsonValue::Text(s) => {
            if s.as_str().unicode_len() > 0 && s.as_str().get_char(0) == '@' {
                match constants.get(s.as_str()) {
                    Some(value) => value.duplicate(),
                    None => JsonValue::Text(s.clone()),
                }
            } else {
                JsonValue::Text(s.clone())
            }
        },
        _ => tree.duplicate(),
    }
}

// -- What holds of values --------------------------------------------------

/// Whether the entry at `i` is the one that counts for its key: the last.
pub open spec fn counts(entries: Seq<(Seq<char>, Json)>, i: int) -> bool {
    0 <= i < entries.len() && forall|k: int|
        i < k < entries.len() ==> (#[trigger] entries[k]).0 != entries[i].0
}

/// Whether a key occurs nowhere.
pub open spec fn lacks(entries: Seq<(Seq<char>, Json)>, key: Seq<char>) -> bool {
    forall|k: int| 0 <= k < entries.len() ==> (#[trigger] entries[k]).0 != key
}

/// A key has the value of the last entry that names it, and none where no entry
/// does. An object hands out the same.
pub proof fn law_last_entry_counts(entries: Seq<(Seq<char>, Json)>, i: int, key: Seq<char>)
    ensures
        counts(entries, i) ==> lookup(entries, entries[i].0) == Some(entries[i].1),
        counts(entries, i) ==> Json::Object(entries).get(entries[i].0) == Some(entries[i].1),
        lacks(entries, key) ==> lookup(entries, key) is None,
        lacks(entries, key) ==> Json::Object(entries).get(key) is None,
    decreases entries.len(),
{
    lemma_last_entry(entries, key);
    if counts(entries, i) && i < entries.len() - 1 {
        let rest = entries.drop_last();
        assert(rest[i] == entries[i]);
        assert forall|k: int| i < k < rest.len() implies (#[trigger] rest[k]).0 != rest[i].0 by {
            assert(rest[k] == entries[k]);
        }
        law_last_entry_counts(rest, i, key);
        lemma_last_entry(rest, entries[i].0);
        assert(entries.last() == entries[entries.len() - 1]);
    }
}

/// What a value says: a text its characters, a list what its items say in their
/// order, an object what its entries say in theirs.
pub proof fn law_models_show_values(
    s: String,
    n: JsonNumber,
    b: bool,
    items: Vec<JsonValue>,
    entries: Vec<(String, JsonValue)>,
)
    ensures
        JsonValue::Null.model() == Json::Null,
        JsonValue::Bool(b).model() == Json::Bool(b),
        JsonValue::Number(n).model() == Json::Number(n),
        JsonValue::Text(s).model() == Json::Text(s@),
        JsonValue::Array(items).model() matches Json::Array(says) && says.len() == items@.len()
            && forall|k: int| 0 <= k < says.len() ==> #[trigger] says[k] == items@[k].model(),
        JsonValue::Object(entries).model() matches Json::Object(says) && says.len()
            == entries@.len() && forall|k: int|
            0 <= k < says.len() ==> (#[trigger] says[k]).0 == entries@[k].0@ && says[k].1
                == entries@[k].1.model(),
        entry_models(entries@).len() == entries@.len(),
        forall|k: int|
            0 <= k < entries@.len() ==> (#[trigger] entry_models(entries@)[k]).0 == entries@[k].0@
                && entry_models(entries@)[k].1 == entries@[k].1.model(),
        models(items@).len() == items@.len(),
        forall|k: int|
            0 <= k < items@.len() ==> #[trigger] models(items@)[k] == items@[k].model(),
{
    lemma_array_model(items);
    lemma_object_model(entries);
}

/// Whether a number stands for a whole number that a double holds without
/// rounding.
pub open spec fn stands_for(n: JsonNumber, whole: int) -> bool {
    match n {
        JsonNumber::PosInt(k) => k == whole && k < 0x20_0000_0000_0000,
        JsonNumber::NegInt(k) => k == whole && -0x20_0000_0000_0000 < k
            < 0x20_0000_0000_0000,
        JsonNumber::Float(d) => d.finite() && d.value() == whole * one(),
    }
}

/// A number keeps its value as a double, however it was written.
pub proof fn law_numbers_keep_their_value(n: JsonNumber, whole: int, d: Double)
    ensures
        stands_for(n, whole) ==> n.double().finite() && n.double().value() == whole * one(),
        JsonNumber::Float(d).double() == d,
{
    if stands_for(n, whole) {
        match n {
            JsonNumber::PosInt(k) => {
                lemma_whole_double(k as nat);
            },
            JsonNumber::NegInt(k) => {
                if k >= 0 {
                    lemma_whole_double(k as nat);
                } else {
                    let m = (-(k as int)) as nat;
                    lemma_whole_double(m);
                    assert(n.double() == double_of(m as int).negated());
                    lemma_negated(double_of(m as int));
                    lemma_mul_unary_negation(m as int, one());
                    assert(-(m as int) == whole);
                }
            },
            JsonNumber::Float(_) => {},
        }
    }
}

/// Two whole numbers match exactly if they are equal, whatever kind of number
/// each was written as.
pub proof fn law_equal_numbers_match(a: JsonNumber, b: JsonNumber, x: int, y: int)
    requires
        stands_for(a, x),
        stands_for(b, y),
    ensures
        values_match(Json::Number(a), Json::Number(b)) == (x == y),
{
    law_numbers_keep_their_value(a, x, Double { bits: 0 });
    law_numbers_keep_their_value(b, y, Double { bits: 0 });
    let unit = fine_unit();
    lemma_pow2_pos(968);
    lemma_pow2_adds(106, 968);
    lemma_pow2_adds(52, 54);
    lemma2_to64();
    lemma2_to64_rest();
    assert(NEAR_BOUND * unit < one()) by {
        assert(pow2(54) > NEAR_BOUND);
        assert(pow2(106) >= pow2(54)) by (nonlinear_arith)
            requires
                pow2(106) == pow2(52) * pow2(54),
                pow2(52) >= 1,
                pow2(54) >= 1,
        ;
        assert(NEAR_BOUND * unit < pow2(106) * unit) by (nonlinear_arith)
            requires
                NEAR_BOUND < pow2(106),
                unit > 0,
        ;
    }
    assert(NEAR_BOUND * unit > 0) by (nonlinear_arith)
        requires
            unit > 0,
            NEAR_BOUND > 0,
    ;
    let u = one();
    if x == y {
    } else if x < y {
        assert(y * u - x * u >= u) by (nonlinear_arith)
            requires
                x + 1 <= y,
                u > 0,
        ;
    } else {
        assert(x * u - y * u >= u) by (nonlinear_arith)
            requires
                y + 1 <= x,
                u > 0,
        ;
    }
}

/// Numbers match whichever of the two comes first, and a finite one matches
/// itself. One that is further away than 2^-52 from another does not match it.
pub proof fn law_numbers_match_symmetrically(a: JsonNumber, b: JsonNumber)
    ensures
        values_match(Json::Number(a), Json::Number(b)) == values_match(
            Json::Number(b),
            Json::Number(a),
        ),
        a.double().finite() ==> values_match(Json::Number(a), Json::Number(a)),
        a.double().value() - b.double().value() >= pow2(1022) ==> !values_match(
            Json::Number(a),
            Json::Number(b),
        ),
{
    let unit = fine_unit();
    lemma_pow2_pos(968);
    lemma_pow2_adds(54, 968);
    lemma2_to64_rest();
    assert(0 < NEAR_BOUND * unit < pow2(54) * unit) by (nonlinear_arith)
        requires
            0 < NEAR_BOUND < pow2(54),
            unit > 0,
    ;
}

/// Texts match exactly if they are the same text, truth values exactly if they
/// are the same, nothing matches nothing. A text, a truth value, a number and
/// nothing never match one another.
pub proof fn law_values_match_within_their_kind(
    s: Seq<char>,
    t: Seq<char>,
    a: bool,
    b: bool,
    n: JsonNumber,
)
    ensures
        values_match(Json::Text(s), Json::Text(t)) == (s == t),
        values_match(Json::Bool(a), Json::Bool(b)) == (a == b),
        values_match(Json::Null, Json::Null),
        !values_match(Json::Text(s), Json::Bool(a)) && !values_match(Json::Bool(a), Json::Text(s)),
        !values_match(Json::Text(s), Json::Number(n)) && !values_match(
            Json::Number(n),
            Json::Text(s),
        ),
        !values_match(Json::Text(s), Json::Null) && !values_match(Json::Null, Json::Text(s)),
        !values_match(Json::Bool(a), Json::Number(n)) && !values_match(
            Json::Number(n),
            Json::Bool(a),
        ),
        !values_match(Json::Bool(a), Json::Null) && !values_match(Json::Null, Json::Bool(a)),
        !values_match(Json::Number(n), Json::Null) && !values_match(Json::Null, Json::Number(n)),
{
}

/// A text that names a constant becomes the constant's value, all through a
/// tree, and everything else stays: texts that are no names or name nothing,
/// numbers, truth values and nulls, the places of list items, the keys of
/// entries.
pub proof fn law_only_named_constants_are_replaced(
    constants: Seq<(Seq<char>, Json)>,
    i: int,
    s: Seq<char>,
    n: JsonNumber,
    b: bool,
    items: Seq<Json>,
    entries: Seq<(Seq<char>, Json)>,
)
    ensures
        counts(constants, i) && constants[i].0.len() > 0 && constants[i].0[0] == '@' ==> replaced(
            Json::Object(constants),
            Json::Text(constants[i].0),
        ) == constants[i].1,
        s.len() == 0 || s[0] != '@' || lacks(constants, s) ==> replaced(
            Json::Object(constants),
            Json::Text(s),
        ) == Json::Text(s),
        replaced(Json::Object(constants), Json::Number(n)) == Json::Number(n),
        replaced(Json::Object(constants), Json::Bool(b)) == Json::Bool(b),
        replaced(Json::Object(constants), Json::Null) == Json::Null,
        replaced(Json::Object(constants), Json::Array(items)) matches Json::Array(out)
            && out.len() == items.len() && forall|k: int|
            0 <= k < out.len() ==> #[trigger] out[k] == replaced(
                Json::Object(constants),
                items[k],
            ),
        replaced(Json::Object(constants), Json::Object(entries)) matches Json::Object(out)
            && out.len() == entries.len() && forall|k: int|
            0 <= k < out.len() ==> (#[trigger] out[k]).0 == entries[k].0 && out[k].1 == replaced(
                Json::Object(constants),
                entries[k].1,
            ),
{
    law_last_entry_counts(constants, i, s);
    if s.len() > 0 && s[0] == '@' && lacks(constants, s) {
        lemma_last_entry(constants, s);
    }
    let whole = Json::Array(items);
    assert forall|k: int| 0 <= k < items.len() implies #[trigger] replaced(
        Json::Object(constants),
        whole,
    )->Array_0[k] == replaced(Json::Object(constants), items[k]) by {
        assert(whole->Array_0[k] == items[k]);
    }
    let tree = Json::Object(entries);
    assert forall|k: int| 0 <= k < entries.len() implies (#[trigger] replaced(
        Json::Object(constants),
        tree,
    )->Object_0[k]) == (entries[k].0, replaced(Json::Object(constants), entries[k].1)) by {
        assert(tree->Object_0[k] == entries[k]);
    }
}

/// Numbers in lists and objects are the same only if they are of the same kind.
/// Lists are the same if their items are, one by one.
pub proof fn law_lists_are_compared_item_by_item(
    p: u64,
    q: u64,
    m: i64,
    n: i64,
    c: Double,
    d: Double,
    a: Seq<Json>,
    b: Seq<Json>,
    x: Json,
    y: Json,
)
    ensures
        JsonNumber::PosInt(p).equals(JsonNumber::PosInt(q)) == (p == q),
        JsonNumber::NegInt(m).equals(JsonNumber::NegInt(n)) == (m == n),
        !c.nan() && !d.nan() ==> JsonNumber::Float(c).equals(JsonNumber::Float(d)) == (c.value()
            == d.value()),
        !JsonNumber::PosInt(p).equals(JsonNumber::NegInt(n)) && !JsonNumber::PosInt(p).equals(
            JsonNumber::Float(d),
        ) && !JsonNumber::NegInt(m).equals(JsonNumber::Float(d)),
        values_match(Json::Array(Seq::empty()), Json::Array(Seq::empty())),
        values_match(Json::Array(a.push(x)), Json::Array(b.push(y))) == (values_match(
            Json::Array(a),
            Json::Array(b),
        ) && x.equals(y)),
        a.len() != b.len() ==> !values_match(Json::Array(a), Json::Array(b)),
{
    let (one_more, other) = (Json::Array(a.push(x)), Json::Array(b.push(y)));
    let (fewer, rest) = (Json::Array(a), Json::Array(b));
    if a.len() == b.len() {
        if one_more.equals(other) {
            assert(one_more->Array_0[a.len() as int].equals(other->Array_0[a.len() as int]));
            assert forall|i: int| 0 <= i < a.len() implies (#[trigger] fewer->Array_0[i]).equals(
                rest->Array_0[i],
            ) by {
                assert(one_more->Array_0[i].equals(other->Array_0[i]));
            }
        }
        if fewer.equals(rest) && x.equals(y) {
            assert forall|i: int| 0 <= i < a.len() + 1 implies (
            #[trigger] one_more->Array_0[i]).equals(other->Array_0[i]) by {
                if i < a.len() {
                    assert(fewer->Array_0[i].equals(rest->Array_0[i]));
                }
            }
        }
    }
}

} // verus!
