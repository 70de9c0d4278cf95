//! Mapbox GL style parser and filter engine.
//!
//! Parses a JSON style, replaces `@constant` references, and compiles layer
//! filters into an enum-based filter tree for fast feature matching at render
//! time.

use crate::braille_buffer::{closest_color, rgb_to_xterm, ColorIdx};
use crate::double::Double;
use crate::json::{
    counts, entry_models, find_value, lacks, law_last_entry_counts, lookup, models, parse_json,
    parsed_json, replace_constants, replaced, values_equal, values_match, Json, JsonNumber,
    JsonValue,
};
use crate::text::text_eq;
use crate::utils::{hex2rgb, parsed_color};
use vstd::prelude::*;

verus! {

// -- Filters ---------------------------------------------------------------

/// A compiled Mapbox GL filter expression.
#[derive(Debug)]
pub enum Filter {
    /// Always matches.
    All,
    /// All sub-filters must match (logical AND).
    AllOf(Vec<Filter>),
    /// At least one sub-filter must match (logical OR).
    AnyOf(Vec<Filter>),
    /// No sub-filter may match (logical NOR).
    NoneOf(Vec<Filter>),
    /// `property == value`
    Eq(String, JsonValue),
    /// `property != value`
    Ne(String, JsonValue),
    /// `property in [values...]`
    In(String, Vec<JsonValue>),
    /// `property not in [values...]`
    NotIn(String, Vec<JsonValue>),
    /// `property exists`
    Has(String),
    /// `property does not exist`
    NotHas(String),
    /// `property > value`
    Gt(String, Double),
    /// `property >= value`
    Gte(String, Double),
    /// `property < value`
    Lt(String, Double),
    /// `property <= value`
    Lte(String, Double),
}

/// What a [`Filter`] says.
pub enum Rule {
    All,
    AllOf(Seq<Rule>),
    AnyOf(Seq<Rule>),
    NoneOf(Seq<Rule>),
    Eq(Seq<char>, Json),
    Ne(Seq<char>, Json),
    In(Seq<char>, Seq<Json>),
    NotIn(Seq<char>, Seq<Json>),
    Has(Seq<char>),
    NotHas(Seq<char>),
    Gt(Seq<char>, Double),
    Gte(Seq<char>, Double),
    Lt(Seq<char>, Double),
    Lte(Seq<char>, Double),
}

impl Filter {
    pub open spec fn model(self) -> Rule
        decreases self,
    {
        match self {
            Filter::All => Rule::All,
            Filter::AllOf(subs) => Rule::AllOf(
                Seq::new(
                    subs@.len(),
                    |i: int|
                        if 0 <= i < subs@.len() {
                            subs@[i].model()
                        } else {
                            Rule::All
                        },
                ),
            ),
            Filter::AnyOf(subs) => Rule::AnyOf(
                Seq::new(
                    subs@.len(),
                    |i: int|
                        if 0 <= i < subs@.len() {
                            subs@[i].model()
                        } else {
                            Rule::All
                        },
                ),
            ),
            Filter::NoneOf(subs) => Rule::NoneOf(
                Seq::new(
                    subs@.len(),
                    |i: int|
                        if 0 <= i < subs@.len() {
                            subs@[i].model()
                        } else {
                            Rule::All
                        },
                ),
            ),
            Filter::Eq(key, val) => Rule::Eq(key@, val.model()),
            Filter::Ne(key, val) => Rule::Ne(key@, val.model()),
            Filter::In(key, vals) => Rule::In(key@, models(vals@)),
            Filter::NotIn(key, vals) => Rule::NotIn(key@, models(vals@)),
            Filter::Has(key) => Rule::Has(key@),
            Filter::NotHas(key) => Rule::NotHas(key@),
            Filter::Gt(key, val) => Rule::Gt(key@, val),
            Filter::Gte(key, val) => Rule::Gte(key@, val),
            Filter::Lt(key, val) => Rule::Lt(key@, val),
            Filter::Lte(key, val) => Rule::Lte(key@, val),
        }
    }
}

/// What the filters of a list say.
pub open spec fn rules(subs: Seq<Filter>) -> Seq<Rule> {
    Seq::new(subs.len(), |i: int| subs[i].model())
}

proof fn lemma_sub_rules(subs: Vec<Filter>)
    ensures
        Filter::AllOf(subs).model() == Rule::AllOf(rules(subs@)),
        Filter::AnyOf(subs).model() == Rule::AnyOf(rules(subs@)),
        Filter::NoneOf(subs).model() == Rule::NoneOf(rules(subs@)),
{
    assert(Filter::AllOf(subs).model()->AllOf_0 =~= rules(subs@));
    assert(Filter::AnyOf(subs).model()->AnyOf_0 =~= rules(subs@));
    assert(Filter::NoneOf(subs).model()->NoneOf_0 =~= rules(subs@));
}

/// Whether one of the values is this text.
pub open spec fn has_text(vals: Seq<Json>, text: Seq<char>) -> bool {
    exists|i: int| 0 <= i < vals.len() && (#[trigger] vals[i]).as_text() == Some(text)
}

/// Whether one of the values matches.
pub open spec fn has_match(vals: Seq<Json>, value: Json) -> bool {
    exists|i: int| 0 <= i < vals.len() && values_match(value, #[trigger] vals[i])
}

/// The number that a property holds.
pub open spec fn number_of(props: Seq<(Seq<char>, Json)>, key: Seq<char>) -> Option<Double> {
    match lookup(props, key) {
        Some(v) => v.as_double(),
        None => None,
    }
}

impl Rule {
    /// Whether a feature of this geometry type with these properties passes.
    pub open spec fn accepts(self, props: Seq<(Seq<char>, Json)>, ftype: Seq<char>) -> bool
        decreases self,
    {
        match self {
            Rule::All => true,
            Rule::AllOf(subs) => forall|i: int|
                0 <= i < subs.len() ==> (#[trigger] subs[i]).accepts(props, ftype),
            Rule::AnyOf(subs) => exists|i: int|
                0 <= i < subs.len() && (#[trigger] subs[i]).accepts(props, ftype),
            Rule::NoneOf(subs) => !exists|i: int|
                0 <= i < subs.len() && (#[trigger] subs[i]).accepts(props, ftype),
            Rule::Eq(key, val) => equality(props, ftype, key, val),
            Rule::Ne(key, val) => !equality(props, ftype, key, val),
            Rule::In(key, vals) => membership(props, ftype, key, vals),
            Rule::NotIn(key, vals) => !membership(props, ftype, key, vals),
            Rule::Has(key) => lookup(props, key) is Some,
            Rule::NotHas(key) => lookup(props, key) is None,
            Rule::Gt(key, val) => number_of(props, key) matches Some(v) && val.below(v),
            Rule::Gte(key, val) => number_of(props, key) matches Some(v) && val.at_most(v),
            Rule::Lt(key, val) => number_of(props, key) matches Some(v) && v.below(val),
            Rule::Lte(key, val) => number_of(props, key) matches Some(v) && v.at_most(val),
        }
    }
}

/// Whether a property has this value. The key `$type` stands for the geometry
/// type where the value is a text.
pub open spec fn equality(
    props: Seq<(Seq<char>, Json)>,
    ftype: Seq<char>,
    key: Seq<char>,
    val: Json,
) -> bool {
    if key == "$type"@ && val.as_text() is Some {
        val.as_text() == Some(ftype)
    } else {
        lookup(props, key) matches Some(v) && values_match(v, val)
    }
}

/// Whether a property has one of these values. The key `$type` stands for the
/// geometry type.
pub open spec fn membership(
    props: Seq<(Seq<char>, Json)>,
    ftype: Seq<char>,
    key: Seq<char>,
    vals: Seq<Json>,
) -> bool {
    if key == "$type"@ {
        has_text(vals, ftype)
    } else {
        lookup(props, key) matches Some(v) && has_match(vals, v)
    }
}

fn any_text(vals: &Vec<JsonValue>, text: &str) -> (r: bool)
    ensures
        r == has_text(models(vals@), text@),
{
    let ghost all = models(vals@);
    let mut i: usize = 0;
    while i < vals.len()
        invariant
            i <= vals@.len(),
            all == models(vals@),
            forall|k: int| 0 <= k < i ==> (#[trigger] all[k]).as_text() != Some(text@),
        decreases vals@.len() - i,
    {
        assert(all[i as int] == vals@[i as int].model());
        if let Some(s) = vals[i].as_str() {
            if text_eq(s.as_str(), text) {
                return true;
            }
        }
        i = i + 1;
    }
    false
}

fn any_match(vals: &Vec<JsonValue>, value: &JsonValue) -> (r: bool)
    ensures
        r == has_match(models(vals@), value.model()),
{
    let ghost all = models(vals@);
    let mut i: usize = 0;
    while i < vals.len()
        invariant
            i <= vals@.len(),
            all == models(vals@),
            forall|k: int| 0 <= k < i ==> !values_match(value.model(), #[trigger] all[k]),
        decreases vals@.len() - i,
    {
        assert(all[i as int] == vals@[i as int].model());
        if values_equal(value, &vals[i]) {
            return true;
        }
        i = i + 1;
    }
    false
}

fn is_equality(
    props: &Vec<(String, JsonValue)>,
    ftype: &str,
    key: &String,
    val: &JsonValue,
) -> (r: bool)
    ensures
        r == equality(entry_models(props@), ftype@, key@, val.model()),
{
    if text_eq(key.as_str(), "$type") {
        if let Some(s) = val.as_str() {
            return text_eq(ftype, s.as_str());
        }
    }
    match find_value(props, key.as_str()) {
        Some(v) => values_equal(v, val),
        None => false,
    }
}

fn is_membership(
    props: &Vec<(String, JsonValue)>,
    ftype: &str,
    key: &String,
    vals: &Vec<JsonValue>,
) -> (r: bool)
    ensures
        r == membership(entry_models(props@), ftype@, key@, models(vals@)),
{
    if text_eq(key.as_str(), "$type") {
        return any_text(vals, ftype);
    }
    match find_value(props, key.as_str()) {
        Some(v) => any_match(vals, v),
        None => false,
    }
}

fn number_property(props: &Vec<(String, JsonValue)>, key: &String) -> (r: Option<Double>)
    ensures
        r == number_of(entry_models(props@), key@),
{
    match find_value(props, key.as_str()) {
        Some(v) => v.as_double(),
        None => None,
    }
}

impl Filter {
    /// Test whether a feature's properties match this filter.
    ///
    /// `feature_type` is the MVT geometry type string: "Point", "LineString", or "Polygon".
    pub fn matches(&self, properties: &Vec<(String, JsonValue)>, feature_type: &str) -> (r: bool)
        ensures
            r == self.model().accepts(entry_models(properties@), feature_type@),
        decreases self,
    {
        let ghost props = entry_models(properties@);
        match self {
            Filter::All => true,
            Filter::AllOf(subs) => {
                let ghost all = rules(subs@);
                proof {
                    lemma_sub_rules(*subs);
                }
                let mut i: usize = 0;
                while i < subs.len()
                    invariant
                        i <= subs@.len(),
                        *self == Filter::AllOf(*subs),
                        all == rules(subs@),
                        self.model() == Rule::AllOf(all),
                        props == entry_models(properties@),
                        forall|k: int|
                            0 <= k < i ==> (#[trigger] all[k]).accepts(props, feature_type@),
                    decreases subs@.len() - i,
                {
                    assert(decreases_to!(self => self->AllOf_0));
                    let passes: bool = subs[i].matches(properties, feature_type);
                    assert(passes == self.model()->AllOf_0[i as int].accepts(props, feature_type@));
                    if !passes {
                        return false;
                    }
                    i = i + 1;
                }
                true
            },
            Filter::AnyOf(subs) => {
                let ghost all = rules(subs@);
                proof {
                    lemma_sub_rules(*subs);
                }
                let mut i: usize = 0;
                while i < subs.len()
                    invariant
                        i <= subs@.len(),
                        *self == Filter::AnyOf(*subs),
                        all == rules(subs@),
                        self.model() == Rule::AnyOf(all),
                        props == entry_models(properties@),
                        forall|k: int|
                            0 <= k < i ==> !(#[trigger] all[k]).accepts(props, feature_type@),
                    decreases subs@.len() - i,
                {
                    assert(decreases_to!(self => self->AnyOf_0));
                    let passes: bool = subs[i].matches(properties, feature_type);
                    assert(passes == self.model()->AnyOf_0[i as int].accepts(props, feature_type@));
                    if passes {
                        return true;
                    }
                    i = i + 1;
                }
                false
            },
            Filter::NoneOf(subs) => {
                let ghost all = rules(subs@);
                proof {
                    lemma_sub_rules(*subs);
                }
                let mut i: usize = 0;
                while i < subs.len()
                    invariant
                        i <= subs@.len(),
                        *self == Filter::NoneOf(*subs),
                        all == rules(subs@),
                        self.model() == Rule::NoneOf(all),
                        props == entry_models(properties@),
                        forall|k: int|
                            0 <= k < i ==> !(#[trigger] all[k]).accepts(props, feature_type@),
                    decreases subs@.len() - i,
                {
                    assert(decreases_to!(self => self->NoneOf_0));
                    let passes: bool = subs[i].matches(properties, feature_type);
                    assert(passes == self.model()->NoneOf_0[i as int].accepts(props, feature_type@));
                    if passes {
                        return false;
                    }
                    i = i + 1;
                }
                true
            },
            Filter::Eq(key, val) => is_equality(properties, feature_type, key, val),
            Filter::Ne(key, val) => !is_equality(properties, feature_type, key, val),
            Filter::In(key, vals) => is_membership(properties, feature_type, key, vals),
            Filter::NotIn(key, vals) => !is_membership(properties, feature_type, key, vals),
            Filter::Has(key) => find_value(properties, key.as_str()).is_some(),
            Filter::NotHas(key) => find_value(properties, key.as_str()).is_none(),
            Filter::Gt(key, val) => match number_property(properties, key) {
                Some(v) => val.is_below(&v),
                None => false,
            },
            Filter::Gte(key, val) => match number_property(properties, key) {
                Some(v) => val.is_at_most(&v),
                None => false,
            },
            Filter::Lt(key, val) => match number_property(properties, key) {
                Some(v) => v.is_below(val),
                None => false,
            },
            Filter::Lte(key, val) => match number_property(properties, key) {
                Some(v) => v.is_at_most(val),
                None => false,
            },
        }
    }
}

/// Each negative filter is the negation of its positive one.
pub proof fn law_negative_filters_negate(
    subs: Seq<Rule>,
    key: Seq<char>,
    val: Json,
    vals: Seq<Json>,
    props: Seq<(Seq<char>, Json)>,
    ftype: Seq<char>,
)
    ensures
        Rule::NoneOf(subs).accepts(props, ftype) == !Rule::AnyOf(subs).accepts(props, ftype),
        Rule::Ne(key, val).accepts(props, ftype) == !Rule::Eq(key, val).accepts(props, ftype),
        Rule::NotIn(key, vals).accepts(props, ftype) == !Rule::In(key, vals).accepts(props, ftype),
        Rule::NotHas(key).accepts(props, ftype) == !Rule::Has(key).accepts(props, ftype),
{
    let (a, n) = (Rule::AnyOf(subs), Rule::NoneOf(subs));
    assert(a->AnyOf_0 == n->NoneOf_0);
    if a.accepts(props, ftype) {
        let i = choose|i: int| 0 <= i < subs.len() && (#[trigger] subs[i]).accepts(props, ftype);
        assert(n->NoneOf_0[i].accepts(props, ftype));
    }
    if !n.accepts(props, ftype) {
        let i = choose|i: int| 0 <= i < subs.len() && (#[trigger] subs[i]).accepts(props, ftype);
        assert(a->AnyOf_0[i].accepts(props, ftype));
    }
}

// -- Compiling filters -----------------------------------------------------

/// The text at a place of a filter expression; empty where there is none.
pub open spec fn text_at(items: Seq<Json>, i: int) -> Seq<char> {
    if i < items.len() && items[i].as_text() is Some {
        items[i].as_text()->0
    } else {
        Seq::empty()
    }
}

/// The value at a place of a filter expression; null where there is none.
pub open spec fn value_at(items: Seq<Json>, i: int) -> Json {
    if i < items.len() {
        items[i]
    } else {
        Json::Null
    }
}

/// The number at a place of a filter expression; 0 where there is none.
pub open spec fn number_at(items: Seq<Json>, i: int) -> Double {
    if i < items.len() && items[i].as_double() is Some {
        items[i].as_double()->0
    } else {
        Double { bits: 0 }
    }
}

/// The operator of a filter expression.
pub open spec fn operator_of(filter: Json) -> Option<Seq<char>> {
    match filter {
        Json::Array(items) => if items.len() > 0 {
            items[0].as_text()
        } else {
            None
        },
        _ => None,
    }
}

/// The filter that an expression stands for. Anything that is no filter
/// expression stands for one that always matches.
pub open spec fn rule_of(filter: Json) -> Rule
    decreases filter,
{
    match (filter, operator_of(filter)) {
        (Json::Array(items), Some(op)) => {
            let subs = Seq::new(
                (items.len() - 1) as nat,
                |i: int|
                    if 0 <= i < items.len() - 1 {
                        rule_of(items[i + 1])
                    } else {
                        Rule::All
                    },
            );
            let key = text_at(items, 1);
            if op == "all"@ {
                Rule::AllOf(subs)
            } else if op == "any"@ {
                Rule::AnyOf(subs)
            } else if op == "none"@ {
                Rule::NoneOf(subs)
            } else if op == "=="@ {
                Rule::Eq(key, value_at(items, 2))
            } else if op == "!="@ {
                Rule::Ne(key, value_at(items, 2))
            } else if op == "in"@ {
                Rule::In(key, items.skip(2))
            } else if op == "!in"@ {
                Rule::NotIn(key, items.skip(2))
            } else if op == "has"@ {
                Rule::Has(key)
            } else if op == "!has"@ {
                Rule::NotHas(key)
            } else if op == ">"@ {
                Rule::Gt(key, number_at(items, 2))
            } else if op == ">="@ {
                Rule::Gte(key, number_at(items, 2))
            } else if op == "<"@ {
                Rule::Lt(key, number_at(items, 2))
            } else if op == "<="@ {
                Rule::Lte(key, number_at(items, 2))
            } else {
                Rule::All
            }
        },
        _ => Rule::All,
    }
}

/// Whether an expression can be compiled: a test for one of several values
/// names at least the property.
pub open spec fn compilable(filter: Json) -> bool
    decreases filter,
{
    match (filter, operator_of(filter)) {
        (Json::Array(items), Some(op)) => {
            if op == "all"@ || op == "any"@ || op == "none"@ {
                forall|i: int| 1 <= i < items.len() ==> compilable(#[trigger] items[i])
            } else if op == "in"@ || op == "!in"@ {
                items.len() >= 2
            } else {
                true
            }
        },
        _ => true,
    }
}

// -- What filters accept ---------------------------------------------------

/// The operators are different words.
proof fn lemma_operators_differ()
    ensures
        "any"@ != "all"@,
        "none"@ != "all"@ && "none"@ != "any"@,
        "=="@ != "all"@ && "=="@ != "any"@ && "=="@ != "none"@,
        "!="@ != "all"@ && "!="@ != "any"@ && "!="@ != "none"@ && "!="@ != "=="@,
        "in"@ != "all"@ && "in"@ != "any"@ && "in"@ != "none"@ && "in"@ != "=="@ && "in"@ != "!="@,
        "!in"@ != "all"@ && "!in"@ != "any"@ && "!in"@ != "none"@ && "!in"@ != "=="@ && "!in"@
            != "!="@ && "!in"@ != "in"@,
        "has"@ != "all"@ && "has"@ != "any"@ && "has"@ != "none"@ && "has"@ != "=="@ && "has"@
            != "!="@ && "has"@ != "in"@ && "has"@ != "!in"@,
        "!has"@ != "all"@ && "!has"@ != "any"@ && "!has"@ != "none"@ && "!has"@ != "=="@ && "!has"@
            != "!="@ && "!has"@ != "in"@ && "!has"@ != "!in"@ && "!has"@ != "has"@,
        ">"@ != "all"@ && ">"@ != "any"@ && ">"@ != "none"@ && ">"@ != "=="@ && ">"@
            != "!="@ && ">"@ != "in"@ && ">"@ != "!in"@ && ">"@ != "has"@ && ">"@ != "!has"@,
        ">="@ != "all"@ && ">="@ != "any"@ && ">="@ != "none"@ && ">="@ != "=="@ && ">="@
            != "!="@ && ">="@ != "in"@ && ">="@ != "!in"@ && ">="@ != "has"@ && ">="@ != "!has"@,
        "<"@ != "all"@ && "<"@ != "any"@ && "<"@ != "none"@ && "<"@ != "=="@ && "<"@
            != "!="@ && "<"@ != "in"@ && "<"@ != "!in"@ && "<"@ != "has"@ && "<"@ != "!has"@,
        "<="@ != "all"@ && "<="@ != "any"@ && "<="@ != "none"@ && "<="@ != "=="@ && "<="@
            != "!="@ && "<="@ != "in"@ && "<="@ != "!in"@ && "<="@ != "has"@ && "<="@ != "!has"@,
        ">="@ != ">"@,
        "<"@ != ">"@ && "<"@ != ">="@,
        "<="@ != ">"@ && "<="@ != ">="@ && "<="@ != "<"@,
{
    reveal_strlit("all");
    reveal_strlit("any");
    reveal_strlit("none");
    reveal_strlit("==");
    reveal_strlit("!=");
    reveal_strlit("in");
    reveal_strlit("!in");
    reveal_strlit("has");
    reveal_strlit("!has");
    reveal_strlit(">");
    reveal_strlit(">=");
    reveal_strlit("<");
    reveal_strlit("<=");
    assert("all"@.len() == 3 && "any"@.len() == 3 && "none"@.len() == 4);
    assert("=="@.len() == 2 && "!="@.len() == 2 && "in"@.len() == 2 && "!in"@.len() == 3);
    assert("has"@.len() == 3 && "!has"@.len() == 4);
    assert(">"@.len() == 1 && ">="@.len() == 2 && "<"@.len() == 1 && "<="@.len() == 2);
    assert("any"@[1] != "all"@[1]);
    assert("has"@[0] != "all"@[0] && "has"@[0] != "any"@[0] && "has"@[0] != "!in"@[0]);
    assert("!in"@[0] != "all"@[0] && "!in"@[0] != "any"@[0]);
    assert("!has"@[0] != "none"@[0]);
    assert("!="@[0] != "=="@[0] && "in"@[0] != "=="@[0] && "in"@[0] != "!="@[0]);
    assert(">="@[0] != "=="@[0] && ">="@[0] != "!="@[0] && ">="@[0] != "in"@[0]);
    assert("<="@[0] != "=="@[0] && "<="@[0] != "!="@[0] && "<="@[0] != "in"@[0]);
    assert("<"@[0] != ">"@[0] && "<="@[0] != ">="@[0]);
}

/// The expression that tests a property with an operator against a value.
pub open spec fn test_of(op: Seq<char>, key: Seq<char>, val: Json) -> Json {
    Json::Array(seq![Json::Text(op), Json::Text(key), val])
}

/// Whether a feature passes the filter that an expression stands for.
pub open spec fn passes(expr: Json, props: Seq<(Seq<char>, Json)>, ftype: Seq<char>) -> bool {
    rule_of(expr).accepts(props, ftype)
}

/// Where a property holds a number and a filter bounds it by another, neither of
/// them NaN, the four operators compare the property's value with the bound's,
/// the property on the left. This holds of the expressions and of the filters
/// that they are compiled to.
pub proof fn law_bounds_compare_values(
    props: Seq<(Seq<char>, Json)>,
    i: int,
    n: JsonNumber,
    bound: JsonNumber,
    key: String,
    ftype: Seq<char>,
)
    requires
        counts(props, i),
        props[i].0 == key@,
        props[i].1 == Json::Number(n),
        !n.double().nan(),
        !bound.double().nan(),
    ensures
        passes(test_of(">"@, key@, Json::Number(bound)), props, ftype) <==> n.double().value()
            > bound.double().value(),
        passes(test_of(">="@, key@, Json::Number(bound)), props, ftype) <==> n.double().value()
            >= bound.double().value(),
        passes(test_of("<"@, key@, Json::Number(bound)), props, ftype) <==> n.double().value()
            < bound.double().value(),
        passes(test_of("<="@, key@, Json::Number(bound)), props, ftype) <==> n.double().value()
            <= bound.double().value(),
        Filter::Gt(key, bound.double()).model().accepts(props, ftype) <==> n.double().value()
            > bound.double().value(),
        Filter::Gte(key, bound.double()).model().accepts(props, ftype) <==> n.double().value()
            >= bound.double().value(),
        Filter::Lt(key, bound.double()).model().accepts(props, ftype) <==> n.double().value()
            < bound.double().value(),
        Filter::Lte(key, bound.double()).model().accepts(props, ftype) <==> n.double().value()
            <= bound.double().value(),
{
    lemma_operators_differ();
    law_last_entry_counts(props, i, key@);
}

/// With a bound in force, `>=` is the negation of `<` and `>` the negation of
/// `<=` wherever the property holds a number and neither is NaN; with a NaN on
/// either side, without the property, or where it holds no number, none of the
/// four accepts.
pub proof fn law_bounds_need_numbers(
    props: Seq<(Seq<char>, Json)>,
    i: int,
    bound: JsonNumber,
    key: Seq<char>,
    ftype: Seq<char>,
)
    ensures
        counts(props, i) && props[i].0 == key && props[i].1 is Number
            && !props[i].1->Number_0.double().nan() && !bound.double().nan() ==> {
            &&& passes(test_of(">="@, key, Json::Number(bound)), props, ftype) == !passes(
                test_of("<"@, key, Json::Number(bound)),
                props,
                ftype,
            )
            &&& passes(test_of(">"@, key, Json::Number(bound)), props, ftype) == !passes(
                test_of("<="@, key, Json::Number(bound)),
                props,
                ftype,
            )
        },
        lacks(props, key) || (counts(props, i) && props[i].0 == key && (!(props[i].1 is Number)
            || props[i].1->Number_0.double().nan() || bound.double().nan())) ==> {
            &&& !passes(test_of(">"@, key, Json::Number(bound)), props, ftype)
            &&& !passes(test_of(">="@, key, Json::Number(bound)), props, ftype)
            &&& !passes(test_of("<"@, key, Json::Number(bound)), props, ftype)
            &&& !passes(test_of("<="@, key, Json::Number(bound)), props, ftype)
        },
{
    lemma_operators_differ();
    law_last_entry_counts(props, i, key);
}

/// A property that passes a lower bound goes on passing it as its value grows,
/// and one that passes an upper bound as its value shrinks.
pub proof fn law_bounds_are_monotone(
    props: Seq<(Seq<char>, Json)>,
    key: Seq<char>,
    lesser: JsonNumber,
    greater: JsonNumber,
    bound: JsonNumber,
    ftype: Seq<char>,
)
    requires
        !lesser.double().nan(),
        !greater.double().nan(),
        lesser.double().value() <= greater.double().value(),
    ensures
        ({
            let low = props.push((key, Json::Number(lesser)));
            let high = props.push((key, Json::Number(greater)));
            let val = Json::Number(bound);
            &&& passes(test_of(">"@, key, val), low, ftype) ==> passes(
                test_of(">"@, key, val),
                high,
                ftype,
            )
            &&& passes(test_of(">="@, key, val), low, ftype) ==> passes(
                test_of(">="@, key, val),
                high,
                ftype,
            )
            &&& passes(test_of("<"@, key, val), high, ftype) ==> passes(
                test_of("<"@, key, val),
                low,
                ftype,
            )
            &&& passes(test_of("<="@, key, val), high, ftype) ==> passes(
                test_of("<="@, key, val),
                low,
                ftype,
            )
        }),
{
    lemma_operators_differ();
    let low = props.push((key, Json::Number(lesser)));
    let high = props.push((key, Json::Number(greater)));
    law_last_entry_counts(low, props.len() as int, key);
    law_last_entry_counts(high, props.len() as int, key);
}

/// A test for a value accepts exactly the features whose property matches it;
/// the test for the geometry type exactly those of that type. A test for one of
/// several values accepts exactly what a test for one of them would.
pub proof fn law_equality_tests_the_property(
    props: Seq<(Seq<char>, Json)>,
    i: int,
    key: Seq<char>,
    val: Json,
    vals: Seq<Json>,
    wanted: Seq<char>,
    ftype: Seq<char>,
)
    ensures
        key != "$type"@ && counts(props, i) && props[i].0 == key ==> passes(
            test_of("=="@, key, val),
            props,
            ftype,
        ) == values_match(props[i].1, val),
        key != "$type"@ && lacks(props, key) ==> !passes(test_of("=="@, key, val), props, ftype),
        passes(test_of("=="@, "$type"@, Json::Text(wanted)), props, ftype) == (wanted == ftype),
        passes(test_of("!="@, key, val), props, ftype) == !passes(
            test_of("=="@, key, val),
            props,
            ftype,
        ),
        key != "$type"@ ==> (passes(
            Json::Array(seq![Json::Text("in"@), Json::Text(key)] + vals),
            props,
            ftype,
        ) <==> exists|k: int|
            0 <= k < vals.len() && passes(#[trigger] test_of("=="@, key, vals[k]), props, ftype)),
        passes(
            Json::Array(seq![Json::Text("in"@), Json::Text("$type"@)] + vals),
            props,
            ftype,
        ) <==> exists|k: int| 0 <= k < vals.len() && #[trigger] vals[k] == Json::Text(ftype),
        passes(Json::Array(seq![Json::Text("!in"@), Json::Text(key)] + vals), props, ftype)
            == !passes(
            Json::Array(seq![Json::Text("in"@), Json::Text(key)] + vals),
            props,
            ftype,
        ),
        counts(props, i) && props[i].0 == key ==> passes(
            Json::Array(seq![Json::Text("has"@), Json::Text(key)]),
            props,
            ftype,
        ),
        lacks(props, key) ==> !passes(
            Json::Array(seq![Json::Text("has"@), Json::Text(key)]),
            props,
            ftype,
        ),
        passes(Json::Array(seq![Json::Text("!has"@), Json::Text(key)]), props, ftype) == !passes(
            Json::Array(seq![Json::Text("has"@), Json::Text(key)]),
            props,
            ftype,
        ),
{
    lemma_operators_differ();
    law_last_entry_counts(props, i, key);
    let one_of = seq![Json::Text("in"@), Json::Text(key)] + vals;
    let none_of = seq![Json::Text("!in"@), Json::Text(key)] + vals;
    let types = seq![Json::Text("in"@), Json::Text("$type"@)] + vals;
    assert(one_of.skip(2) =~= vals);
    assert(none_of.skip(2) =~= vals);
    assert(types.skip(2) =~= vals);
    assert(rule_of(Json::Array(one_of)) == Rule::In(key, vals));
    assert(rule_of(Json::Array(none_of)) == Rule::NotIn(key, vals));
    assert(rule_of(Json::Array(types)) == Rule::In("$type"@, vals));
    if key != "$type"@ {
        let e = Json::Array(one_of);
        if passes(e, props, ftype) {
            let v = lookup(props, key)->0;
            let k = choose|k: int| 0 <= k < vals.len() && values_match(v, #[trigger] vals[k]);
            assert(passes(test_of("=="@, key, vals[k]), props, ftype));
        }
        if exists|k: int|
            0 <= k < vals.len() && passes(#[trigger] test_of("=="@, key, vals[k]), props, ftype) {
            let k = choose|k: int|
                0 <= k < vals.len() && passes(#[trigger] test_of("=="@, key, vals[k]), props, ftype);
            let v = lookup(props, key)->0;
            assert(values_match(v, vals[k]));
            assert(has_match(vals, v));
        }
    }
    if has_text(vals, ftype) {
        let k = choose|k: int| 0 <= k < vals.len() && (#[trigger] vals[k]).as_text() == Some(ftype);
        assert(vals[k] == Json::Text(ftype));
    }
    if exists|k: int| 0 <= k < vals.len() && #[trigger] vals[k] == Json::Text(ftype) {
        let k = choose|k: int| 0 <= k < vals.len() && #[trigger] vals[k] == Json::Text(ftype);
        assert(vals[k].as_text() == Some(ftype));
    }
}

/// A filter of each kind accepts what the expression with its operator lets
/// pass.
pub proof fn law_filters_accept_what_their_expressions_do(
    key: String,
    val: JsonValue,
    vals: Vec<JsonValue>,
    subs: Vec<Filter>,
    props: Seq<(Seq<char>, Json)>,
    ftype: Seq<char>,
)
    ensures
        Filter::All.model().accepts(props, ftype),
        Filter::Eq(key, val).model().accepts(props, ftype) == passes(
            test_of("=="@, key@, val.model()),
            props,
            ftype,
        ),
        Filter::Ne(key, val).model().accepts(props, ftype) == passes(
            test_of("!="@, key@, val.model()),
            props,
            ftype,
        ),
        Filter::In(key, vals).model().accepts(props, ftype) == passes(
            Json::Array(seq![Json::Text("in"@), Json::Text(key@)] + models(vals@)),
            props,
            ftype,
        ),
        Filter::NotIn(key, vals).model().accepts(props, ftype) == passes(
            Json::Array(seq![Json::Text("!in"@), Json::Text(key@)] + models(vals@)),
            props,
            ftype,
        ),
        Filter::Has(key).model().accepts(props, ftype) == passes(
            Json::Array(seq![Json::Text("has"@), Json::Text(key@)]),
            props,
            ftype,
        ),
        Filter::NotHas(key).model().accepts(props, ftype) == passes(
            Json::Array(seq![Json::Text("!has"@), Json::Text(key@)]),
            props,
            ftype,
        ),
        Filter::AllOf(subs).model().accepts(props, ftype) <==> forall|k: int|
            0 <= k < subs@.len() ==> (#[trigger] subs@[k]).model().accepts(props, ftype),
        Filter::AnyOf(subs).model().accepts(props, ftype) <==> exists|k: int|
            0 <= k < subs@.len() && (#[trigger] subs@[k]).model().accepts(props, ftype),
        Filter::NoneOf(subs).model().accepts(props, ftype) <==> !exists|k: int|
            0 <= k < subs@.len() && (#[trigger] subs@[k]).model().accepts(props, ftype),
{
    lemma_operators_differ();
    let one_of = seq![Json::Text("in"@), Json::Text(key@)] + models(vals@);
    let none_of = seq![Json::Text("!in"@), Json::Text(key@)] + models(vals@);
    assert(one_of.skip(2) =~= models(vals@));
    assert(none_of.skip(2) =~= models(vals@));
    assert(rule_of(Json::Array(one_of)) == Rule::In(key@, models(vals@)));
    assert(rule_of(Json::Array(none_of)) == Rule::NotIn(key@, models(vals@)));
    lemma_sub_rules(subs);
    let all = rules(subs@);
    let (a, y, n) = (Rule::AllOf(all), Rule::AnyOf(all), Rule::NoneOf(all));
    assert forall|k: int| 0 <= k < subs@.len() implies #[trigger] all[k] == subs@[k].model() by {}
    if a.accepts(props, ftype) {
        assert forall|k: int| 0 <= k < subs@.len() implies (#[trigger] subs@[k]).model().accepts(
            props,
            ftype,
        ) by {
            assert(a->AllOf_0[k].accepts(props, ftype));
        }
    }
    if forall|k: int| 0 <= k < subs@.len() ==> (#[trigger] subs@[k]).model().accepts(props, ftype) {
        assert forall|k: int| 0 <= k < all.len() implies (#[trigger] a->AllOf_0[k]).accepts(
            props,
            ftype,
        ) by {
            assert(subs@[k].model().accepts(props, ftype));
        }
    }
    if exists|k: int| 0 <= k < subs@.len() && (#[trigger] subs@[k]).model().accepts(props, ftype) {
        let k = choose|k: int|
            0 <= k < subs@.len() && (#[trigger] subs@[k]).model().accepts(props, ftype);
        assert(y->AnyOf_0[k].accepts(props, ftype));
        assert(n->NoneOf_0[k].accepts(props, ftype));
    }
    if y.accepts(props, ftype) {
        let k = choose|k: int| 0 <= k < all.len() && (#[trigger] all[k]).accepts(props, ftype);
        assert(subs@[k].model().accepts(props, ftype));
    }
    if !n.accepts(props, ftype) {
        let k = choose|k: int| 0 <= k < all.len() && (#[trigger] all[k]).accepts(props, ftype);
        assert(subs@[k].model().accepts(props, ftype));
    }
}

/// A feature passes a group `all` if it passes every member, `any` if it passes
/// some member, `none` if it passes none; and whatever is no filter expression
/// lets everything pass.
pub proof fn law_groups_combine_their_members(
    members: Seq<Json>,
    other: Json,
    props: Seq<(Seq<char>, Json)>,
    ftype: Seq<char>,
)
    ensures
        passes(Json::Array(seq![Json::Text("all"@)] + members), props, ftype) <==> forall|k: int|
            0 <= k < members.len() ==> passes(#[trigger] members[k], props, ftype),
        passes(Json::Array(seq![Json::Text("any"@)] + members), props, ftype) <==> exists|k: int|
            0 <= k < members.len() && passes(#[trigger] members[k], props, ftype),
        passes(Json::Array(seq![Json::Text("none"@)] + members), props, ftype) <==> !exists|k: int|
            0 <= k < members.len() && passes(#[trigger] members[k], props, ftype),
        !(other is Array) ==> passes(other, props, ftype),
        other is Array && other->Array_0.len() == 0 ==> passes(other, props, ftype),
{
    lemma_operators_differ();
    let all = seq![Json::Text("all"@)] + members;
    let any = seq![Json::Text("any"@)] + members;
    let none = seq![Json::Text("none"@)] + members;
    let subs = Seq::new(members.len(), |k: int| rule_of(members[k]));
    let (ra, ry, rn) = (
        rule_of(Json::Array(all)),
        rule_of(Json::Array(any)),
        rule_of(Json::Array(none)),
    );
    assert forall|k: int| 0 <= k < members.len() implies #[trigger] all[k + 1] == members[k]
        && any[k + 1] == members[k] && none[k + 1] == members[k] by {}
    lemma_member_rules(Json::Array(all), members);
    lemma_member_rules(Json::Array(any), members);
    lemma_member_rules(Json::Array(none), members);
    assert(ra == Rule::AllOf(subs) && ry == Rule::AnyOf(subs) && rn == Rule::NoneOf(subs));
    lemma_group_accepts(subs, members, props, ftype);
}

proof fn lemma_member_rules(expr: Json, members: Seq<Json>)
    requires
        expr is Array,
        expr->Array_0.len() == members.len() + 1,
        forall|k: int| 0 <= k < members.len() ==> #[trigger] expr->Array_0[k + 1] == members[k],
        expr->Array_0[0] == Json::Text("all"@) || expr->Array_0[0] == Json::Text("any"@)
            || expr->Array_0[0] == Json::Text("none"@),
    ensures
        ({
            let subs = Seq::new(members.len(), |k: int| rule_of(members[k]));
            &&& expr->Array_0[0] == Json::Text("all"@) ==> rule_of(expr) == Rule::AllOf(subs)
            &&& expr->Array_0[0] == Json::Text("any"@) ==> rule_of(expr) == Rule::AnyOf(subs)
            &&& expr->Array_0[0] == Json::Text("none"@) ==> rule_of(expr) == Rule::NoneOf(subs)
        }),
{
    lemma_operators_differ();
    let subs = Seq::new(members.len(), |k: int| rule_of(members[k]));
    let items = expr->Array_0;
    let own = Seq::new(
        (items.len() - 1) as nat,
        |i: int|
            if 0 <= i < items.len() - 1 {
                rule_of(items[i + 1])
            } else {
                Rule::All
            },
    );
    assert forall|k: int| 0 <= k < own.len() implies #[trigger] own[k] == subs[k] by {
        assert(items[k + 1] == members[k]);
    }
    assert(own =~= subs);
    assert(operator_of(expr) == items[0].as_text());
    if items[0] == Json::Text("all"@) {
        let r = rule_of(expr);
        assert(r is AllOf);
        assert forall|k: int| 0 <= k < subs.len() implies #[trigger] r->AllOf_0[k] == subs[k] by {
            assert(items[k + 1] == members[k]);
        }
        assert(r->AllOf_0 =~= subs);
    } else if items[0] == Json::Text("any"@) {
        let r = rule_of(expr);
        assert(r is AnyOf);
        assert forall|k: int| 0 <= k < subs.len() implies #[trigger] r->AnyOf_0[k] == subs[k] by {
            assert(items[k + 1] == members[k]);
        }
        assert(r->AnyOf_0 =~= subs);
    } else {
        let r = rule_of(expr);
        assert(r is NoneOf);
        assert forall|k: int| 0 <= k < subs.len() implies #[trigger] r->NoneOf_0[k] == subs[k] by {
            assert(items[k + 1] == members[k]);
        }
        assert(r->NoneOf_0 =~= subs);
    }
}

proof fn lemma_group_accepts(
    subs: Seq<Rule>,
    members: Seq<Json>,
    props: Seq<(Seq<char>, Json)>,
    ftype: Seq<char>,
)
    requires
        subs == Seq::new(members.len(), |k: int| rule_of(members[k])),
    ensures
        Rule::AllOf(subs).accepts(props, ftype) <==> forall|k: int|
            0 <= k < members.len() ==> passes(#[trigger] members[k], props, ftype),
        Rule::AnyOf(subs).accepts(props, ftype) <==> exists|k: int|
            0 <= k < members.len() && passes(#[trigger] members[k], props, ftype),
        Rule::NoneOf(subs).accepts(props, ftype) <==> !exists|k: int|
            0 <= k < members.len() && passes(#[trigger] members[k], props, ftype),
{
    let (a, y, n) = (Rule::AllOf(subs), Rule::AnyOf(subs), Rule::NoneOf(subs));
    assert(forall|k: int| 0 <= k < subs.len() ==> a->AllOf_0[k] == #[trigger] subs[k]);
    assert forall|k: int| 0 <= k < members.len() implies passes(#[trigger] members[k], props, ftype)
        == subs[k].accepts(props, ftype) by {}
    if a.accepts(props, ftype) {
        assert forall|k: int| 0 <= k < members.len() implies passes(
            #[trigger] members[k],
            props,
            ftype,
        ) by {
            assert(a->AllOf_0[k].accepts(props, ftype));
        }
    }
    if forall|k: int| 0 <= k < members.len() ==> passes(#[trigger] members[k], props, ftype) {
        assert forall|k: int| 0 <= k < subs.len() implies (#[trigger] a->AllOf_0[k]).accepts(
            props,
            ftype,
        ) by {
            assert(passes(members[k], props, ftype));
        }
    }
    if exists|k: int| 0 <= k < members.len() && passes(#[trigger] members[k], props, ftype) {
        let k = choose|k: int|
            0 <= k < members.len() && passes(#[trigger] members[k], props, ftype);
        assert(y->AnyOf_0[k].accepts(props, ftype));
        assert(n->NoneOf_0[k].accepts(props, ftype));
    }
    if y.accepts(props, ftype) {
        let k = choose|k: int| 0 <= k < subs.len() && (#[trigger] subs[k]).accepts(props, ftype);
        assert(passes(members[k], props, ftype));
    }
    if !n.accepts(props, ftype) {
        let k = choose|k: int| 0 <= k < subs.len() && (#[trigger] subs[k]).accepts(props, ftype);
        assert(passes(members[k], props, ftype));
    }
}

fn operator(items: &Vec<JsonValue>) -> (r: Option<&String>)
    ensures
        match r {
            Some(op) => operator_of(Json::Array(models(items@))) == Some(op@),
            None => operator_of(Json::Array(models(items@))) is None,
        },
{
    let ghost all = models(items@);
    if items.len() == 0 {
        return None;
    }
    assert(all[0] == items@[0].model());
    items[0].as_str()
}

fn is_group(op: &String) -> (r: bool)
    ensures
        r == (op@ == "all"@ || op@ == "any"@ || op@ == "none"@),
{
    text_eq(op.as_str(), "all") || text_eq(op.as_str(), "any") || text_eq(op.as_str(), "none")
}

/// Whether an expression can be compiled.
pub fn is_compilable(filter: &JsonValue) -> (r: bool)
    ensures
        r == compilable(filter.model()),
    decreases filter,
{
    let items: &Vec<JsonValue> = match filter.as_array() {
        Some(items) => items,
        None => {
            return true;
        },
    };
    let ghost all = models(items@);
    assert(filter.model() == Json::Array(all));
    let op: &String = match operator(items) {
        Some(op) => op,
        None => {
            return true;
        },
    };
    if is_group(op) {
        let mut i: usize = 1;
        while i < items.len()
            invariant
                1 <= i,
                items@.len() >= 1,
                i <= items@.len(),
                *filter == JsonValue::Array(*items),
                all == models(items@),
                filter.model() == Json::Array(all),
                operator_of(filter.model()) == Some(op@),
                op@ == "all"@ || op@ == "any"@ || op@ == "none"@,
                forall|k: int| 1 <= k < i ==> compilable(#[trigger] all[k]),
            decreases items@.len() - i,
        {
            assert(decreases_to!(filter => filter->Array_0));
            let good: bool = is_compilable(&items[i]);
            assert(good == compilable(filter.model()->Array_0[i as int]));
            if !good {
                return false;
            }
            i = i + 1;
        }
        true
    } else if text_eq(op.as_str(), "in") || text_eq(op.as_str(), "!in") {
        items.len() >= 2
    } else {
        true
    }
}

fn key_of(items: &Vec<JsonValue>) -> (r: String)
    ensures
        r@ == text_at(models(items@), 1),
{
    if items.len() > 1 {
        assert(models(items@)[1] == items@[1].model());
        if let Some(s) = items[1].as_str() {
            return s.clone();
        }
    }
    let none: String = String::new();
    assert(none@ =~= Seq::empty());
    none
}

fn operand(items: &Vec<JsonValue>) -> (r: JsonValue)
    ensures
        r.model() == value_at(models(items@), 2),
{
    if items.len() > 2 {
        items[2].duplicate()
    } else {
        JsonValue::Null
    }
}

fn operands(items: &Vec<JsonValue>) -> (r: Vec<JsonValue>)
    requires
        items@.len() >= 2,
    ensures
        models(r@) == models(items@).skip(2),
{
    let mut out: Vec<JsonValue> = Vec::new();
    let mut i: usize = 2;
    while i < items.len()
        invariant
            2 <= i <= items@.len(),
            out@.len() == i - 2,
            forall|k: int| 0 <= k < i - 2 ==> (#[trigger] out@[k]).model() == items@[k + 2].model(),
        decreases items@.len() - i,
    {
        out.push(items[i].duplicate());
        i = i + 1;
    }
    assert(models(out@) =~= models(items@).skip(2));
    out
}

fn bound_of(items: &Vec<JsonValue>) -> (r: Double)
    ensures
        r == number_at(models(items@), 2),
{
    if items.len() > 2 {
        assert(models(items@)[2] == items@[2].model());
        if let Some(d) = items[2].as_double() {
            return d;
        }
    }
    Double { bits: 0 }
}

/// Compile a JSON filter expression into a `Filter` tree.
pub fn compile_filter(filter: &JsonValue) -> (r: Filter)
    requires
        compilable(filter.model()),
    ensures
        r.model() == rule_of(filter.model()),
    decreases filter,
{
    let items: &Vec<JsonValue> = match filter.as_array() {
        Some(items) => items,
        None => {
            return Filter::All;
        },
    };
    let ghost all = models(items@);
    assert(filter.model() == Json::Array(all));
    let op: &String = match operator(items) {
        Some(op) => op,
        None => {
            return Filter::All;
        },
    };
    let name: &str = op.as_str();
    if is_group(op) {
        let mut subs: Vec<Filter> = Vec::new();
        let mut i: usize = 1;
        while i < items.len()
            invariant
                1 <= i <= items@.len(),
                *filter == JsonValue::Array(*items),
                all == models(items@),
                filter.model() == Json::Array(all),
                operator_of(filter.model()) == Some(op@),
                op@ == "all"@ || op@ == "any"@ || op@ == "none"@,
                compilable(filter.model()),
                subs@.len() == i - 1,
                forall|k: int|
                    0 <= k < i - 1 ==> (#[trigger] subs@[k]).model() == rule_of(all[k + 1]),
            decreases items@.len() - i,
        {
            assert(decreases_to!(filter => filter->Array_0));
            assert(compilable(filter.model()->Array_0[i as int]));
            let sub: Filter = compile_filter(&items[i]);
            subs.push(sub);
            i = i + 1;
        }
        proof {
            lemma_sub_rules(subs);
            let m = filter.model();
            assert(m->Array_0 == all);
            if op@ == "all"@ {
                assert(rule_of(m)->AllOf_0 =~= rules(subs@));
            } else if op@ == "any"@ {
                assert(rule_of(m)->AnyOf_0 =~= rules(subs@));
            } else {
                assert(rule_of(m)->NoneOf_0 =~= rules(subs@));
            }
        }
        if text_eq(name, "all") {
            Filter::AllOf(subs)
        } else if text_eq(name, "any") {
            Filter::AnyOf(subs)
        } else {
            Filter::NoneOf(subs)
        }
    } else if text_eq(name, "==") {
        Filter::Eq(key_of(items), operand(items))
    } else if text_eq(name, "!=") {
        Filter::Ne(key_of(items), operand(items))
    } else if text_eq(name, "in") {
        Filter::In(key_of(items), operands(items))
    } else if text_eq(name, "!in") {
        Filter::NotIn(key_of(items), operands(items))
    } else if text_eq(name, "has") {
        Filter::Has(key_of(items))
    } else if text_eq(name, "!has") {
        Filter::NotHas(key_of(items))
    } else if text_eq(name, ">") {
        Filter::Gt(key_of(items), bound_of(items))
    } else if text_eq(name, ">=") {
        Filter::Gte(key_of(items), bound_of(items))
    } else if text_eq(name, "<") {
        Filter::Lt(key_of(items), bound_of(items))
    } else if text_eq(name, "<=") {
        Filter::Lte(key_of(items), bound_of(items))
    } else {
        Filter::All
    }
}

// -- Layers ----------------------------------------------------------------

/// A parsed style layer.
#[derive(Debug)]
pub struct StyleLayer {
    pub id: String,
    pub layer_type: String,
    pub source_layer: Option<String>,
    pub filter: Filter,
    /// Raw JSON filter (kept for `ref` inheritance).
    pub raw_filter: Option<JsonValue>,
    pub paint: Vec<(String, JsonValue)>,
    pub minzoom: Option<Double>,
    pub maxzoom: Option<Double>,
}

/// What a [`StyleLayer`] says.
pub struct LayerModel {
    pub id: Seq<char>,
    pub layer_type: Seq<char>,
    pub source_layer: Option<Seq<char>>,
    pub filter: Rule,
    pub raw_filter: Option<Json>,
    pub paint: Seq<(Seq<char>, Json)>,
    pub minzoom: Option<Double>,
    pub maxzoom: Option<Double>,
}

/// The characters of an optional text.
pub open spec fn text_model(t: Option<String>) -> Option<Seq<char>> {
    match t {
        Some(s) => Some(s@),
        None => None,
    }
}

/// What an optional value says.
pub open spec fn json_model(v: Option<JsonValue>) -> Option<Json> {
    match v {
        Some(j) => Some(j.model()),
        None => None,
    }
}

impl View for StyleLayer {
    type V = LayerModel;

    open spec fn view(&self) -> LayerModel {
        LayerModel {
            id: self.id@,
            layer_type: self.layer_type@,
            source_layer: text_model(self.source_layer),
            filter: self.filter.model(),
            raw_filter: json_model(self.raw_filter),
            paint: entry_models(self.paint@),
            minzoom: self.minzoom,
            maxzoom: self.maxzoom,
        }
    }
}

/// What the layers of a list say.
pub open spec fn layer_models(layers: Seq<StyleLayer>) -> Seq<LayerModel> {
    Seq::new(layers.len(), |i: int| layers[i]@)
}

impl LayerModel {
    /// The palette entry of a paint property that is a color.
    pub open spec fn color(self, property: Seq<char>) -> Option<u8> {
        match lookup(self.paint, property) {
            Some(v) => match v.as_text() {
                Some(hex) => Some(closest_color(parsed_color(hex))),
                None => None,
            },
            None => None,
        }
    }
}

impl StyleLayer {
    /// Get the resolved color for a paint property (e.g. "line-color", "fill-color").
    pub fn color(&self, property: &str) -> (r: Option<ColorIdx>)
        ensures
            r == self@.color(property@),
    {
        match find_value(&self.paint, property) {
            Some(v) => match v.as_str() {
                Some(hex) => {
                    let rgb: [u8; 3] = hex2rgb(hex.as_str());
                    Some(rgb_to_xterm(rgb[0], rgb[1], rgb[2]))
                },
                None => None,
            },
            None => None,
        }
    }

    /// Get the text color.
    pub fn text_color(&self) -> (r: Option<ColorIdx>)
        ensures
            r == self@.color("text-color"@),
    {
        self.color("text-color")
    }

    /// Get the line color (tries "line-color", falls back to "fill-color").
    pub fn line_color(&self) -> (r: Option<ColorIdx>)
        ensures
            r == match self@.color("line-color"@) {
                Some(c) => Some(c),
                None => self@.color("fill-color"@),
            },
    {
        match self.color("line-color") {
            Some(c) => Some(c),
            None => self.color("fill-color"),
        }
    }

    /// Get the fill color.
    pub fn fill_color(&self) -> (r: Option<ColorIdx>)
        ensures
            r == self@.color("fill-color"@),
    {
        self.color("fill-color")
    }

    /// Get the background color.
    pub fn background_color(&self) -> (r: Option<ColorIdx>)
        ensures
            r == self@.color("background-color"@),
    {
        self.color("background-color")
    }
}

/// The last layer with this id.
pub open spec fn layer_with_id(layers: Seq<LayerModel>, id: Seq<char>) -> Option<int>
    decreases layers.len(),
{
    if layers.len() == 0 {
        None
    } else if layers.last().id == id {
        Some(layers.len() - 1)
    } else {
        layer_with_id(layers.drop_last(), id)
    }
}

/// The text of a key of a layer; empty where there is none.
pub open spec fn text_field(raw: Json, key: Seq<char>, default: Seq<char>) -> Seq<char> {
    match raw.get(key) {
        Some(v) => match v.as_text() {
            Some(s) => s,
            None => default,
        },
        None => default,
    }
}

/// The text of a key of a layer.
pub open spec fn optional_text(raw: Json, key: Seq<char>) -> Option<Seq<char>> {
    match raw.get(key) {
        Some(v) => v.as_text(),
        None => None,
    }
}

/// The number of a key of a layer.
pub open spec fn optional_number(raw: Json, key: Seq<char>) -> Option<Double> {
    match raw.get(key) {
        Some(v) => v.as_double(),
        None => None,
    }
}

/// The layer that a layer refers to, among those in front of it.
pub open spec fn referred(raw: Json, before: Seq<LayerModel>) -> Option<LayerModel> {
    match optional_text(raw, "ref"@) {
        Some(id) => match layer_with_id(before, id) {
            Some(i) => Some(before[i]),
            None => None,
        },
        None => None,
    }
}

/// The first of two options that is there.
pub open spec fn either<T>(a: Option<T>, b: Option<T>) -> Option<T> {
    if a is Some {
        a
    } else {
        b
    }
}

/// The layer that a JSON object describes. What it leaves out of source layer,
/// filter and zoom range, it has from the layer that it refers to.
pub open spec fn layer_of(raw: Json, before: Seq<LayerModel>) -> LayerModel {
    let own_source = optional_text(raw, "source-layer"@);
    let own_filter = raw.get("filter"@);
    let own_min = optional_number(raw, "minzoom"@);
    let own_max = optional_number(raw, "maxzoom"@);
    let base = referred(raw, before);
    let filter = match base {
        Some(b) => either(own_filter, b.raw_filter),
        None => own_filter,
    };
    LayerModel {
        id: text_field(raw, "id"@, Seq::empty()),
        layer_type: text_field(raw, "type"@, Seq::empty()),
        source_layer: match base {
            Some(b) => either(own_source, b.source_layer),
            None => own_source,
        },
        filter: match filter {
            Some(f) => rule_of(f),
            None => Rule::All,
        },
        raw_filter: filter,
        paint: match raw.get("paint"@) {
            Some(v) => match v.as_object() {
                Some(entries) => entries,
                None => Seq::empty(),
            },
            None => Seq::empty(),
        },
        minzoom: match base {
            Some(b) => either(own_min, b.minzoom),
            None => own_min,
        },
        maxzoom: match base {
            Some(b) => either(own_max, b.maxzoom),
            None => own_max,
        },
    }
}

/// The layers that the first `n` of a list of JSON objects describe.
pub open spec fn layers_of(raw: Seq<Json>, n: nat) -> Seq<LayerModel>
    decreases n,
{
    if n == 0 {
        Seq::empty()
    } else {
        let before = layers_of(raw, (n - 1) as nat);
        before.push(layer_of(raw[n - 1], before))
    }
}

/// The layer objects of a style, with its constants put in.
pub open spec fn raw_layers(root: Json) -> Seq<Json> {
    let tree = match (root.get("constants"@), root.get("layers"@)) {
        (Some(constants), Some(layers)) => Some(replaced(constants, layers)),
        (None, layers) => layers,
        _ => None,
    };
    match tree {
        Some(v) => match v.as_array() {
            Some(items) => items,
            None => Seq::empty(),
        },
        None => Seq::empty(),
    }
}

/// Whether all filters of a style can be compiled.
pub open spec fn style_compilable(root: Json) -> bool {
    forall|i: int|
        0 <= i < raw_layers(root).len() ==> ((#[trigger] raw_layers(root)[i]).get("filter"@) matches
            Some(f) ==> compilable(f))
}

/// The compiled style: a list of layers in draw order.
pub struct Styler {
    pub name: String,
    /// All layers in original draw order.
    pub layers: Vec<StyleLayer>,
}

/// What a [`Styler`] says.
pub struct StyleModel {
    pub name: Seq<char>,
    pub layers: Seq<LayerModel>,
}

impl View for Styler {
    type V = StyleModel;

    open spec fn view(&self) -> StyleModel {
        StyleModel { name: self.name@, layers: layer_models(self.layers@) }
    }
}

/// The style that a JSON object describes.
pub open spec fn style_of(root: Json) -> StyleModel {
    StyleModel {
        name: text_field(root, "name"@, "unknown"@),
        layers: layers_of(raw_layers(root), raw_layers(root).len()),
    }
}

/// Why a style cannot be used.
#[derive(Debug)]
pub enum StyleError {
    /// The text is no JSON.
    Json(serde_json::Error),
    /// A filter tests for one of several values without naming a property.
    Filter,
}

/// Whether a layer of a style applies to a feature.
pub open spec fn applies(
    layer: LayerModel,
    source: Seq<char>,
    props: Seq<(Seq<char>, Json)>,
    ftype: Seq<char>,
) -> bool {
    layer.source_layer == Some(source) && layer.filter.accepts(props, ftype)
}

/// The layers among the first `n` that style a source layer, in draw order.
pub open spec fn layers_from(layers: Seq<LayerModel>, source: Seq<char>, n: nat) -> Seq<int>
    decreases n,
{
    if n == 0 {
        Seq::empty()
    } else {
        let before = layers_from(layers, source, (n - 1) as nat);
        if layers[n - 1].source_layer == Some(source) {
            before.push(n - 1)
        } else {
            before
        }
    }
}

/// The layers among the first `n` that apply to a feature, in draw order.
pub open spec fn applicable(
    layers: Seq<LayerModel>,
    source: Seq<char>,
    props: Seq<(Seq<char>, Json)>,
    ftype: Seq<char>,
    n: nat,
) -> Seq<int>
    decreases n,
{
    if n == 0 {
        Seq::empty()
    } else {
        let before = applicable(layers, source, props, ftype, (n - 1) as nat);
        if applies(layers[n - 1], source, props, ftype) {
            before.push(n - 1)
        } else {
            before
        }
    }
}

fn field_text(raw: &JsonValue, key: &str, default: &str) -> (r: String)
    ensures
        r@ == text_field(raw.model(), key@, default@),
{
    match raw.get(key) {
        Some(v) => match v.as_str() {
            Some(s) => s.clone(),
            None => default.to_string(),
        },
        None => default.to_string(),
    }
}

fn field_optional_text(raw: &JsonValue, key: &str) -> (r: Option<String>)
    ensures
        text_model(r) == optional_text(raw.model(), key@),
{
    match raw.get(key) {
        Some(v) => match v.as_str() {
            Some(s) => Some(s.clone()),
            None => None,
        },
        None => None,
    }
}

fn field_number(raw: &JsonValue, key: &str) -> (r: Option<Double>)
    ensures
        r == optional_number(raw.model(), key@),
{
    match raw.get(key) {
        Some(v) => v.as_double(),
        None => None,
    }
}

fn find_layer(layers: &Vec<StyleLayer>, id: &str) -> (r: Option<usize>)
    ensures
        match r {
            Some(i) => i < layers@.len() && layer_with_id(layer_models(layers@), id@) == Some(
                i as int,
            ),
            None => layer_with_id(layer_models(layers@), id@) is None,
        },
{
    let ghost all = layer_models(layers@);
    let mut i: usize = layers.len();
    assert(all.take(i as int) =~= all);
    while i > 0
        invariant
            i <= layers@.len(),
            all == layer_models(layers@),
            layer_with_id(all, id@) == layer_with_id(all.take(i as int), id@),
        decreases i,
    {
        assert(all.take(i as int).drop_last() =~= all.take(i - 1));
        i = i - 1;
        if text_eq(layers[i].id.as_str(), id) {
            return Some(i);
        }
    }
    None
}

fn duplicate_value(v: &Option<JsonValue>) -> (r: Option<JsonValue>)
    ensures
        json_model(r) == json_model(*v),
{
    match v {
        Some(j) => Some(j.duplicate()),
        None => None,
    }
}

fn duplicate_entries(entries: &Vec<(String, JsonValue)>) -> (r: Vec<(String, JsonValue)>)
    ensures
        entry_models(r@) == entry_models(entries@),
{
    let mut out: Vec<(String, JsonValue)> = Vec::new();
    let mut i: usize = 0;
    while i < entries.len()
        invariant
            i <= entries@.len(),
            out@.len() == i,
            forall|k: int|
                0 <= k < i ==> (#[trigger] out@[k]).0@ == entries@[k].0@ && out@[k].1.model()
                    == entries@[k].1.model(),
        decreases entries@.len() - i,
    {
        out.push((entries[i].0.clone(), entries[i].1.duplicate()));
        i = i + 1;
    }
    assert(entry_models(out@) =~= entry_models(entries@));
    out
}

fn build_layer(raw: &JsonValue, before: &Vec<StyleLayer>) -> (r: StyleLayer)
    requires
        raw.model().get("filter"@) matches Some(f) ==> compilable(f),
        forall|i: int|
            0 <= i < before@.len() ==> ((#[trigger] before@[i])@.raw_filter matches Some(f)
                ==> compilable(f)),
    ensures
        r@ == layer_of(raw.model(), layer_models(before@)),
        r@.raw_filter matches Some(f) ==> compilable(f),
{
    let mut source_layer: Option<String> = field_optional_text(raw, "source-layer");
    let mut raw_filter: Option<JsonValue> = match raw.get("filter") {
        Some(f) => Some(f.duplicate()),
        None => None,
    };
    let mut minzoom: Option<Double> = field_number(raw, "minzoom");
    let mut maxzoom: Option<Double> = field_number(raw, "maxzoom");
    if let Some(id) = field_optional_text(raw, "ref") {
        if let Some(i) = find_layer(before, id.as_str()) {
            let base: &StyleLayer = &before[i];
            assert(layer_models(before@)[i as int] == base@);
            if source_layer.is_none() {
                source_layer = match &base.source_layer {
                    Some(s) => Some(s.clone()),
                    None => None,
                };
            }
            if raw_filter.is_none() {
                raw_filter = duplicate_value(&base.raw_filter);
                assert(json_model(raw_filter) == before@[i as int]@.raw_filter);
            }
            if minzoom.is_none() {
                minzoom = base.minzoom;
            }
            if maxzoom.is_none() {
                maxzoom = base.maxzoom;
            }
        }
    }
    let filter: Filter = match &raw_filter {
        Some(f) => compile_filter(f),
        None => Filter::All,
    };
    let paint: Vec<(String, JsonValue)> = match raw.get("paint") {
        Some(v) => match v.as_object() {
            Some(entries) => duplicate_entries(entries),
            None => Vec::new(),
        },
        None => Vec::new(),
    };
    proof {
        assert(entry_models(Seq::<(String, JsonValue)>::empty()) =~= Seq::empty());
        reveal_strlit("");
        assert(""@ =~= Seq::empty());
    }
    let r: StyleLayer = StyleLayer {
        id: field_text(raw, "id", ""),
        layer_type: field_text(raw, "type", ""),
        source_layer,
        filter,
        raw_filter,
        paint,
        minzoom,
        maxzoom,
    };
    assert(r@.paint =~= layer_of(raw.model(), layer_models(before@)).paint);
    r
}

/// The layer objects of a style, with its constants put in.
fn style_layers(root: &JsonValue) -> (r: Vec<JsonValue>)
    ensures
        models(r@) == raw_layers(root.model()),
{
    let tree: JsonValue = match root.get("layers") {
        Some(layers) => match root.get("constants") {
            Some(constants) => replace_constants(constants, layers),
            None => layers.duplicate(),
        },
        None => JsonValue::Null,
    };
    let ghost tree_model = tree.model();
    match tree {
        JsonValue::Array(items) => {
            assert(models(items@) =~= tree_model->Array_0);
            items
        },
        _ => {
            let none: Vec<JsonValue> = Vec::new();
            assert(models(none@) =~= Seq::empty());
            none
        },
    }
}

impl Styler {
    /// Parse and compile a Mapbox GL style JSON string.
    pub fn new(json: &str) -> (r: Result<Self, StyleError>)
        ensures
            match r {
                Ok(s) => parsed_json(json@) matches Some(root) && style_compilable(root) && s@
                    == style_of(root),
                Err(StyleError::Json(_)) => parsed_json(json@) is None,
                Err(StyleError::Filter) => parsed_json(json@) matches Some(root)
                    && !style_compilable(root),
            },
    {
        match parse_json(json) {
            Ok(root) => match Self::from_json(&root) {
                Some(s) => Ok(s),
                None => Err(StyleError::Filter),
            },
            Err(e) => Err(StyleError::Json(e)),
        }
    }

    /// Compile a style; `None` where one of its filters cannot be compiled.
    pub fn from_json(root: &JsonValue) -> (r: Option<Self>)
        ensures
            match r {
                Some(s) => style_compilable(root.model()) && s@ == style_of(root.model()),
                None => !style_compilable(root.model()),
            },
    {
        let raw: Vec<JsonValue> = style_layers(root);
        let ghost all = raw_layers(root.model());
        let mut layers: Vec<StyleLayer> = Vec::new();
        let mut i: usize = 0;
        assert(layer_models(layers@) =~= Seq::empty());
        while i < raw.len()
            invariant
                i <= raw@.len(),
                all == raw_layers(root.model()),
                models(raw@) == all,
                layer_models(layers@) == layers_of(all, i as nat),
                forall|k: int|
                    0 <= k < i ==> ((#[trigger] all[k]).get("filter"@) matches Some(f)
                        ==> compilable(f)),
                forall|k: int|
                    0 <= k < layers@.len() ==> ((#[trigger] layers@[k])@.raw_filter matches Some(f)
                        ==> compilable(f)),
            decreases raw@.len() - i,
        {
            assert(all[i as int] == raw@[i as int].model());
            if let Some(f) = raw[i].get("filter") {
                if !is_compilable(f) {
                    return None;
                }
            }
            let layer: StyleLayer = build_layer(&raw[i], &layers);
            let ghost before = layers@;
            layers.push(layer);
            proof {
                assert(layer_models(layers@) =~= layer_models(before).push(layer@));
            }
            i = i + 1;
        }
        Some(Styler { name: field_text(root, "name", "unknown"), layers })
    }

    /// The layer with this id.
    pub fn style_by_id(&self, id: &str) -> (r: Option<&StyleLayer>)
        ensures
            match r {
                Some(layer) => layer_with_id(self@.layers, id@) matches Some(i)
                    && self@.layers[i] == layer@,
                None => layer_with_id(self@.layers, id@) is None,
            },
    {
        match find_layer(&self.layers, id) {
            Some(i) => Some(&self.layers[i]),
            None => None,
        }
    }

    /// The layers that style a source layer, in draw order.
    pub fn style_by_layer(&self, layer: &str) -> (r: Vec<&StyleLayer>)
        ensures
            ({
                let found = layers_from(self@.layers, layer@, self@.layers.len());
                &&& r@.len() == found.len()
                &&& forall|k: int|
                    0 <= k < r@.len() ==> *(#[trigger] r@[k]) == self.layers@[found[k]]
            }),
    {
        let ghost all = self@.layers;
        let mut out: Vec<&StyleLayer> = Vec::new();
        let mut i: usize = 0;
        while i < self.layers.len()
            invariant
                i <= self.layers@.len(),
                all == self@.layers,
                out@.len() == layers_from(all, layer@, i as nat).len(),
                forall|k: int|
                    0 <= k < out@.len() ==> *(#[trigger] out@[k]) == self.layers@[layers_from(
                        all,
                        layer@,
                        i as nat,
                    )[k]],
            decreases self.layers@.len() - i,
        {
            let fits: bool = match &self.layers[i].source_layer {
                Some(source) => text_eq(source.as_str(), layer),
                None => false,
            };
            if fits {
                out.push(&self.layers[i]);
            }
            i = i + 1;
        }
        out
    }

    fn layer_applies(
        &self,
        i: usize,
        layer: &str,
        properties: &Vec<(String, JsonValue)>,
        feature_type: &str,
    ) -> (r: bool)
        requires
            i < self.layers@.len(),
        ensures
            r == applies(
                self@.layers[i as int],
                layer@,
                entry_models(properties@),
                feature_type@,
            ),
    {
        let style: &StyleLayer = &self.layers[i];
        match &style.source_layer {
            Some(source) => text_eq(source.as_str(), layer) && style.filter.matches(
                properties,
                feature_type,
            ),
            None => false,
        }
    }

    /// Get all matching styles for a given source layer and feature.
    pub fn get_all_styles_for(
        &self,
        layer: &str,
        properties: &Vec<(String, JsonValue)>,
        feature_type: &str,
    ) -> (r: Vec<&StyleLayer>)
        ensures
            ({
                let found = applicable(
                    self@.layers,
                    layer@,
                    entry_models(properties@),
                    feature_type@,
                    self@.layers.len(),
                );
                &&& r@.len() == found.len()
                &&& forall|k: int|
                    0 <= k < r@.len() ==> *(#[trigger] r@[k]) == self.layers@[found[k]]
            }),
    {
        let ghost props = entry_models(properties@);
        let ghost all = self@.layers;
        let mut out: Vec<&StyleLayer> = Vec::new();
        let mut i: usize = 0;
        while i < self.layers.len()
            invariant
                i <= self.layers@.len(),
                all == self@.layers,
                props == entry_models(properties@),
                out@.len() == applicable(all, layer@, props, feature_type@, i as nat).len(),
                forall|k: int|
                    0 <= k < out@.len() ==> *(#[trigger] out@[k]) == self.layers@[applicable(
                        all,
                        layer@,
                        props,
                        feature_type@,
                        i as nat,
                    )[k]],
            decreases self.layers@.len() - i,
        {
            if self.layer_applies(i, layer, properties, feature_type) {
                out.push(&self.layers[i]);
            }
            i = i + 1;
        }
        out
    }

    /// Get the matching style for a given source layer and feature: the first
    /// in draw order.
    pub fn get_style_for(
        &self,
        layer: &str,
        properties: &Vec<(String, JsonValue)>,
        feature_type: &str,
    ) -> (r: Option<&StyleLayer>)
        ensures
            match r {
                Some(style) => style_index(
                    self@.layers,
                    layer@,
                    entry_models(properties@),
                    feature_type@,
                ) matches Some(i) && 0 <= i < self.layers@.len() && *style == self.layers@[i],
                None => style_index(
                    self@.layers,
                    layer@,
                    entry_models(properties@),
                    feature_type@,
                ) is None,
            },
    {
        let ghost props = entry_models(properties@);
        let ghost all = self@.layers;
        let mut i: usize = 0;
        while i < self.layers.len()
            invariant
                i <= self.layers@.len(),
                all == self@.layers,
                props == entry_models(properties@),
                applicable(all, layer@, props, feature_type@, i as nat).len() == 0,
            decreases self.layers@.len() - i,
        {
            if self.layer_applies(i, layer, properties, feature_type) {
                proof {
                    lemma_applicable_grows(
                        all,
                        layer@,
                        props,
                        feature_type@,
                        (i + 1) as nat,
                        all.len(),
                    );
                }
                return Some(&self.layers[i]);
            }
            i = i + 1;
        }
        None
    }
}

/// The first layer that applies to a feature.
pub open spec fn style_index(
    layers: Seq<LayerModel>,
    source: Seq<char>,
    props: Seq<(Seq<char>, Json)>,
    ftype: Seq<char>,
) -> Option<int> {
    let found = applicable(layers, source, props, ftype, layers.len());
    if found.len() > 0 {
        Some(found[0])
    } else {
        None
    }
}

proof fn lemma_applicable_grows(
    layers: Seq<LayerModel>,
    source: Seq<char>,
    props: Seq<(Seq<char>, Json)>,
    ftype: Seq<char>,
    m: nat,
    n: nat,
)
    requires
        m <= n,
    ensures
        applicable(layers, source, props, ftype, m).len() <= applicable(
            layers,
            source,
            props,
            ftype,
            n,
        ).len(),
        forall|k: int|
            0 <= k < applicable(layers, source, props, ftype, m).len() ==> #[trigger] applicable(
                layers,
                source,
                props,
                ftype,
                n,
            )[k] == applicable(layers, source, props, ftype, m)[k],
    decreases n,
{
    if m < n {
        lemma_applicable_grows(layers, source, props, ftype, m, (n - 1) as nat);
    }
}

/// Whether a word is one of the operators.
pub open spec fn is_operator(op: Seq<char>) -> bool {
    ||| op == "all"@ || op == "any"@ || op == "none"@
    ||| op == "=="@ || op == "!="@ || op == "in"@ || op == "!in"@ || op == "has"@ || op == "!has"@
    ||| op == ">"@ || op == ">="@ || op == "<"@ || op == "<="@
}

/// An expression that starts with no operator lets everything pass.
pub proof fn law_unknown_operators_let_everything_pass(
    items: Seq<Json>,
    props: Seq<(Seq<char>, Json)>,
    ftype: Seq<char>,
)
    requires
        items.len() > 0,
        items[0] matches Json::Text(op) ==> !is_operator(op),
    ensures
        passes(Json::Array(items), props, ftype),
{
}

/// What is missing from a test counts as nothing: a missing value as null, a
/// missing bound as 0, a missing key as the empty one.
pub proof fn law_missing_operands_count_as_nothing(
    key: Seq<char>,
    props: Seq<(Seq<char>, Json)>,
    ftype: Seq<char>,
)
    ensures
        passes(Json::Array(seq![Json::Text("=="@), Json::Text(key)]), props, ftype) == passes(
            test_of("=="@, key, Json::Null),
            props,
            ftype,
        ),
        passes(Json::Array(seq![Json::Text(">"@), Json::Text(key)]), props, ftype) == passes(
            test_of(">"@, key, Json::Number(JsonNumber::Float(Double { bits: 0 }))),
            props,
            ftype,
        ),
        passes(Json::Array(seq![Json::Text(">="@), Json::Text(key)]), props, ftype) == passes(
            test_of(">="@, key, Json::Number(JsonNumber::Float(Double { bits: 0 }))),
            props,
            ftype,
        ),
        passes(Json::Array(seq![Json::Text("<"@), Json::Text(key)]), props, ftype) == passes(
            test_of("<"@, key, Json::Number(JsonNumber::Float(Double { bits: 0 }))),
            props,
            ftype,
        ),
        passes(Json::Array(seq![Json::Text("<="@), Json::Text(key)]), props, ftype) == passes(
            test_of("<="@, key, Json::Number(JsonNumber::Float(Double { bits: 0 }))),
            props,
            ftype,
        ),
        passes(Json::Array(seq![Json::Text("has"@)]), props, ftype) == passes(
            Json::Array(seq![Json::Text("has"@), Json::Text(Seq::empty())]),
            props,
            ftype,
        ),
{
    lemma_operators_differ();
}

/// An expression can be compiled unless it, or a member of a group in it, tests
/// for one of several values without naming a property.
pub proof fn law_expressions_can_be_compiled(items: Seq<Json>, other: Json)
    ensures
        !(other is Array) ==> compilable(other),
        items.len() > 0 ==> (items[0] matches Json::Text(op) ==> {
            &&& op == "all"@ || op == "any"@ || op == "none"@ ==> (compilable(Json::Array(items))
                <==> forall|i: int| 1 <= i < items.len() ==> compilable(#[trigger] items[i]))
            &&& op == "in"@ || op == "!in"@ ==> (compilable(Json::Array(items)) <==> items.len()
                >= 2)
            &&& !(op == "all"@ || op == "any"@ || op == "none"@ || op == "in"@ || op == "!in"@)
                ==> compilable(Json::Array(items))
        }),
        items.len() == 0 || !(items[0] is Text) ==> compilable(Json::Array(items)),
{
    lemma_operators_differ();
    let whole = Json::Array(items);
    assert(whole->Array_0 == items);
}

// -- What styles say -------------------------------------------------------

/// Whether the layer at `i` is the one that an id stands for: the last with it.
pub open spec fn is_named(layers: Seq<LayerModel>, i: int, id: Seq<char>) -> bool {
    &&& 0 <= i < layers.len()
    &&& layers[i].id == id
    &&& forall|k: int| i < k < layers.len() ==> (#[trigger] layers[k]).id != id
}

/// An id stands for the last layer that has it, and for none where none has.
pub proof fn law_ids_name_the_last_layer(layers: Seq<LayerModel>, i: int, id: Seq<char>)
    ensures
        is_named(layers, i, id) ==> layer_with_id(layers, id) == Some(i),
        (forall|k: int| 0 <= k < layers.len() ==> (#[trigger] layers[k]).id != id)
            ==> layer_with_id(layers, id) is None,
    decreases layers.len(),
{
    if layers.len() > 0 {
        let rest = layers.drop_last();
        assert(layers.last() == layers[layers.len() - 1]);
        if is_named(layers, i, id) && i < layers.len() - 1 {
            assert(rest[i] == layers[i]);
            assert forall|k: int| i < k < rest.len() implies (#[trigger] rest[k]).id != id by {
                assert(rest[k] == layers[k]);
            }
        }
        if forall|k: int| 0 <= k < layers.len() ==> (#[trigger] layers[k]).id != id {
            assert forall|k: int| 0 <= k < rest.len() implies (#[trigger] rest[k]).id != id by {
                assert(rest[k] == layers[k]);
            }
        }
        law_ids_name_the_last_layer(rest, i, id);
    }
}

/// A layer has under each name what its object has under the corresponding key:
/// its id, its type, its source layer, its least and greatest zoom level, its
/// paint, and as its filter what its expression lets pass. This holds whatever
/// layer it refers to.
pub proof fn law_layers_have_what_their_objects_say(
    raw: Json,
    before: Seq<LayerModel>,
    props: Seq<(Seq<char>, Json)>,
    ftype: Seq<char>,
)
    ensures
        raw.get("id"@) matches Some(Json::Text(s)) ==> layer_of(raw, before).id == s,
        raw.get("id"@) is None ==> layer_of(raw, before).id.len() == 0,
        raw.get("type"@) matches Some(Json::Text(s)) ==> layer_of(raw, before).layer_type == s,
        raw.get("type"@) is None ==> layer_of(raw, before).layer_type.len() == 0,
        raw.get("source-layer"@) matches Some(Json::Text(s)) ==> layer_of(raw, before).source_layer
            == Some(s),
        raw.get("minzoom"@) matches Some(Json::Number(n)) ==> layer_of(raw, before).minzoom == Some(
            n.double(),
        ),
        raw.get("maxzoom"@) matches Some(Json::Number(n)) ==> layer_of(raw, before).maxzoom == Some(
            n.double(),
        ),
        raw.get("paint"@) matches Some(Json::Object(entries)) ==> layer_of(raw, before).paint
            == entries,
        raw.get("paint"@) is None ==> layer_of(raw, before).paint.len() == 0,
        raw.get("filter"@) matches Some(expr) ==> layer_of(raw, before).raw_filter == Some(expr)
            && layer_of(raw, before).filter.accepts(props, ftype) == passes(expr, props, ftype),
{
}

/// What a layer leaves out of its source layer, its filter and its zoom range,
/// it has from the layer that it refers to, the last with that id in front of
/// it; without such a layer it lacks it, and its filter lets everything pass.
pub proof fn law_layers_take_from_those_they_refer_to(
    raw: Json,
    before: Seq<LayerModel>,
    i: int,
    props: Seq<(Seq<char>, Json)>,
    ftype: Seq<char>,
)
    ensures
        raw.get("ref"@) matches Some(Json::Text(id)) ==> is_named(before, i, id) ==> {
            let layer = layer_of(raw, before);
            &&& raw.get("source-layer"@) is None ==> layer.source_layer == before[i].source_layer
            &&& raw.get("minzoom"@) is None ==> layer.minzoom == before[i].minzoom
            &&& raw.get("maxzoom"@) is None ==> layer.maxzoom == before[i].maxzoom
            &&& raw.get("filter"@) is None ==> layer.raw_filter == before[i].raw_filter
            &&& raw.get("filter"@) is None && before[i].raw_filter is Some ==> layer.filter.accepts(
                props,
                ftype,
            ) == passes(before[i].raw_filter->0, props, ftype)
        },
        raw.get("ref"@) is None ==> {
            let layer = layer_of(raw, before);
            &&& raw.get("source-layer"@) is None ==> layer.source_layer is None
            &&& raw.get("minzoom"@) is None ==> layer.minzoom is None
            &&& raw.get("maxzoom"@) is None ==> layer.maxzoom is None
            &&& raw.get("filter"@) is None ==> layer.raw_filter is None && layer.filter.accepts(
                props,
                ftype,
            )
        },
{
    if let Some(Json::Text(id)) = raw.get("ref"@) {
        law_ids_name_the_last_layer(before, i, id);
    }
}

/// A style has one layer for each of its layer objects, in their order, and each
/// can refer to the ones in front of it alone.
pub proof fn law_styles_keep_the_order_of_layers(raw: Seq<Json>, n: nat, k: int)
    requires
        0 <= k < n,
    ensures
        layers_of(raw, n).len() == n,
        layers_of(raw, n)[k] == layer_of(raw[k], layers_of(raw, n).take(k)),
    decreases n,
{
    let before = layers_of(raw, (n - 1) as nat);
    lemma_layer_count(raw, (n - 1) as nat);
    if k < n - 1 {
        law_styles_keep_the_order_of_layers(raw, (n - 1) as nat, k);
        assert(layers_of(raw, n).take(k) =~= before.take(k));
    } else {
        assert(layers_of(raw, n).take(k) =~= before);
    }
}

proof fn lemma_layer_count(raw: Seq<Json>, n: nat)
    ensures
        layers_of(raw, n).len() == n,
    decreases n,
{
    if n > 0 {
        lemma_layer_count(raw, (n - 1) as nat);
    }
}

/// A style without constants has its layer objects as they are; one with
/// constants has them with the constants put in.
pub proof fn law_styles_put_their_constants_in(root: Json, items: Seq<Json>, k: int)
    requires
        root.get("layers"@) == Some(Json::Array(items)),
        0 <= k < items.len(),
    ensures
        raw_layers(root).len() == items.len(),
        root.get("constants"@) is None ==> raw_layers(root)[k] == items[k],
        root.get("constants"@) matches Some(constants) ==> raw_layers(root)[k] == replaced(
            constants,
            items[k],
        ),
        style_of(root).layers.len() == items.len(),
        root.get("name"@) matches Some(Json::Text(name)) ==> style_of(root).name == name,
        root.get("name"@) is None ==> style_of(root).name == "unknown"@,
{
    let tree = Json::Array(items);
    if let Some(constants) = root.get("constants"@) {
        assert(tree->Array_0[k] == items[k]);
        assert(replaced(constants, tree)->Array_0[k] == replaced(constants, items[k]));
    }
    lemma_layer_count(raw_layers(root), raw_layers(root).len());
}

/// Whether a list names, in their order, exactly the places below `n` that are
/// wanted.
pub open spec fn picks(found: Seq<int>, n: nat, wanted: spec_fn(int) -> bool) -> bool {
    &&& forall|k: int| 0 <= k < found.len() ==> 0 <= #[trigger] found[k] < n && wanted(found[k])
    &&& forall|k: int, l: int|
        0 <= k < l < found.len() ==> #[trigger] found[k] < #[trigger] found[l]
    &&& forall|i: int| 0 <= i < n && #[trigger] wanted(i) ==> found.contains(i)
}

pub proof fn lemma_picks_push(found: Seq<int>, n: nat, wanted: spec_fn(int) -> bool)
    requires
        picks(found, n, wanted),
    ensures
        wanted(n as int) ==> picks(found.push(n as int), n + 1, wanted),
        !wanted(n as int) ==> picks(found, n + 1, wanted),
{
    let more = found.push(n as int);
    if wanted(n as int) {
        assert forall|i: int| 0 <= i < n + 1 && #[trigger] wanted(i) implies more.contains(i) by {
            if i < n {
                assert(found.contains(i));
                let k = choose|k: int| 0 <= k < found.len() && found[k] == i;
                assert(more[k] == i);
            } else {
                assert(more[found.len() as int] == i);
            }
        }
    }
}

/// The layers that style a feature are all those of its source layer whose
/// filter lets it pass, in draw order; the one that counts is the first of
/// them, and there is none where none of them fits. The layers of a source layer
/// are all that name it, in draw order.
pub proof fn law_features_are_styled_by_all_that_fit(
    layers: Seq<LayerModel>,
    source: Seq<char>,
    props: Seq<(Seq<char>, Json)>,
    ftype: Seq<char>,
    i: int,
)
    ensures
        picks(
            applicable(layers, source, props, ftype, layers.len()),
            layers.len(),
            |k: int|
                layers[k].source_layer == Some(source) && layers[k].filter.accepts(props, ftype),
        ),
        picks(
            layers_from(layers, source, layers.len()),
            layers.len(),
            |k: int| layers[k].source_layer == Some(source),
        ),
        style_index(layers, source, props, ftype) == Some(i) <==> {
            &&& 0 <= i < layers.len()
            &&& layers[i].source_layer == Some(source)
            &&& layers[i].filter.accepts(props, ftype)
            &&& forall|k: int|
                0 <= k < i ==> !((#[trigger] layers[k]).source_layer == Some(source)
                    && layers[k].filter.accepts(props, ftype))
        },
{
    let fits = |k: int|
        layers[k].source_layer == Some(source) && layers[k].filter.accepts(props, ftype);
    let names = |k: int| layers[k].source_layer == Some(source);
    lemma_applicable_picks(layers, source, props, ftype, layers.len());
    lemma_layers_from_picks(layers, source, layers.len());
    let found = applicable(layers, source, props, ftype, layers.len());
    if 0 <= i < layers.len() && fits(i) {
        assert(found.contains(i));
        let k = choose|k: int| 0 <= k < found.len() && found[k] == i;
        if k > 0 {
            assert(found[0] < found[k]);
            assert(fits(found[0]));
            assert(layers[found[0]].source_layer == Some(source));
        }
    }
    if style_index(layers, source, props, ftype) == Some(i) {
        assert(found[0] == i && fits(found[0]));
        assert forall|k: int| 0 <= k < i implies !((#[trigger] layers[k]).source_layer == Some(
            source,
        ) && layers[k].filter.accepts(props, ftype)) by {
            if fits(k) {
                assert(found.contains(k));
                let m = choose|m: int| 0 <= m < found.len() && found[m] == k;
                if m > 0 {
                    assert(found[0] < found[m]);
                }
            }
        }
    }
}

proof fn lemma_applicable_picks(
    layers: Seq<LayerModel>,
    source: Seq<char>,
    props: Seq<(Seq<char>, Json)>,
    ftype: Seq<char>,
    n: nat,
)
    ensures
        picks(
            applicable(layers, source, props, ftype, n),
            n,
            |k: int|
                layers[k].source_layer == Some(source) && layers[k].filter.accepts(props, ftype),
        ),
    decreases n,
{
    if n > 0 {
        lemma_applicable_picks(layers, source, props, ftype, (n - 1) as nat);
        lemma_picks_push(
            applicable(layers, source, props, ftype, (n - 1) as nat),
            (n - 1) as nat,
            |k: int|
                layers[k].source_layer == Some(source) && layers[k].filter.accepts(props, ftype),
        );
    }
}

proof fn lemma_layers_from_picks(layers: Seq<LayerModel>, source: Seq<char>, n: nat)
    ensures
        picks(layers_from(layers, source, n), n, |k: int| layers[k].source_layer == Some(source)),
    decreases n,
{
    if n > 0 {
        lemma_layers_from_picks(layers, source, (n - 1) as nat);
        lemma_picks_push(
            layers_from(layers, source, (n - 1) as nat),
            (n - 1) as nat,
            |k: int| layers[k].source_layer == Some(source),
        );
    }
}

/// A paint property that is a text gives the palette entry that is closest to
/// the color of that text; another value, or none, gives no color.
pub proof fn law_paint_gives_the_closest_color(layer: LayerModel, i: int, property: Seq<char>)
    ensures
        counts(layer.paint, i) ==> (layer.paint[i].1 matches Json::Text(hex) ==> layer.color(
            layer.paint[i].0,
        ) == Some(closest_color(parsed_color(hex)))),
        counts(layer.paint, i) && !(layer.paint[i].1 is Text) ==> layer.color(layer.paint[i].0)
            is None,
        lacks(layer.paint, property) ==> layer.color(property) is None,
{
    law_last_entry_counts(layer.paint, i, property);
}

/// A layer says what its fields hold, each under its own name.
pub proof fn law_layer_models_show_layers(layer: StyleLayer, style: Styler, i: int)
    ensures
        layer@.id == layer.id@,
        layer@.layer_type == layer.layer_type@,
        layer.source_layer matches Some(s) ==> layer@.source_layer == Some(s@),
        layer.source_layer is None ==> layer@.source_layer is None,
        layer@.filter == layer.filter.model(),
        layer@.minzoom == layer.minzoom,
        layer@.maxzoom == layer.maxzoom,
        layer@.paint.len() == layer.paint@.len(),
        0 <= i < layer.paint@.len() ==> layer@.paint[i] == (
            layer.paint@[i].0@,
            layer.paint@[i].1.model(),
        ),
        style@.name == style.name@,
        style@.layers.len() == style.layers@.len(),
        0 <= i < style.layers@.len() ==> style@.layers[i] == style.layers@[i]@,
{
}

} // verus!
