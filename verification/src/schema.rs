//! The JSON Schema subset that the workspace records are checked against.
//!
//! Supported keywords: local `$ref`, `const`, `enum`, `type` (a name or a
//! list of names among array, boolean, integer, null, object, string),
//! `required`, `properties`, `additionalProperties: false`, `minItems`,
//! `maxItems`, `items`, integer `minimum`/`maximum`, and `pattern`, which
//! must match the whole string.
use vstd::prelude::*;

use crate::json::{
    as_bool, as_entries, as_i64, as_items, as_text, as_u64, clone_json, contains_json,
    entries_view, entry_index, field, items_view, json_eq, lemma_entries_view, lemma_items_view,
    json_nodes, node_count, pointer, Json, JsonV,
};
use crate::text::{decimal, push_decimal, push_str, string_of};

verus! {

broadcast use {crate::json::lemma_items_view, crate::json::lemma_entries_view};

/// Whether a regular expression (Rust `regex` syntax) compiles.
pub uninterp spec fn regex_compiles(pattern: Seq<char>) -> bool;

/// Whether a compiled regular expression matches somewhere in `text`.
pub uninterp spec fn regex_is_match(pattern: Seq<char>, text: Seq<char>) -> bool;

/// Compiles `pattern` with `regex::Regex::new` and, when it compiles, tests
/// it with `Regex::is_match` on `text`. The contract names both results:
/// `None` exactly when the pattern does not compile, else whether it matches.
#[verifier::external_body]
pub(crate) fn regex_match(pattern: &str, text: &str) -> (r: Option<bool>)
    ensures
        r is Some <==> regex_compiles(pattern@),
        r matches Some(b) ==> b == regex_is_match(pattern@, text@),
{
    match regex::Regex::new(pattern) {
        Ok(re) => Some(re.is_match(text)),
        Err(_) => None,
    }
}

/// Why a value does not conform to a schema.
#[derive(Debug)]
pub enum SchemaError {
    NotObject(String),
    NonLocalRef(String),
    UnresolvedRef(String),
    Const { location: String, expected: Json },
    NotInEnum { location: String, value: Json, values: Vec<Json> },
    WrongType(String),
    UnsupportedType(String),
    MissingFields { location: String, fields: Vec<String> },
    UnknownFields { location: String, fields: Vec<String> },
    TooFewItems(String),
    TooManyItems(String),
    BelowMinimum { location: String, minimum: i64 },
    AboveMaximum { location: String, maximum: i64 },
    UnsupportedPattern(String),
    NoMatch { location: String, pattern: String },
}

/// The mathematical form of a schema error.
pub enum SchemaFault {
    NotObject(Seq<char>),
    NonLocalRef(Seq<char>),
    UnresolvedRef(Seq<char>),
    Const(Seq<char>, JsonV),
    NotInEnum(Seq<char>, JsonV, Seq<JsonV>),
    WrongType(Seq<char>),
    UnsupportedType(Seq<char>),
    MissingFields(Seq<char>, Seq<Seq<char>>),
    UnknownFields(Seq<char>, Seq<Seq<char>>),
    TooFewItems(Seq<char>),
    TooManyItems(Seq<char>),
    BelowMinimum(Seq<char>, i64),
    AboveMaximum(Seq<char>, i64),
    UnsupportedPattern(Seq<char>),
    NoMatch(Seq<char>, Seq<char>),
}

/// The views of a list of strings.
pub open spec fn strings_view(v: Seq<String>) -> Seq<Seq<char>> {
    Seq::new(v.len(), |i: int| v[i]@)
}

impl View for SchemaError {
    type V = SchemaFault;

    open spec fn view(&self) -> SchemaFault {
        match self {
            SchemaError::NotObject(l) => SchemaFault::NotObject(l@),
            SchemaError::NonLocalRef(r) => SchemaFault::NonLocalRef(r@),
            SchemaError::UnresolvedRef(r) => SchemaFault::UnresolvedRef(r@),
            SchemaError::Const { location, expected } => SchemaFault::Const(location@, expected@),
            SchemaError::NotInEnum { location, value, values } => SchemaFault::NotInEnum(
                location@,
                value@,
                items_view(values@),
            ),
            SchemaError::WrongType(l) => SchemaFault::WrongType(l@),
            SchemaError::UnsupportedType(t) => SchemaFault::UnsupportedType(t@),
            SchemaError::MissingFields { location, fields } => SchemaFault::MissingFields(
                location@,
                strings_view(fields@),
            ),
            SchemaError::UnknownFields { location, fields } => SchemaFault::UnknownFields(
                location@,
                strings_view(fields@),
            ),
            SchemaError::TooFewItems(l) => SchemaFault::TooFewItems(l@),
            SchemaError::TooManyItems(l) => SchemaFault::TooManyItems(l@),
            SchemaError::BelowMinimum { location, minimum } => SchemaFault::BelowMinimum(
                location@,
                *minimum,
            ),
            SchemaError::AboveMaximum { location, maximum } => SchemaFault::AboveMaximum(
                location@,
                *maximum,
            ),
            SchemaError::UnsupportedPattern(p) => SchemaFault::UnsupportedPattern(p@),
            SchemaError::NoMatch { location, pattern } => SchemaFault::NoMatch(location@, pattern@),
        }
    }
}

/// The result of checking a value against a schema: it passes, it fails, or
/// the checks would follow `$ref`s without end.
pub enum Outcome {
    Pass,
    Fail(SchemaFault),
    Diverge,
}

/// Whether `v` has the JSON type `name` (`None` for unsupported names).
pub open spec fn has_type(v: JsonV, name: Seq<char>) -> Option<bool> {
    if name == "array"@ {
        Some(v is Array)
    } else if name == "boolean"@ {
        Some(v is Bool)
    } else if name == "integer"@ {
        Some(v is UInt || v is NegInt)
    } else if name == "null"@ {
        Some(v is Null)
    } else if name == "object"@ {
        Some(v is Object)
    } else if name == "string"@ {
        Some(v is Str)
    } else {
        None
    }
}

/// Whether `v` matches a `type` keyword: one name (an unsupported name is an
/// error), or a list of names of which one matches (unsupported names in a
/// list never match); any other keyword value matches nothing.
pub open spec fn type_matches(v: JsonV, types: JsonV) -> Result<bool, Seq<char>> {
    match types {
        JsonV::Str(name) => match has_type(v, name) {
            Some(b) => Ok(b),
            None => Err(name),
        },
        JsonV::Array(items) => Ok(
            exists|i: int|
                0 <= i < items.len() && #[trigger] as_text(items[i]) is Some && has_type(
                    v,
                    as_text(items[i])->0,
                ) == Some(true),
        ),
        _ => Ok(false),
    }
}

/// The object has an entry with key `k`.
pub open spec fn has_key(entries: Seq<(Seq<char>, JsonV)>, k: Seq<char>) -> bool {
    entry_index(entries, k) is Some
}

/// The required names (strings among `required`) that the object lacks.
pub open spec fn missing_fields(required: Seq<JsonV>, entries: Seq<(Seq<char>, JsonV)>) -> Seq<
    Seq<char>,
>
    decreases required.len(),
{
    if required.len() == 0 {
        Seq::empty()
    } else {
        let rest = missing_fields(required.drop_last(), entries);
        match as_text(required.last()) {
            Some(name) => if has_key(entries, name) {
                rest
            } else {
                rest.push(name)
            },
            None => rest,
        }
    }
}

/// The keys of the object that `properties` does not declare.
pub open spec fn unknown_keys(
    entries: Seq<(Seq<char>, JsonV)>,
    properties: Option<Seq<(Seq<char>, JsonV)>>,
) -> Seq<Seq<char>>
    decreases entries.len(),
{
    if entries.len() == 0 {
        Seq::empty()
    } else {
        let rest = unknown_keys(entries.drop_last(), properties);
        let k = entries.last().0;
        let known = match properties {
            Some(p) => has_key(p, k),
            None => false,
        };
        if known {
            rest
        } else {
            rest.push(k)
        }
    }
}

/// The pattern that must match a whole string.
pub open spec fn anchored(pattern: Seq<char>) -> Seq<char> {
    "^(?:"@ + pattern + ")$"@
}

/// The location of a child value.
pub open spec fn key_location(location: Seq<char>, key: Seq<char>) -> Seq<char> {
    location + "."@ + key
}

/// The location of an array item.
pub open spec fn index_location(location: Seq<char>, i: nat) -> Seq<char> {
    location + "["@ + decimal(i) + "]"@
}

/// The checks of a schema node that follow the keywords for objects: array
/// bounds and items, integer bounds, and the string pattern.
pub open spec fn after_object(
    v: JsonV,
    s: JsonV,
    root: JsonV,
    location: Seq<char>,
    fuel: nat,
) -> Outcome
    decreases fuel, v, 2int, 0int,
{
    match as_items(v) {
        Some(items) => {
            let min = match field(s, "minItems"@) {
                Some(m) => match as_u64(m) {
                    Some(n) => n as int,
                    None => 0,
                },
                None => 0,
            };
            let max = match field(s, "maxItems"@) {
                Some(m) => as_u64(m),
                None => None,
            };
            if items.len() < min {
                Outcome::Fail(SchemaFault::TooFewItems(location))
            } else if max is Some && items.len() > max->0 {
                Outcome::Fail(SchemaFault::TooManyItems(location))
            } else {
                match field(s, "items"@) {
                    Some(item_schema) => match items_outcome(
                        v,
                        item_schema,
                        root,
                        location,
                        fuel,
                        items.len() as int,
                    ) {
                        Outcome::Pass => scalar_outcome(v, s, location),
                        other => other,
                    },
                    None => scalar_outcome(v, s, location),
                }
            }
        },
        None => scalar_outcome(v, s, location),
    }
}

/// The integer bounds and the string pattern of a schema node.
pub open spec fn scalar_outcome(v: JsonV, s: JsonV, location: Seq<char>) -> Outcome {
    let min = match field(s, "minimum"@) {
        Some(m) => as_i64(m),
        None => None,
    };
    let max = match field(s, "maximum"@) {
        Some(m) => as_i64(m),
        None => None,
    };
    let pattern = match field(s, "pattern"@) {
        Some(p) => as_text(p),
        None => None,
    };
    if as_i64(v) is Some && min is Some && as_i64(v)->0 < min->0 {
        Outcome::Fail(SchemaFault::BelowMinimum(location, min->0))
    } else if as_i64(v) is Some && max is Some && as_i64(v)->0 > max->0 {
        Outcome::Fail(SchemaFault::AboveMaximum(location, max->0))
    } else if as_text(v) is Some && pattern is Some {
        if !regex_compiles(anchored(pattern->0)) {
            Outcome::Fail(SchemaFault::UnsupportedPattern(pattern->0))
        } else if !regex_is_match(anchored(pattern->0), as_text(v)->0) {
            Outcome::Fail(SchemaFault::NoMatch(location, pattern->0))
        } else {
            Outcome::Pass
        }
    } else {
        Outcome::Pass
    }
}

/// The first `k` items of array `v` against the item schema.
pub open spec fn items_outcome(
    v: JsonV,
    item_schema: JsonV,
    root: JsonV,
    location: Seq<char>,
    fuel: nat,
    k: int,
) -> Outcome
    decreases fuel, v, 1int, k,
{
    match v {
        JsonV::Array(items) => if k <= 0 || k > items.len() {
            Outcome::Pass
        } else {
            match items_outcome(v, item_schema, root, location, fuel, k - 1) {
                Outcome::Pass => {
                    proof {
                        assert(decreases_to!(v => items));
                        assert(decreases_to!(items => items[k - 1]));
                    }
                    schema_outcome(
                        items[k - 1],
                        item_schema,
                        root,
                        index_location(location, (k - 1) as nat),
                        fuel,
                    )
                },
                other => other,
            }
        },
        _ => Outcome::Pass,
    }
}

/// The first `k` entries of object `v` against their declared properties.
pub open spec fn props_outcome(
    v: JsonV,
    properties: JsonV,
    root: JsonV,
    location: Seq<char>,
    fuel: nat,
    k: int,
) -> Outcome
    decreases fuel, v, 1int, k,
{
    match v {
        JsonV::Object(entries) => if k <= 0 || k > entries.len() {
            Outcome::Pass
        } else {
            match props_outcome(v, properties, root, location, fuel, k - 1) {
                Outcome::Pass => match field(properties, entries[k - 1].0) {
                    Some(child_schema) => {
                        proof {
                            assert(decreases_to!(v => entries));
                            assert(decreases_to!(entries => entries[k - 1]));
                            assert(decreases_to!(entries[k - 1] => entries[k - 1].1));
                        }
                        schema_outcome(
                            entries[k - 1].1,
                            child_schema,
                            root,
                            key_location(location, entries[k - 1].0),
                            fuel,
                        )
                    },
                    None => Outcome::Pass,
                },
                other => other,
            }
        },
        _ => Outcome::Pass,
    }
}

/// The keywords of a schema node that concern objects, then the rest.
pub open spec fn object_outcome(
    v: JsonV,
    s: JsonV,
    root: JsonV,
    location: Seq<char>,
    fuel: nat,
) -> Outcome
    decreases fuel, v, 3int, 0int,
{
    match as_entries(v) {
        Some(entries) => {
            let required = match field(s, "required"@) {
                Some(r) => as_items(r),
                None => None,
            };
            let properties = match field(s, "properties"@) {
                Some(p) => as_entries(p),
                None => None,
            };
            let missing = match required {
                Some(r) => missing_fields(r, entries),
                None => Seq::empty(),
            };
            let closed = field(s, "additionalProperties"@) == Some(JsonV::Bool(false));
            if missing.len() > 0 {
                Outcome::Fail(SchemaFault::MissingFields(location, missing))
            } else if closed && unknown_keys(entries, properties).len() > 0 {
                Outcome::Fail(SchemaFault::UnknownFields(location, unknown_keys(entries, properties)))
            } else if properties is Some {
                match props_outcome(
                    v,
                    field(s, "properties"@)->0,
                    root,
                    location,
                    fuel,
                    entries.len() as int,
                ) {
                    Outcome::Pass => after_object(v, s, root, location, fuel),
                    other => other,
                }
            } else {
                after_object(v, s, root, location, fuel)
            }
        },
        None => after_object(v, s, root, location, fuel),
    }
}

/// Checks value `v` against schema node `s` of the schema `root`, following
/// at most `fuel` nested `$ref`s on any path.
pub open spec fn schema_outcome(
    v: JsonV,
    s: JsonV,
    root: JsonV,
    location: Seq<char>,
    fuel: nat,
) -> Outcome
    decreases fuel, v, 4int, 0int,
{
    if as_entries(s) is None {
        Outcome::Fail(SchemaFault::NotObject(location))
    } else {
        let reference = match field(s, "$ref"@) {
            Some(r) => as_text(r),
            None => None,
        };
        match reference {
            Some(r) => if !(r.len() > 0 && r[0] == '#') {
                Outcome::Fail(SchemaFault::NonLocalRef(r))
            } else {
                match pointer(root, r.drop_first()) {
                    None => Outcome::Fail(SchemaFault::UnresolvedRef(r)),
                    Some(target) => if fuel == 0 {
                        Outcome::Diverge
                    } else {
                        schema_outcome(v, target, root, location, (fuel - 1) as nat)
                    },
                }
            },
            None => {
                let enum_values = match field(s, "enum"@) {
                    Some(e) => as_items(e),
                    None => None,
                };
                if field(s, "const"@) is Some && v != field(s, "const"@)->0 {
                    Outcome::Fail(SchemaFault::Const(location, field(s, "const"@)->0))
                } else if enum_values is Some && !enum_values->0.contains(v) {
                    Outcome::Fail(SchemaFault::NotInEnum(location, v, enum_values->0))
                } else if field(s, "type"@) is Some && type_matches(v, field(s, "type"@)->0) is Err {
                    Outcome::Fail(
                        SchemaFault::UnsupportedType(type_matches(v, field(s, "type"@)->0)->Err_0),
                    )
                } else if field(s, "type"@) is Some && type_matches(v, field(s, "type"@)->0)
                    == Ok::<bool, Seq<char>>(false) {
                    Outcome::Fail(SchemaFault::WrongType(location))
                } else {
                    object_outcome(v, s, root, location, fuel)
                }
            },
        }
    }
}


/// Whether the result of a check is the outcome: `None` for `Diverge`.
pub open spec fn agrees(r: Option<Result<(), SchemaError>>, o: Outcome) -> bool {
    match o {
        Outcome::Pass => r == Some(Ok::<(), SchemaError>(())),
        Outcome::Fail(f) => (r matches Some(Err(e)) && e@ == f),
        Outcome::Diverge => r is None,
    }
}

/// How many nested `$ref` steps the checks of `value` against a schema node
/// of `root` may follow on one path. Each step leads to a node of `root`;
/// between two steps into nested values, a path that reached the same node
/// twice with the same value would repeat itself for ever (a `$ref` cycle).
/// A path that ends therefore takes at most one step per node of `root` at
/// each of the at most `node_count(value)` nesting levels of the value, fewer
/// than this bound (for documents of up to `NODE_CAP` nodes).
pub open spec fn ref_fuel(value: JsonV, root: JsonV) -> nat {
    (node_count(value) + 1) * (node_count(root) + 1)
}

/// `ref_fuel` of a value and a schema document.
pub fn ref_fuel_of(value: &Json, root: &Json) -> (r: u64)
    ensures
        r == ref_fuel(value@, root@),
{
    let a = json_nodes(value);
    let b = json_nodes(root);
    assert((a + 1) * (b + 1) <= 0xFFFF_FFFFu64 * 0xFFFF_FFFFu64) by (nonlinear_arith)
        requires
            a <= 0xFFFF_FFFEu64,
            b <= 0xFFFF_FFFEu64,
    ;
    (a + 1) * (b + 1)
}

/// Once the items check fails or diverges at item `k`, later items change nothing.
proof fn lemma_items_settled(
    v: JsonV,
    item_schema: JsonV,
    root: JsonV,
    location: Seq<char>,
    fuel: nat,
    k: int,
    n: int,
)
    requires
        v is Array,
        0 < k <= n <= v->Array_0.len(),
        items_outcome(v, item_schema, root, location, fuel, k) != Outcome::Pass,
    ensures
        items_outcome(v, item_schema, root, location, fuel, n) == items_outcome(
            v,
            item_schema,
            root,
            location,
            fuel,
            k,
        ),
    decreases n - k,
{
    if n > k {
        lemma_items_settled(v, item_schema, root, location, fuel, k, n - 1);
    }
}

/// Once the properties check fails or diverges at entry `k`, later entries change nothing.
proof fn lemma_props_settled(
    v: JsonV,
    properties: JsonV,
    root: JsonV,
    location: Seq<char>,
    fuel: nat,
    k: int,
    n: int,
)
    requires
        v is Object,
        0 < k <= n <= v->Object_0.len(),
        props_outcome(v, properties, root, location, fuel, k) != Outcome::Pass,
    ensures
        props_outcome(v, properties, root, location, fuel, n) == props_outcome(
            v,
            properties,
            root,
            location,
            fuel,
            k,
        ),
    decreases n - k,
{
    if n > k {
        lemma_props_settled(v, properties, root, location, fuel, k, n - 1);
    }
}

/// `value_has_type`: the JSON type test, `None` for unsupported names.
pub fn value_has_type(value: &Json, expected: &str) -> (r: Option<bool>)
    ensures
        r == has_type(value@, expected@),
{
    let is_array = match value {
        Json::Array(_) => true,
        _ => false,
    };
    let is_bool = match value {
        Json::Bool(_) => true,
        _ => false,
    };
    let is_int = match value {
        Json::UInt(_) => true,
        Json::NegInt(_) => true,
        _ => false,
    };
    let is_null = match value {
        Json::Null => true,
        _ => false,
    };
    let is_object = match value {
        Json::Object(_) => true,
        _ => false,
    };
    let is_string = match value {
        Json::Str(_) => true,
        _ => false,
    };
    if crate::text::same_text(expected, "array") {
        Some(is_array)
    } else if crate::text::same_text(expected, "boolean") {
        Some(is_bool)
    } else if crate::text::same_text(expected, "integer") {
        Some(is_int)
    } else if crate::text::same_text(expected, "null") {
        Some(is_null)
    } else if crate::text::same_text(expected, "object") {
        Some(is_object)
    } else if crate::text::same_text(expected, "string") {
        Some(is_string)
    } else {
        None
    }
}

/// A copy of a list of values.
fn clone_items(items: &Vec<Json>) -> (r: Vec<Json>)
    ensures
        items_view(r@) == items_view(items@),
{
    let mut out: Vec<Json> = Vec::new();
    let mut i: usize = 0;
    while i < items.len()
        invariant
            i <= items@.len(),
            out@.len() == i,
            forall|t: int| 0 <= t < i ==> #[trigger] out@[t]@ == items@[t]@,
        decreases items@.len() - i,
    {
        let c = clone_json(&items[i]);
        out.push(c);
        i = i + 1;
    }
    proof {
        lemma_items_view(out@);
        lemma_items_view(items@);
        assert(items_view(out@) =~= items_view(items@));
    }
    out
}

/// `location.key`.
fn child_location(location: &str, key: &str) -> (r: String)
    ensures
        r@ == key_location(location@, key@),
{
    let mut r = string_of(location);
    push_str(&mut r, ".");
    push_str(&mut r, key);
    r
}

/// `location[index]`.
fn item_location(location: &str, index: usize) -> (r: String)
    ensures
        r@ == index_location(location@, index as nat),
{
    let mut r = string_of(location);
    push_str(&mut r, "[");
    push_decimal(&mut r, index as u128);
    push_str(&mut r, "]");
    r
}

/// Whether `value` matches the `type` keyword `types`.
#[verifier::loop_isolation(false)]
fn check_type(value: &Json, types: &Json) -> (r: Result<bool, String>)
    ensures
        match type_matches(value@, types@) {
            Ok(b) => r == Ok::<bool, String>(b),
            Err(name) => (r matches Err(n) && n@ == name),
        },
{
    match types {
        Json::Str(name) => match value_has_type(value, name.as_str()) {
            Some(b) => Ok(b),
            None => Err(string_of(name.as_str())),
        },
        Json::Array(list) => {
            proof {
                lemma_items_view(list@);
            }
            let ghost lv = items_view(list@);
            assert(types@ == JsonV::Array(lv));
            let mut i: usize = 0;
            while i < list.len()
                invariant
                    i <= list@.len(),
                    lv == items_view(list@),
                    lv.len() == list@.len(),
                    forall|t: int| 0 <= t < list@.len() ==> #[trigger] lv[t] == list@[t]@,
                    forall|t: int|
                        0 <= t < i ==> !(#[trigger] as_text(lv[t]) is Some && has_type(
                            value@,
                            as_text(lv[t])->0,
                        ) == Some(true)),
                decreases list@.len() - i,
            {
                if let Some(name) = list[i].as_str() {
                    if value_has_type(value, name) == Some(true) {
                        assert(lv[i as int] == list@[i as int]@);
                        assert(as_text(lv[i as int]) is Some && has_type(
                            value@,
                            as_text(lv[i as int])->0,
                        ) == Some(true));
                        return Ok(true);
                    }
                }
                assert(lv[i as int] == list@[i as int]@);
                i = i + 1;
            }
            Ok(false)
        },
        _ => Ok(false),
    }
}

/// The names among `required` that the object `value` lacks.
fn missing_of(required: &Vec<Json>, value: &Json) -> (r: Vec<String>)
    requires
        value@ is Object,
    ensures
        strings_view(r@) == missing_fields(items_view(required@), value@->Object_0),
{
    proof {
        lemma_items_view(required@);
    }
    let ghost rv = items_view(required@);
    let ghost ev = value@->Object_0;
    let mut out: Vec<String> = Vec::new();
    let mut i: usize = 0;
    while i < required.len()
        invariant
            i <= required@.len(),
            rv == items_view(required@),
            rv.len() == required@.len(),
            forall|t: int| 0 <= t < required@.len() ==> #[trigger] rv[t] == required@[t]@,
            value@ == JsonV::Object(ev),
            strings_view(out@) == missing_fields(rv.subrange(0, i as int), ev),
        decreases required@.len() - i,
    {
        proof {
            assert(rv.subrange(0, i + 1).drop_last() =~= rv.subrange(0, i as int));
        }
        let ghost before = out@;
        if let Some(name) = required[i].as_str() {
            if value.get(name).is_none() {
                out.push(string_of(name));
                assert(strings_view(out@) =~= strings_view(before).push(name@));
            }
        }
        i = i + 1;
    }
    assert(rv.subrange(0, required@.len() as int) =~= rv);
    out
}

/// The keys of the object `value` that `properties` does not declare.
fn unknown_of(entries: &Vec<(String, Json)>, properties: Option<&Json>) -> (r: Vec<String>)
    requires
        properties matches Some(p) ==> p@ is Object,
    ensures
        strings_view(r@) == unknown_keys(
            entries_view(entries@),
            match properties {
                Some(p) => as_entries(p@),
                None => None,
            },
        ),
{
    proof {
        lemma_entries_view(entries@);
    }
    let ghost ev = entries_view(entries@);
    let ghost pv = match properties {
        Some(p) => as_entries(p@),
        None => None,
    };
    let mut out: Vec<String> = Vec::new();
    let mut i: usize = 0;
    while i < entries.len()
        invariant
            i <= entries@.len(),
            ev == entries_view(entries@),
            ev.len() == entries@.len(),
            forall|t: int|
                0 <= t < entries@.len() ==> #[trigger] ev[t] == (entries@[t].0@, entries@[t].1@),
            pv == match properties {
                Some(p) => as_entries(p@),
                None => None,
            },
            properties matches Some(p) ==> p@ is Object,
            strings_view(out@) == unknown_keys(ev.subrange(0, i as int), pv),
        decreases entries@.len() - i,
    {
        proof {
            assert(ev.subrange(0, i + 1).drop_last() =~= ev.subrange(0, i as int));
        }
        let ghost before = out@;
        let known = match properties {
            Some(p) => p.get(entries[i].0.as_str()).is_some(),
            None => false,
        };
        if !known {
            out.push(string_of(entries[i].0.as_str()));
            assert(strings_view(out@) =~= strings_view(before).push(entries@[i as int].0@));
        }
        i = i + 1;
    }
    assert(ev.subrange(0, entries@.len() as int) =~= ev);
    out
}

/// The integer bounds and the string pattern.
fn check_scalar(value: &Json, schema: &Json, location: &str) -> (r: Result<(), SchemaError>)
    ensures
        agrees(Some(r), scalar_outcome(value@, schema@, location@)),
{
    let minimum = match schema.get("minimum") {
        Some(m) => m.as_i64(),
        None => None,
    };
    let maximum = match schema.get("maximum") {
        Some(m) => m.as_i64(),
        None => None,
    };
    if let Some(number) = value.as_i64() {
        if let Some(min) = minimum {
            if number < min {
                return Err(SchemaError::BelowMinimum { location: string_of(location), minimum: min });
            }
        }
        if let Some(max) = maximum {
            if number > max {
                return Err(SchemaError::AboveMaximum { location: string_of(location), maximum: max });
            }
        }
    }
    let pattern = match schema.get("pattern") {
        Some(p) => p.as_str(),
        None => None,
    };
    if let Some(text) = value.as_str() {
        if let Some(p) = pattern {
            let mut whole = string_of("^(?:");
            push_str(&mut whole, p);
            push_str(&mut whole, ")$");
            assert(whole@ == anchored(p@));
            match regex_match(whole.as_str(), text) {
                None => {
                    return Err(SchemaError::UnsupportedPattern(string_of(p)));
                },
                Some(false) => {
                    return Err(
                        SchemaError::NoMatch { location: string_of(location), pattern: string_of(p) },
                    );
                },
                Some(true) => {},
            }
        }
    }
    Ok(())
}

/// The array keywords, then the scalar ones.
#[verifier::loop_isolation(false)]
fn check_after_object(
    value: &Json,
    schema: &Json,
    root: &Json,
    location: &str,
    fuel: u64,
) -> (r: Option<Result<(), SchemaError>>)
    ensures
        agrees(r, after_object(value@, schema@, root@, location@, fuel as nat)),
    decreases fuel, *value, 2int,
{
    match value {
        Json::Array(items) => {
            proof {
                lemma_items_view(items@);
            }
            let ghost iv = items_view(items@);
            assert(value@ == JsonV::Array(iv));
            let minimum: u64 = match schema.get("minItems") {
                Some(m) => match m.as_u64() {
                    Some(n) => n,
                    None => 0,
                },
                None => 0,
            };
            let maximum = match schema.get("maxItems") {
                Some(m) => m.as_u64(),
                None => None,
            };
            if (items.len() as u64) < minimum {
                return Some(Err(SchemaError::TooFewItems(string_of(location))));
            }
            if let Some(max) = maximum {
                if (items.len() as u64) > max {
                    return Some(Err(SchemaError::TooManyItems(string_of(location))));
                }
            }
            if let Some(item_schema) = schema.get("items") {
                let mut i: usize = 0;
                while i < items.len()
                    invariant
                        i <= items@.len(),
                        *value == Json::Array(*items),
                        iv == items_view(items@),
                        iv.len() == items@.len(),
                        value@ == JsonV::Array(iv),
                        forall|t: int| 0 <= t < items@.len() ==> #[trigger] iv[t] == items@[t]@,
                        items_outcome(value@, item_schema@, root@, location@, fuel as nat, i as int)
                            == Outcome::Pass,
                    decreases items@.len() - i,
                {
                    proof {
                        assert(decreases_to!(*value => *items));
                        assert(decreases_to!(*items => items@));
                        assert(decreases_to!(items@ => items@[i as int]));
                    }
                    let at = item_location(location, i);
                    let r = check(&items[i], item_schema, root, at.as_str(), fuel);
                    match r {
                        Some(Ok(())) => {},
                        _ => {
                            proof {
                                lemma_items_settled(
                                    value@,
                                    item_schema@,
                                    root@,
                                    location@,
                                    fuel as nat,
                                    i + 1,
                                    iv.len() as int,
                                );
                            }
                            return r;
                        },
                    }
                    i = i + 1;
                }
            }
            Some(check_scalar(value, schema, location))
        },
        _ => Some(check_scalar(value, schema, location)),
    }
}

/// The object keywords, then the rest.
#[verifier::loop_isolation(false)]
fn check_object(
    value: &Json,
    schema: &Json,
    root: &Json,
    location: &str,
    fuel: u64,
) -> (r: Option<Result<(), SchemaError>>)
    ensures
        agrees(r, object_outcome(value@, schema@, root@, location@, fuel as nat)),
    decreases fuel, *value, 3int,
{
    match value {
        Json::Object(entries) => {
            proof {
                lemma_entries_view(entries@);
            }
            let ghost ev = entries_view(entries@);
            assert(value@ == JsonV::Object(ev));
            let required = match schema.get("required") {
                Some(r) => r.as_array(),
                None => None,
            };
            let missing = match required {
                Some(list) => missing_of(list, value),
                None => Vec::new(),
            };
            if missing.len() > 0 {
                return Some(
                    Err(SchemaError::MissingFields { location: string_of(location), fields: missing }),
                );
            }
            let properties = match schema.get("properties") {
                Some(p) => match p {
                    Json::Object(_) => Some(p),
                    _ => None,
                },
                None => None,
            };
            let closed = match schema.get("additionalProperties") {
                Some(a) => match a {
                    Json::Bool(b) => !*b,
                    _ => false,
                },
                None => false,
            };
            if closed {
                let unknown = unknown_of(entries, properties);
                if unknown.len() > 0 {
                    return Some(
                        Err(
                            SchemaError::UnknownFields {
                                location: string_of(location),
                                fields: unknown,
                            },
                        ),
                    );
                }
            }
            if let Some(props) = properties {
                let mut i: usize = 0;
                while i < entries.len()
                    invariant
                        i <= entries@.len(),
                        *value == Json::Object(*entries),
                        ev == entries_view(entries@),
                        ev.len() == entries@.len(),
                        value@ == JsonV::Object(ev),
                        forall|t: int|
                            0 <= t < entries@.len() ==> #[trigger] ev[t] == (
                                entries@[t].0@,
                                entries@[t].1@,
                            ),
                        props_outcome(value@, props@, root@, location@, fuel as nat, i as int)
                            == Outcome::Pass,
                    decreases entries@.len() - i,
                {
                    if let Some(child_schema) = props.get(entries[i].0.as_str()) {
                        proof {
                            assert(decreases_to!(*value => *entries));
                            assert(decreases_to!(*entries => entries@));
                            assert(decreases_to!(entries@ => entries@[i as int]));
                            assert(decreases_to!(entries@[i as int] => entries@[i as int].1));
                        }
                        let at = child_location(location, entries[i].0.as_str());
                        let r = check(&entries[i].1, child_schema, root, at.as_str(), fuel);
                        match r {
                            Some(Ok(())) => {},
                            _ => {
                                proof {
                                    lemma_props_settled(
                                        value@,
                                        props@,
                                        root@,
                                        location@,
                                        fuel as nat,
                                        i + 1,
                                        ev.len() as int,
                                    );
                                }
                                return r;
                            },
                        }
                    }
                    i = i + 1;
                }
            }
            check_after_object(value, schema, root, location, fuel)
        },
        _ => check_after_object(value, schema, root, location, fuel),
    }
}

/// Checks `value` against schema node `schema` of `root`, following at most
/// `fuel` nested `$ref`s on any path; `None` when a path needs more.
fn check(value: &Json, schema: &Json, root: &Json, location: &str, fuel: u64) -> (r: Option<
    Result<(), SchemaError>,
>)
    ensures
        agrees(r, schema_outcome(value@, schema@, root@, location@, fuel as nat)),
    decreases fuel, *value, 4int,
{
    match schema {
        Json::Object(_) => {},
        _ => {
            return Some(Err(SchemaError::NotObject(string_of(location))));
        },
    }
    let reference = match schema.get("$ref") {
        Some(r) => r.as_str(),
        None => None,
    };
    if let Some(r) = reference {
        match resolve_ref(root, r) {
            Err(e) => {
                return Some(Err(e));
            },
            Ok(target) => {
                if fuel == 0 {
                    return None;
                }
                return check(value, target, root, location, fuel - 1);
            },
        }
    }
    if let Some(expected) = schema.get("const") {
        if !json_eq(value, expected) {
            return Some(
                Err(SchemaError::Const { location: string_of(location), expected: clone_json(expected) }),
            );
        }
    }
    let values = match schema.get("enum") {
        Some(e) => e.as_array(),
        None => None,
    };
    if let Some(list) = values {
        if !contains_json(list, value) {
            return Some(
                Err(
                    SchemaError::NotInEnum {
                        location: string_of(location),
                        value: clone_json(value),
                        values: clone_items(list),
                    },
                ),
            );
        }
    }
    if let Some(types) = schema.get("type") {
        match check_type(value, types) {
            Err(name) => {
                return Some(Err(SchemaError::UnsupportedType(name)));
            },
            Ok(false) => {
                return Some(Err(SchemaError::WrongType(string_of(location))));
            },
            Ok(true) => {},
        }
    }
    check_object(value, schema, root, location, fuel)
}

/// Checks `value` against `schema` (a node of the schema document `root`),
/// reporting the first violation. The `$ref`s that the checks follow must
/// end within `ref_fuel` nested steps on every path, as they do wherever
/// they hold no cycle.
pub fn validate_schema(value: &Json, schema: &Json, root: &Json, location: &str) -> (r: Result<
    (),
    SchemaError,
>)
    requires
        !(schema_outcome(value@, schema@, root@, location@, ref_fuel(value@, root@)) is Diverge),
    ensures
        agrees(Some(r), schema_outcome(value@, schema@, root@, location@, ref_fuel(value@, root@))),
{
    let fuel = ref_fuel_of(value, root);
    match check(value, schema, root, location, fuel) {
        Some(r) => r,
        None => vstd::pervasive::unreached(),
    }
}

/// Checks first that the `$ref`s followed end within `ref_fuel` nested
/// steps (`None` when they do not: a `$ref` cycle), then validates as
/// `validate_schema`.
pub fn check_schema(value: &Json, schema: &Json, root: &Json, location: &str) -> (r: Option<
    Result<(), SchemaError>,
>)
    ensures
        agrees(r, schema_outcome(value@, schema@, root@, location@, ref_fuel(value@, root@))),
{
    let fuel = ref_fuel_of(value, root);
    match check(value, schema, root, location, fuel) {
        None => None,
        Some(_) => Some(validate_schema(value, schema, root, location)),
    }
}

/// `resolve_ref`: the node that a local reference `#<pointer>` names.
pub fn resolve_ref<'a>(root: &'a Json, reference: &str) -> (r: Result<&'a Json, SchemaError>)
    ensures
        !(reference@.len() > 0 && reference@[0] == '#') ==> (r matches Err(e) && e@
            == SchemaFault::NonLocalRef(reference@)),
        reference@.len() > 0 && reference@[0] == '#' ==> match pointer(
            root@,
            reference@.drop_first(),
        ) {
            Some(t) => (r matches Ok(x) && x@ == t),
            None => (r matches Err(e) && e@ == SchemaFault::UnresolvedRef(reference@)),
        },
{
    proof {
        reveal_strlit("#");
        assert("#"@ =~= seq!['#']);
        if reference@.len() > 0 {
            assert(reference@.subrange(0, 1) =~= seq![reference@[0]]);
        }
    }
    if !crate::text::starts_with(reference, "#") {
        return Err(SchemaError::NonLocalRef(string_of(reference)));
    }
    assert(reference@[0] == reference@.subrange(0, 1)[0]);
    let body = reference.substring_char(1, reference.unicode_len());
    assert(body@ == reference@.drop_first());
    match root.pointer(body) {
        None => Err(SchemaError::UnresolvedRef(string_of(reference))),
        Some(t) => Ok(t),
    }
}


/// More reference fuel never changes an outcome that did not diverge: the
/// bound on nested `$ref` steps only decides where checking gives up.
pub proof fn settled_outcome_keeps_with_more_fuel(
    v: JsonV,
    s: JsonV,
    root: JsonV,
    location: Seq<char>,
    f: nat,
    g: nat,
)
    requires
        f <= g,
        !(schema_outcome(v, s, root, location, f) is Diverge),
    ensures
        schema_outcome(v, s, root, location, g) == schema_outcome(v, s, root, location, f),
    decreases f, v, 4int, 0int,
{
    if as_entries(s) is Some {
        let reference = match field(s, "$ref"@) {
            Some(r) => as_text(r),
            None => None,
        };
        match reference {
            Some(r) => if r.len() > 0 && r[0] == '#' {
                match pointer(root, r.drop_first()) {
                    Some(target) => {
                        settled_outcome_keeps_with_more_fuel(v, target, root, location, (f - 1) as nat, (g - 1) as nat);
                    },
                    None => {},
                }
            },
            None => {
                if !(object_outcome(v, s, root, location, f) is Diverge) {
                    lemma_object_more_fuel(v, s, root, location, f, g);
                }
            },
        }
    }
}

proof fn lemma_object_more_fuel(v: JsonV, s: JsonV, root: JsonV, location: Seq<char>, f: nat, g: nat)
    requires
        f <= g,
        !(object_outcome(v, s, root, location, f) is Diverge),
    ensures
        object_outcome(v, s, root, location, g) == object_outcome(v, s, root, location, f),
    decreases f, v, 3int, 0int,
{
    match as_entries(v) {
        Some(entries) => {
            let properties = match field(s, "properties"@) {
                Some(p) => as_entries(p),
                None => None,
            };
            if properties is Some {
                let ps = field(s, "properties"@)->0;
                let n = entries.len() as int;
                if !(props_outcome(v, ps, root, location, f, n) is Diverge) {
                    lemma_props_more_fuel(v, ps, root, location, f, g, n);
                }
                if props_outcome(v, ps, root, location, f, n) is Pass {
                    lemma_after_more_fuel(v, s, root, location, f, g);
                }
            } else {
                lemma_after_more_fuel(v, s, root, location, f, g);
            }
        },
        None => {
            lemma_after_more_fuel(v, s, root, location, f, g);
        },
    }
}

proof fn lemma_after_more_fuel(v: JsonV, s: JsonV, root: JsonV, location: Seq<char>, f: nat, g: nat)
    requires
        f <= g,
        !(after_object(v, s, root, location, f) is Diverge),
    ensures
        after_object(v, s, root, location, g) == after_object(v, s, root, location, f),
    decreases f, v, 2int, 0int,
{
    match as_items(v) {
        Some(items) => match field(s, "items"@) {
            Some(item_schema) => {
                let n = items.len() as int;
                if !(items_outcome(v, item_schema, root, location, f, n) is Diverge) {
                    lemma_items_more_fuel(v, item_schema, root, location, f, g, n);
                }
            },
            None => {},
        },
        None => {},
    }
}

proof fn lemma_items_more_fuel(
    v: JsonV,
    item_schema: JsonV,
    root: JsonV,
    location: Seq<char>,
    f: nat,
    g: nat,
    k: int,
)
    requires
        f <= g,
        !(items_outcome(v, item_schema, root, location, f, k) is Diverge),
    ensures
        items_outcome(v, item_schema, root, location, g, k) == items_outcome(v, item_schema, root, location, f, k),
    decreases f, v, 1int, k,
{
    match v {
        JsonV::Array(items) => if 0 < k <= items.len() {
            if !(items_outcome(v, item_schema, root, location, f, k - 1) is Diverge) {
                lemma_items_more_fuel(v, item_schema, root, location, f, g, k - 1);
            }
            if items_outcome(v, item_schema, root, location, f, k - 1) is Pass {
                assert(decreases_to!(v => items));
                assert(decreases_to!(items => items[k - 1]));
                settled_outcome_keeps_with_more_fuel(
                    items[k - 1],
                    item_schema,
                    root,
                    index_location(location, (k - 1) as nat),
                    f,
                    g,
                );
            }
        },
        _ => {},
    }
}

proof fn lemma_props_more_fuel(
    v: JsonV,
    properties: JsonV,
    root: JsonV,
    location: Seq<char>,
    f: nat,
    g: nat,
    k: int,
)
    requires
        f <= g,
        !(props_outcome(v, properties, root, location, f, k) is Diverge),
    ensures
        props_outcome(v, properties, root, location, g, k) == props_outcome(v, properties, root, location, f, k),
    decreases f, v, 1int, k,
{
    match v {
        JsonV::Object(entries) => if 0 < k <= entries.len() {
            if !(props_outcome(v, properties, root, location, f, k - 1) is Diverge) {
                lemma_props_more_fuel(v, properties, root, location, f, g, k - 1);
            }
            if props_outcome(v, properties, root, location, f, k - 1) is Pass {
                match field(properties, entries[k - 1].0) {
                    Some(child_schema) => {
                        assert(decreases_to!(v => entries));
                        assert(decreases_to!(entries => entries[k - 1]));
                        assert(decreases_to!(entries[k - 1] => entries[k - 1].1));
                        settled_outcome_keeps_with_more_fuel(
                            entries[k - 1].1,
                            child_schema,
                            root,
                            key_location(location, entries[k - 1].0),
                            f,
                            g,
                        );
                    },
                    None => {},
                }
            }
        },
        _ => {},
    }
}

/// A schema node with a local `$ref` is checked as the node that the
/// reference names, whatever other keywords it has: wherever checking at
/// the target settles, checking at the node with the same fuel gives the
/// same outcome.
pub proof fn local_reference_is_its_target(
    v: JsonV,
    s: JsonV,
    root: JsonV,
    location: Seq<char>,
    r: Seq<char>,
    target: JsonV,
    fuel: nat,
)
    requires
        as_entries(s) is Some,
        field(s, "$ref"@) == Some(JsonV::Str(r)),
        r.len() > 0,
        r[0] == '#',
        pointer(root, r.drop_first()) == Some(target),
        fuel > 0,
        !(schema_outcome(v, target, root, location, (fuel - 1) as nat) is Diverge),
    ensures
        schema_outcome(v, s, root, location, fuel) == schema_outcome(v, target, root, location, fuel),
{
    settled_outcome_keeps_with_more_fuel(v, target, root, location, (fuel - 1) as nat, fuel);
}


/// What `validate_schema` gives for a schema node whose `$ref` is the text
/// `r`, whatever other keywords the node has: a reference that is not local
/// (`#...`) or names no node is refused; a local one is validated exactly
/// as the node it names, with the same bound on nested references.
pub proof fn validating_a_reference_validates_its_target(
    v: JsonV,
    s: JsonV,
    root: JsonV,
    location: Seq<char>,
    r: Seq<char>,
)
    requires
        as_entries(s) is Some,
        field(s, "$ref"@) == Some(JsonV::Str(r)),
        !(schema_outcome(v, s, root, location, ref_fuel(v, root)) is Diverge),
    ensures
        !(r.len() > 0 && r[0] == '#') ==> schema_outcome(v, s, root, location, ref_fuel(v, root))
            == Outcome::Fail(SchemaFault::NonLocalRef(r)),
        r.len() > 0 && r[0] == '#' && pointer(root, r.drop_first()) is None ==> schema_outcome(
            v,
            s,
            root,
            location,
            ref_fuel(v, root),
        ) == Outcome::Fail(SchemaFault::UnresolvedRef(r)),
        r.len() > 0 && r[0] == '#' && pointer(root, r.drop_first()) is Some ==> {
            let target = pointer(root, r.drop_first())->0;
            &&& !(schema_outcome(v, target, root, location, ref_fuel(v, root)) is Diverge)
            &&& schema_outcome(v, s, root, location, ref_fuel(v, root)) == schema_outcome(
                v,
                target,
                root,
                location,
                ref_fuel(v, root),
            )
        },
{
    let a = node_count(v);
    let b = node_count(root);
    assert((a + 1) * (b + 1) >= 1) by (nonlinear_arith);
    if r.len() > 0 && r[0] == '#' {
        match pointer(root, r.drop_first()) {
            Some(target) => {
                local_reference_is_its_target(v, s, root, location, r, target, ref_fuel(v, root));
            },
            None => {},
        }
    }
}


/// An array with more items than a schema node's `maxItems` never passes
/// that node (one without `$ref`); where nothing is checked before the item
/// count (no `const`, no `enum`, a `type` that holds, and at least
/// `minItems` items), it fails with `TooManyItems` at the value's location.
pub proof fn too_many_items_fail(v: JsonV, s: JsonV, root: JsonV, location: Seq<char>, fuel: nat)
    requires
        as_entries(s) is Some,
        field(s, "$ref"@) is None,
        as_items(v) is Some,
        field(s, "maxItems"@) is Some,
        as_u64(field(s, "maxItems"@)->0) is Some,
        as_items(v)->0.len() > as_u64(field(s, "maxItems"@)->0)->0,
    ensures
        !(schema_outcome(v, s, root, location, fuel) is Pass),
        (field(s, "const"@) is None && field(s, "enum"@) is None && (field(s, "type"@) is None
            || type_matches(v, field(s, "type"@)->0) == Ok::<bool, Seq<char>>(true)) && !(field(
            s,
            "minItems"@,
        ) is Some && as_u64(field(s, "minItems"@)->0) is Some && as_items(v)->0.len() < as_u64(
            field(s, "minItems"@)->0,
        )->0)) ==> schema_outcome(v, s, root, location, fuel) == Outcome::Fail(
            SchemaFault::TooManyItems(location),
        ),
{
    let items = as_items(v)->0;
    let max = as_u64(field(s, "maxItems"@)->0);
    assert(as_entries(v) is None);
    assert(object_outcome(v, s, root, location, fuel) == after_object(v, s, root, location, fuel));
    let min = match field(s, "minItems"@) {
        Some(m) => match as_u64(m) {
            Some(n) => n as int,
            None => 0,
        },
        None => 0,
    };
    if items.len() < min {
        assert(after_object(v, s, root, location, fuel) == Outcome::Fail(SchemaFault::TooFewItems(location)));
    } else {
        assert(after_object(v, s, root, location, fuel) == Outcome::Fail(SchemaFault::TooManyItems(location)));
    }
    assert(!(after_object(v, s, root, location, fuel) is Pass));
}


/// An array with fewer items than a schema node's `minItems` never passes
/// that node (one without `$ref`); with no `const`, no `enum` and a `type`
/// that holds, it fails with `TooFewItems` at the value's location.
pub proof fn too_few_items_fail(v: JsonV, s: JsonV, root: JsonV, location: Seq<char>, fuel: nat)
    requires
        as_entries(s) is Some,
        field(s, "$ref"@) is None,
        as_items(v) is Some,
        field(s, "minItems"@) is Some,
        as_u64(field(s, "minItems"@)->0) is Some,
        as_items(v)->0.len() < as_u64(field(s, "minItems"@)->0)->0,
    ensures
        !(schema_outcome(v, s, root, location, fuel) is Pass),
        (field(s, "const"@) is None && field(s, "enum"@) is None && (field(s, "type"@) is None
            || type_matches(v, field(s, "type"@)->0) == Ok::<bool, Seq<char>>(true)))
            ==> schema_outcome(v, s, root, location, fuel) == Outcome::Fail(
            SchemaFault::TooFewItems(location),
        ),
{
    assert(as_entries(v) is None);
    assert(object_outcome(v, s, root, location, fuel) == after_object(v, s, root, location, fuel));
    assert(after_object(v, s, root, location, fuel) == Outcome::Fail(SchemaFault::TooFewItems(location)));
}

} // verus!
