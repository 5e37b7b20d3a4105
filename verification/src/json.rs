//! JSON documents as plain values.
//!
//! The workspace records (`ccvl.json`, application records, schemas, skill
//! cases, model responses) are JSON. A document is held here as a tree of
//! plain values; object entries keep the order in which the parser gave them
//! (key order) and keys are unique. Numbers keep the distinction that the
//! rules draw: non-negative integers, negative integers, and other numbers,
//! which are held by the bits of their `f64` value and never inspected but
//! for equality, under which the two zeros are one number.
use vstd::prelude::*;

use crate::text::{all_digits, digits_value, is_prefix, push_char, string_of};

verus! {

/// A JSON value.
#[derive(Debug, PartialEq)]
pub enum Json {
    Null,
    Bool(bool),
    /// A non-negative integer.
    UInt(u64),
    /// A negative integer.
    NegInt(i64),
    /// Any other number, by the bits of its `f64` value.
    Float(u64),
    Str(String),
    Array(Vec<Json>),
    Object(Vec<(String, Json)>),
}

/// The mathematical form of a JSON value.
pub enum JsonV {
    Null,
    Bool(bool),
    UInt(u64),
    NegInt(i64),
    Float(u64),
    Str(Seq<char>),
    Array(Seq<JsonV>),
    Object(Seq<(Seq<char>, JsonV)>),
}

impl View for Json {
    type V = JsonV;

    open spec fn view(&self) -> JsonV {
        json_view(*self)
    }
}

/// The bits of the negative zero `f64`.
pub const NEGATIVE_ZERO: u64 = 0x8000_0000_0000_0000u64;

/// The number that the bits of an `f64` stand for, by its bits: the two
/// zeros are the one number 0, as JSON compares numbers.
pub open spec fn float_key(bits: u64) -> u64 {
    if bits == NEGATIVE_ZERO {
        0
    } else {
        bits
    }
}

/// Whether two `f64` values, by their bits, are the same number.
pub fn same_float(a: u64, b: u64) -> (r: bool)
    ensures
        r == (float_key(a) == float_key(b)),
{
    let x = if a == NEGATIVE_ZERO { 0 } else { a };
    let y = if b == NEGATIVE_ZERO { 0 } else { b };
    x == y
}

/// The mathematical form of a JSON value.
pub open spec fn json_view(j: Json) -> JsonV
    decreases j, 0int,
{
    match j {
        Json::Null => JsonV::Null,
        Json::Bool(b) => JsonV::Bool(b),
        Json::UInt(n) => JsonV::UInt(n),
        Json::NegInt(n) => JsonV::NegInt(n),
        Json::Float(b) => JsonV::Float(float_key(b)),
        Json::Str(s) => JsonV::Str(s@),
        Json::Array(items) => JsonV::Array(list_view(items@, items@.len() as int)),
        Json::Object(entries) => JsonV::Object(entry_list_view(entries@, entries@.len() as int)),
    }
}

/// The views of the first `n` values of a list.
pub open spec fn list_view(items: Seq<Json>, n: int) -> Seq<JsonV>
    decreases items, n,
{
    if n <= 0 || n > items.len() {
        Seq::empty()
    } else {
        list_view(items, n - 1).push(json_view(items[n - 1]))
    }
}

/// The views of the first `n` entries of an object.
pub open spec fn entry_list_view(entries: Seq<(String, Json)>, n: int) -> Seq<(Seq<char>, JsonV)>
    decreases entries, n,
{
    if n <= 0 || n > entries.len() {
        Seq::empty()
    } else {
        entry_list_view(entries, n - 1).push((entries[n - 1].0@, json_view(entries[n - 1].1)))
    }
}

/// The view of a list of values.
pub open spec fn items_view(items: Seq<Json>) -> Seq<JsonV> {
    list_view(items, items.len() as int)
}

/// The view of a list of object entries.
pub open spec fn entries_view(entries: Seq<(String, Json)>) -> Seq<(Seq<char>, JsonV)> {
    entry_list_view(entries, entries.len() as int)
}

/// The view of a list has one element per value, each its view.
pub proof fn lemma_list_view(items: Seq<Json>, n: int)
    requires
        0 <= n <= items.len(),
    ensures
        list_view(items, n).len() == n,
        forall|i: int| 0 <= i < n ==> #[trigger] list_view(items, n)[i] == items[i]@,
    decreases n,
{
    if n > 0 {
        lemma_list_view(items, n - 1);
    }
}

/// The view of an entry list has one element per entry.
pub proof fn lemma_entry_list_view(entries: Seq<(String, Json)>, n: int)
    requires
        0 <= n <= entries.len(),
    ensures
        entry_list_view(entries, n).len() == n,
        forall|i: int|
            0 <= i < n ==> #[trigger] entry_list_view(entries, n)[i] == (
                entries[i].0@,
                entries[i].1@,
            ),
    decreases n,
{
    if n > 0 {
        lemma_entry_list_view(entries, n - 1);
    }
}

/// Facts about the views of lists of values.
pub broadcast proof fn lemma_items_view(items: Seq<Json>)
    ensures
        #[trigger] items_view(items).len() == items.len(),
        forall|i: int| 0 <= i < items.len() ==> #[trigger] items_view(items)[i] == items[i]@,
{
    lemma_list_view(items, items.len() as int);
}

/// Facts about the views of entry lists.
pub broadcast proof fn lemma_entries_view(entries: Seq<(String, Json)>)
    ensures
        #[trigger] entries_view(entries).len() == entries.len(),
        forall|i: int|
            0 <= i < entries.len() ==> #[trigger] entries_view(entries)[i] == (
                entries[i].0@,
                entries[i].1@,
            ),
{
    lemma_entry_list_view(entries, entries.len() as int);
}

/// The index of the first entry with key `key`, if any.
pub open spec fn entry_index(entries: Seq<(Seq<char>, JsonV)>, key: Seq<char>) -> Option<int>
    decreases entries.len(),
{
    if entries.len() == 0 {
        None
    } else {
        match entry_index(entries.drop_last(), key) {
            Some(i) => Some(i),
            None => if entries.last().0 == key {
                Some(entries.len() - 1)
            } else {
                None
            },
        }
    }
}

/// The value of field `key` of an object.
pub open spec fn field(v: JsonV, key: Seq<char>) -> Option<JsonV> {
    match v {
        JsonV::Object(entries) => match entry_index(entries, key) {
            Some(i) => Some(entries[i].1),
            None => None,
        },
        _ => None,
    }
}

/// `Value::as_u64`.
pub open spec fn as_u64(v: JsonV) -> Option<u64> {
    match v {
        JsonV::UInt(n) => Some(n),
        _ => None,
    }
}

/// `Value::as_i64`.
pub open spec fn as_i64(v: JsonV) -> Option<i64> {
    match v {
        JsonV::UInt(n) => if n <= i64::MAX {
            Some(n as i64)
        } else {
            None
        },
        JsonV::NegInt(n) => Some(n),
        _ => None,
    }
}

/// `Value::as_bool`.
pub open spec fn as_bool(v: JsonV) -> Option<bool> {
    match v {
        JsonV::Bool(b) => Some(b),
        _ => None,
    }
}

/// `Value::as_str`.
pub open spec fn as_text(v: JsonV) -> Option<Seq<char>> {
    match v {
        JsonV::Str(s) => Some(s),
        _ => None,
    }
}

/// `Value::as_array`.
pub open spec fn as_items(v: JsonV) -> Option<Seq<JsonV>> {
    match v {
        JsonV::Array(items) => Some(items),
        _ => None,
    }
}

/// `Value::as_object`.
pub open spec fn as_entries(v: JsonV) -> Option<Seq<(Seq<char>, JsonV)>> {
    match v {
        JsonV::Object(entries) => Some(entries),
        _ => None,
    }
}

/// Replaces every non-overlapping occurrence of `pat` in `s`, left to right.
pub open spec fn replace_all(s: Seq<char>, pat: Seq<char>, rep: Seq<char>) -> Seq<char>
    decreases s.len(),
{
    if s.len() == 0 || pat.len() == 0 {
        s
    } else if is_prefix(pat, s) {
        rep + replace_all(s.subrange(pat.len() as int, s.len() as int), pat, rep)
    } else {
        seq![s[0]] + replace_all(s.drop_first(), pat, rep)
    }
}

/// A reference token with its escapes resolved: `~1` is `/`, then `~0` is `~`.
pub open spec fn unescape(token: Seq<char>) -> Seq<char> {
    replace_all(replace_all(token, seq!['~', '1'], seq!['/']), seq!['~', '0'], seq!['~'])
}

/// An array index in a JSON pointer: digits without a sign or a leading zero.
pub open spec fn pointer_index(token: Seq<char>) -> Option<nat> {
    if all_digits(token) && (token[0] != '0' || token.len() == 1) && digits_value(token)
        <= usize::MAX {
        Some(digits_value(token))
    } else {
        None
    }
}

/// One step of a JSON pointer.
pub open spec fn step(v: JsonV, token: Seq<char>) -> Option<JsonV> {
    match v {
        JsonV::Object(entries) => field(v, unescape(token)),
        JsonV::Array(items) => match pointer_index(unescape(token)) {
            Some(i) => if i < items.len() {
                Some(items[i as int])
            } else {
                None
            },
            None => None,
        },
        _ => None,
    }
}

/// The `/`-separated tokens of a pointer's body.
pub open spec fn tokens(body: Seq<char>) -> Seq<Seq<char>>
    decreases body.len(),
{
    if body.len() == 0 {
        seq![Seq::<char>::empty()]
    } else {
        let t = tokens(body.drop_last());
        if body.last() == '/' {
            t.push(Seq::<char>::empty())
        } else {
            t.update(t.len() - 1, t.last().push(body.last()))
        }
    }
}

/// Follows a sequence of tokens.
pub open spec fn walk(v: JsonV, toks: Seq<Seq<char>>) -> Option<JsonV>
    decreases toks.len(),
{
    if toks.len() == 0 {
        Some(v)
    } else {
        match walk(v, toks.drop_last()) {
            Some(w) => step(w, toks.last()),
            None => None,
        }
    }
}

/// `Value::pointer`: the empty pointer names the value itself; any other
/// pointer starts with `/` and names a path of object keys and array indices.
pub open spec fn pointer(v: JsonV, p: Seq<char>) -> Option<JsonV> {
    if p.len() == 0 {
        Some(v)
    } else if p[0] != '/' {
        None
    } else {
        walk(v, tokens(p.drop_first()))
    }
}

impl Json {
    /// The field `key` of an object, `None` for other values.
    pub fn get(&self, key: &str) -> (r: Option<&Json>)
        ensures
            r matches Some(x) ==> field(self@, key@) == Some(x@),
            r is None ==> field(self@, key@) is None,
    {
        match self {
            Json::Object(entries) => {
                let ghost ev = entries_view(entries@);
                proof {
                    lemma_entries_view(entries@);
                }
                assert(self@ == JsonV::Object(ev));
                let mut i: usize = 0;
                while i < entries.len()
                    invariant
                        i <= entries@.len(),
                        ev == entries_view(entries@),
                        self@ == JsonV::Object(ev),
                        ev.len() == entries@.len(),
                        forall|j: int| 0 <= j < ev.len() ==> #[trigger] ev[j] == (entries@[j].0@, entries@[j].1@),
                        entry_index(ev.subrange(0, i as int), key@) is None,
                    decreases entries@.len() - i,
                {
                    proof {
                        let p = ev.subrange(0, i + 1);
                        assert(p.drop_last() =~= ev.subrange(0, i as int));
                    }
                    if crate::text::same_text(entries[i].0.as_str(), key) {
                        proof {
                            lemma_entry_index_prefix(ev, i as int + 1, key@);
                            assert(self@ == JsonV::Object(ev));
                            assert(field(self@, key@) == Some(ev[i as int].1));
                        }
                        return Some(&entries[i].1);
                    }
                    i = i + 1;
                }
                assert(ev.subrange(0, entries@.len() as int) =~= ev);
                None
            },
            _ => None,
        }
    }

    /// `Value::as_u64`.
    pub fn as_u64(&self) -> (r: Option<u64>)
        ensures
            r == as_u64(self@),
    {
        match self {
            Json::UInt(n) => Some(*n),
            _ => None,
        }
    }

    /// `Value::as_i64`.
    pub fn as_i64(&self) -> (r: Option<i64>)
        ensures
            r == as_i64(self@),
    {
        match self {
            Json::UInt(n) => if *n <= 0x7fff_ffff_ffff_ffffu64 {
                Some(*n as i64)
            } else {
                None
            },
            Json::NegInt(n) => Some(*n),
            _ => None,
        }
    }

    /// `Value::as_bool`.
    pub fn as_bool(&self) -> (r: Option<bool>)
        ensures
            r == as_bool(self@),
    {
        match self {
            Json::Bool(b) => Some(*b),
            _ => None,
        }
    }

    /// `Value::as_str`.
    pub fn as_str(&self) -> (r: Option<&str>)
        ensures
            r matches Some(s) ==> as_text(self@) == Some(s@),
            r is None ==> as_text(self@) is None,
    {
        match self {
            Json::Str(s) => Some(s.as_str()),
            _ => None,
        }
    }

    /// `Value::as_array`.
    pub fn as_array(&self) -> (r: Option<&Vec<Json>>)
        ensures
            r matches Some(items) ==> as_items(self@) == Some(items_view(items@)),
            r is None ==> as_items(self@) is None,
    {
        match self {
            Json::Array(items) => {
                Some(items)
            },
            _ => None,
        }
    }

    /// `Value::as_object`.
    pub fn as_object(&self) -> (r: Option<&Vec<(String, Json)>>)
        ensures
            r matches Some(entries) ==> as_entries(self@) == Some(entries_view(entries@)),
            r is None ==> as_entries(self@) is None,
    {
        match self {
            Json::Object(entries) => {
                Some(entries)
            },
            _ => None,
        }
    }
}

proof fn lemma_entry_index_prefix(ev: Seq<(Seq<char>, JsonV)>, k: int, key: Seq<char>)
    requires
        0 < k <= ev.len(),
        entry_index(ev.subrange(0, k - 1), key) is None,
        ev[k - 1].0 == key,
    ensures
        entry_index(ev, key) == Some(k - 1),
    decreases ev.len() - k,
{
    let p = ev.subrange(0, k);
    assert(p.drop_last() =~= ev.subrange(0, k - 1));
    assert(entry_index(p, key) == Some(k - 1));
    lemma_entry_index_extend(ev, k, key);
}

proof fn lemma_entry_index_extend(ev: Seq<(Seq<char>, JsonV)>, k: int, key: Seq<char>)
    requires
        0 <= k <= ev.len(),
        entry_index(ev.subrange(0, k), key) is Some,
    ensures
        entry_index(ev, key) == entry_index(ev.subrange(0, k), key),
    decreases ev.len() - k,
{
    if k < ev.len() {
        let p = ev.subrange(0, k + 1);
        assert(p.drop_last() =~= ev.subrange(0, k));
        lemma_entry_index_extend(ev, k + 1, key);
    } else {
        assert(ev.subrange(0, k) =~= ev);
    }
}

proof fn lemma_replace_step(s: Seq<char>, i: int, a: char, b: char, rep: char)
    requires
        0 <= i < s.len(),
    ensures
        (i + 1 < s.len() && s[i] == a && s[i + 1] == b) ==> replace_all(
            s.subrange(i, s.len() as int),
            seq![a, b],
            seq![rep],
        ) == seq![rep] + replace_all(s.subrange(i + 2, s.len() as int), seq![a, b], seq![rep]),
        !(i + 1 < s.len() && s[i] == a && s[i + 1] == b) ==> replace_all(
            s.subrange(i, s.len() as int),
            seq![a, b],
            seq![rep],
        ) == seq![s[i]] + replace_all(s.subrange(i + 1, s.len() as int), seq![a, b], seq![rep]),
{
    let t = s.subrange(i, s.len() as int);
    let pat = seq![a, b];
    if i + 1 < s.len() && s[i] == a && s[i + 1] == b {
        assert(t.subrange(0, 2) =~= pat);
        assert(t.subrange(2, t.len() as int) =~= s.subrange(i + 2, s.len() as int));
    } else {
        if is_prefix(pat, t) {
            assert(t.subrange(0, 2)[0] == t[0]);
            assert(t.subrange(0, 2)[1] == t[1]);
        }
        assert(t.drop_first() =~= s.subrange(i + 1, s.len() as int));
    }
}

/// Replaces every occurrence of the two characters `a b` in `s` by `rep`.
fn replace_pair(s: &str, a: char, b: char, rep: char) -> (r: String)
    ensures
        r@ == replace_all(s@, seq![a, b], seq![rep]),
{
    let n = s.unicode_len();
    let mut r = String::new();
    let mut i: usize = 0;
    assert(s@.subrange(0, n as int) =~= s@);
    while i < n
        invariant
            n == s@.len(),
            i <= n,
            r@ + replace_all(s@.subrange(i as int, n as int), seq![a, b], seq![rep])
                == replace_all(s@, seq![a, b], seq![rep]),
        decreases n - i,
    {
        proof {
            lemma_replace_step(s@, i as int, a, b, rep);
        }
        if i + 1 < n && s.get_char(i) == a && s.get_char(i + 1) == b {
            push_char(&mut r, rep);
            i = i + 2;
        } else {
            let c = s.get_char(i);
            push_char(&mut r, c);
            i = i + 1;
        }
    }
    assert(s@.subrange(n as int, n as int).len() == 0);
    assert(r@ + Seq::<char>::empty() =~= r@);
    r
}

/// A reference token with its escapes resolved.
pub fn unescape_token(token: &str) -> (r: String)
    ensures
        r@ == unescape(token@),
{
    let first = replace_pair(token, '~', '1', '/');
    replace_pair(first.as_str(), '~', '0', '~')
}

proof fn lemma_digits_monotone(s: Seq<char>, k: int)
    requires
        0 <= k <= s.len(),
    ensures
        digits_value(s.subrange(0, k)) <= digits_value(s),
    decreases s.len() - k,
{
    if k < s.len() {
        lemma_digits_monotone(s, k + 1);
        let p = s.subrange(0, k + 1);
        assert(p.drop_last() =~= s.subrange(0, k));
    } else {
        assert(s.subrange(0, k) =~= s);
    }
}

/// The array index that a reference token denotes, if any.
pub fn index_of_token(token: &str) -> (r: Option<usize>)
    ensures
        r matches Some(i) ==> pointer_index(token@) == Some(i as nat),
        r is None ==> pointer_index(token@) is None,
{
    let n = token.unicode_len();
    if n == 0 {
        return None;
    }
    if token.get_char(0) == '0' && n != 1 {
        return None;
    }
    let mut value: usize = 0;
    let mut i: usize = 0;
    assert(token@.subrange(0, 0).len() == 0);
    while i < n
        invariant
            n == token@.len(),
            i <= n,
            forall|j: int| 0 <= j < i ==> crate::text::is_digit(#[trigger] token@[j]),
            value == digits_value(token@.subrange(0, i as int)),
        decreases n - i,
    {
        let c = token.get_char(i);
        if !('0' <= c && c <= '9') {
            return None;
        }
        let d = (c as u32 - '0' as u32) as usize;
        proof {
            let p = token@.subrange(0, i + 1);
            assert(p.drop_last() =~= token@.subrange(0, i as int));
            assert(p.last() == c);
        }
        if value > (usize::MAX - d) / 10 {
            proof {
                lemma_digits_monotone(token@, i + 1);
            }
            return None;
        }
        value = value * 10 + d;
        i = i + 1;
    }
    assert(token@.subrange(0, n as int) =~= token@);
    Some(value)
}

/// The `/`-separated tokens of a pointer body, from index `start` on.
fn split_tokens(p: &str, start: usize) -> (r: Vec<String>)
    requires
        start <= p@.len(),
    ensures
        r@.map_values(|t: String| t@) == tokens(p@.subrange(start as int, p@.len() as int)),
{
    let n = p.unicode_len();
    let ghost body = p@.subrange(start as int, n as int);
    let mut r: Vec<String> = Vec::new();
    let mut current = String::new();
    let mut i: usize = start;
    assert(body.subrange(0, 0) =~= Seq::<char>::empty());
    proof {
        assert(tokens(body.subrange(0, 0)) =~= seq![Seq::<char>::empty()]);
    }
    while i < n
        invariant
            n == p@.len(),
            start <= i <= n,
            body == p@.subrange(start as int, n as int),
            ({
                let t = tokens(body.subrange(0, i - start));
                &&& t.len() >= 1
                &&& r@.map_values(|x: String| x@) == t.drop_last()
                &&& current@ == t.last()
            }),
        decreases n - i,
    {
        let c = p.get_char(i);
        let ghost before = tokens(body.subrange(0, i - start));
        proof {
            let q = body.subrange(0, i - start + 1);
            assert(q.drop_last() =~= body.subrange(0, i - start));
            assert(q.last() == c);
        }
        if c == '/' {
            let done = current;
            let ghost old_r = r@;
            let ghost dv = done@;
            r.push(done);
            current = String::new();
            proof {
                let after = tokens(body.subrange(0, i - start + 1));
                assert(after == before.push(Seq::<char>::empty()));
                assert(r@ == old_r.push(r@.last()));
                assert(r@.map_values(|x: String| x@) =~= old_r.map_values(|x: String| x@).push(dv));
                assert(before.drop_last().push(before.last()) =~= before);
                assert(r@.map_values(|x: String| x@) =~= after.drop_last());
                assert(current@ =~= after.last());
            }
        } else {
            push_char(&mut current, c);
            proof {
                let after = tokens(body.subrange(0, i - start + 1));
                assert(r@.map_values(|x: String| x@) =~= after.drop_last());
            }
        }
        i = i + 1;
    }
    let ghost t = tokens(body.subrange(0, n - start));
    let ghost old_r = r@;
    let ghost cv = current@;
    r.push(current);
    proof {
        assert(body.subrange(0, n - start) =~= body);
        assert(r@.map_values(|x: String| x@) =~= old_r.map_values(|x: String| x@).push(cv));
        assert(t.drop_last().push(t.last()) =~= t);
        assert(r@.map_values(|x: String| x@) =~= t);
    }
    r
}

impl Json {
    /// One step of a JSON pointer.
    pub fn step(&self, token: &str) -> (r: Option<&Json>)
        ensures
            r matches Some(x) ==> step(self@, token@) == Some(x@),
            r is None ==> step(self@, token@) is None,
    {
        match self {
            Json::Object(_) => {
                let key = unescape_token(token);
                self.get(key.as_str())
            },
            Json::Array(items) => {
                let key = unescape_token(token);
                proof {
                    lemma_items_view(items@);
                }
                match index_of_token(key.as_str()) {
                    Some(i) => if i < items.len() {
                        Some(&items[i])
                    } else {
                        None
                    },
                    None => None,
                }
            },
            _ => None,
        }
    }

    /// `Value::pointer`: the value that a JSON pointer names.
    pub fn pointer(&self, p: &str) -> (r: Option<&Json>)
        ensures
            r matches Some(x) ==> pointer(self@, p@) == Some(x@),
            r is None ==> pointer(self@, p@) is None,
    {
        let n = p.unicode_len();
        if n == 0 {
            return Some(self);
        }
        if p.get_char(0) != '/' {
            return None;
        }
        let toks = split_tokens(p, 1);
        let ghost tv = toks@.map_values(|t: String| t@);
        assert(p@.subrange(1, n as int) =~= p@.drop_first());
        let mut current: &Json = self;
        let mut k: usize = 0;
        assert(tv.subrange(0, 0) =~= Seq::<Seq<char>>::empty());
        while k < toks.len()
            invariant
                k <= toks@.len(),
                tv == toks@.map_values(|t: String| t@),
                tv == tokens(p@.drop_first()),
                p@.len() > 0,
                p@[0] == '/',
                walk(self@, tv.subrange(0, k as int)) == Some(current@),
            decreases toks@.len() - k,
        {
            proof {
                let q = tv.subrange(0, k + 1);
                assert(q.drop_last() =~= tv.subrange(0, k as int));
                assert(q.last() == toks@[k as int]@);
            }
            match current.step(toks[k].as_str()) {
                Some(next) => {
                    current = next;
                },
                None => {
                    proof {
                        let q = tv.subrange(0, k + 1);
                        assert(walk(self@, q) == step(current@, tv[k as int]));
                        assert(walk(self@, q) is None);
                        lemma_walk_stuck(self@, tv, k as int + 1);
                        assert(tv == tokens(p@.drop_first()));
                    }
                    return None;
                },
            }
            k = k + 1;
        }
        assert(tv.subrange(0, toks@.len() as int) =~= tv);
        Some(current)
    }
}

proof fn lemma_walk_stuck(v: JsonV, toks: Seq<Seq<char>>, k: int)
    requires
        0 <= k <= toks.len(),
        walk(v, toks.subrange(0, k)) is None,
    ensures
        walk(v, toks) is None,
    decreases toks.len() - k,
{
    if k < toks.len() {
        let q = toks.subrange(0, k + 1);
        assert(q.drop_last() =~= toks.subrange(0, k));
        lemma_walk_stuck(v, toks, k + 1);
    } else {
        assert(toks.subrange(0, k) =~= toks);
    }
}

/// JSON equality: the same value, with objects compared entry by entry.
pub fn json_eq(a: &Json, b: &Json) -> (r: bool)
    ensures
        r == (a@ == b@),
    decreases a,
{
    match (a, b) {
        (Json::Null, Json::Null) => true,
        (Json::Bool(x), Json::Bool(y)) => *x == *y,
        (Json::UInt(x), Json::UInt(y)) => *x == *y,
        (Json::NegInt(x), Json::NegInt(y)) => *x == *y,
        (Json::Float(x), Json::Float(y)) => same_float(*x, *y),
        (Json::Str(x), Json::Str(y)) => crate::text::same_text(x.as_str(), y.as_str()),
        (Json::Array(x), Json::Array(y)) => {
            proof {
                lemma_items_view(x@);
                lemma_items_view(y@);
            }
            if x.len() != y.len() {
                return false;
            }
            let mut i: usize = 0;
            assert(a@ == JsonV::Array(items_view(x@)));
            assert(b@ == JsonV::Array(items_view(y@)));
            while i < x.len()
                invariant
                    x@.len() == y@.len(),
                    i <= x@.len(),
                    a@ == JsonV::Array(items_view(x@)),
                    b@ == JsonV::Array(items_view(y@)),
                    *a == Json::Array(*x),
                    items_view(x@).len() == x@.len(),
                    items_view(y@).len() == y@.len(),
                    forall|j: int| 0 <= j < x@.len() ==> #[trigger] items_view(x@)[j] == x@[j]@,
                    forall|j: int| 0 <= j < y@.len() ==> #[trigger] items_view(y@)[j] == y@[j]@,
                    forall|j: int| 0 <= j < i ==> x@[j]@ == y@[j]@,
                decreases x@.len() - i,
            {
                proof {
                    assert(decreases_to!(*a => *x));
                    assert(decreases_to!(*x => x@));
                    assert(decreases_to!(x@ => x@[i as int]));
                }
                if !json_eq(&x[i], &y[i]) {
                    assert(items_view(x@)[i as int] != items_view(y@)[i as int]);
                    return false;
                }
                i = i + 1;
            }
            assert(items_view(x@) =~= items_view(y@));
            true
        },
        (Json::Object(x), Json::Object(y)) => {
            proof {
                lemma_entries_view(x@);
                lemma_entries_view(y@);
            }
            if x.len() != y.len() {
                return false;
            }
            let mut i: usize = 0;
            assert(a@ == JsonV::Object(entries_view(x@)));
            assert(b@ == JsonV::Object(entries_view(y@)));
            while i < x.len()
                invariant
                    x@.len() == y@.len(),
                    i <= x@.len(),
                    a@ == JsonV::Object(entries_view(x@)),
                    b@ == JsonV::Object(entries_view(y@)),
                    *a == Json::Object(*x),
                    entries_view(x@).len() == x@.len(),
                    entries_view(y@).len() == y@.len(),
                    forall|j: int|
                        0 <= j < x@.len() ==> #[trigger] entries_view(x@)[j] == (
                            x@[j].0@,
                            x@[j].1@,
                        ),
                    forall|j: int|
                        0 <= j < y@.len() ==> #[trigger] entries_view(y@)[j] == (
                            y@[j].0@,
                            y@[j].1@,
                        ),
                    forall|j: int| 0 <= j < i ==> x@[j].0@ == y@[j].0@ && x@[j].1@ == y@[j].1@,
                decreases x@.len() - i,
            {
                if !crate::text::same_text(x[i].0.as_str(), y[i].0.as_str()) {
                    assert(entries_view(x@)[i as int] != entries_view(y@)[i as int]);
                    return false;
                }
                proof {
                    assert(decreases_to!(*a => *x));
                    assert(decreases_to!(*x => x@));
                    assert(decreases_to!(x@ => x@[i as int]));
                    assert(decreases_to!(x@[i as int] => x@[i as int].1));
                }
                if !json_eq(&x[i].1, &y[i].1) {
                    assert(entries_view(x@)[i as int] != entries_view(y@)[i as int]);
                    return false;
                }
                i = i + 1;
            }
            assert(entries_view(x@) =~= entries_view(y@));
            true
        },
        _ => false,
    }
}

/// A copy of a value.
#[verifier::loop_isolation(false)]
pub fn clone_json(j: &Json) -> (r: Json)
    ensures
        r@ == j@,
    decreases j,
{
    match j {
        Json::Null => Json::Null,
        Json::Bool(b) => Json::Bool(*b),
        Json::UInt(n) => Json::UInt(*n),
        Json::NegInt(n) => Json::NegInt(*n),
        Json::Float(b) => Json::Float(*b),
        Json::Str(s) => Json::Str(string_of(s.as_str())),
        Json::Array(items) => {
            proof {
                lemma_items_view(items@);
                assert(decreases_to!(*j => *items));
            }
            let mut out: Vec<Json> = Vec::new();
            let mut i: usize = 0;
            while i < items.len()
                invariant
                    i <= items@.len(),
                    *j == Json::Array(*items),
                    out@.len() == i,
                    items_view(items@).len() == items@.len(),
                    forall|t: int| 0 <= t < items@.len() ==> #[trigger] items_view(items@)[t] == items@[t]@,
                    forall|t: int| 0 <= t < i ==> #[trigger] out@[t]@ == items@[t]@,
                decreases items@.len() - i,
            {
                proof {
                    assert(decreases_to!(*items => items@));
                    assert(decreases_to!(items@ => items@[i as int]));
                }
                let c = clone_json(&items[i]);
                out.push(c);
                i = i + 1;
            }
            proof {
                lemma_items_view(out@);
                assert(items_view(out@) =~= items_view(items@));
            }
            Json::Array(out)
        },
        Json::Object(entries) => {
            proof {
                lemma_entries_view(entries@);
                assert(decreases_to!(*j => *entries));
            }
            let mut out: Vec<(String, Json)> = Vec::new();
            let mut i: usize = 0;
            while i < entries.len()
                invariant
                    i <= entries@.len(),
                    *j == Json::Object(*entries),
                    out@.len() == i,
                    entries_view(entries@).len() == entries@.len(),
                    forall|t: int|
                        0 <= t < entries@.len() ==> #[trigger] entries_view(entries@)[t] == (
                            entries@[t].0@,
                            entries@[t].1@,
                        ),
                    forall|t: int|
                        0 <= t < i ==> #[trigger] out@[t].0@ == entries@[t].0@ && out@[t].1@
                            == entries@[t].1@,
                decreases entries@.len() - i,
            {
                proof {
                    assert(decreases_to!(*entries => entries@));
                    assert(decreases_to!(entries@ => entries@[i as int]));
                    assert(decreases_to!(entries@[i as int] => entries@[i as int].1));
                }
                let c = clone_json(&entries[i].1);
                let k = string_of(entries[i].0.as_str());
                out.push((k, c));
                i = i + 1;
            }
            proof {
                lemma_entries_view(out@);
                assert(entries_view(out@) =~= entries_view(entries@));
            }
            Json::Object(out)
        },
    }
}

/// `v` occurs in `items`.
pub fn contains_json(items: &Vec<Json>, v: &Json) -> (r: bool)
    ensures
        r == items_view(items@).contains(v@),
{
    proof {
        lemma_items_view(items@);
    }
    let mut i: usize = 0;
    while i < items.len()
        invariant
            i <= items@.len(),
            items_view(items@).len() == items@.len(),
            forall|t: int| 0 <= t < items@.len() ==> #[trigger] items_view(items@)[t] == items@[t]@,
            forall|t: int| 0 <= t < i ==> items@[t]@ != v@,
        decreases items@.len() - i,
    {
        if json_eq(&items[i], v) {
            assert(items_view(items@)[i as int] == v@);
            return true;
        }
        i = i + 1;
    }
    proof {
        if items_view(items@).contains(v@) {
            let t = choose|t: int| 0 <= t < items_view(items@).len() && items_view(items@)[t] == v@;
            assert(items@[t]@ == v@);
        }
    }
    false
}


/// The largest node count that `node_count` tells apart.
pub const NODE_CAP: u64 = 0xFFFF_FFFEu64;

/// `n`, or `NODE_CAP` where `n` is larger.
pub open spec fn capped(n: nat) -> nat {
    if n > NODE_CAP {
        NODE_CAP as nat
    } else {
        n
    }
}

/// The number of nodes of a JSON value (the value itself and every value
/// nested in it), counted up to `NODE_CAP`.
pub open spec fn node_count(v: JsonV) -> nat
    decreases v, 1int,
{
    match v {
        JsonV::Array(items) => capped(1 + items_nodes(items, items.len() as int)),
        JsonV::Object(entries) => capped(1 + entries_nodes(entries, entries.len() as int)),
        _ => 1,
    }
}

/// The node counts of the first `n` values of a list, summed up to `NODE_CAP`.
pub open spec fn items_nodes(items: Seq<JsonV>, n: int) -> nat
    decreases items, n,
{
    if n <= 0 || n > items.len() {
        0
    } else {
        capped(items_nodes(items, n - 1) + node_count(items[n - 1]))
    }
}

/// The node counts of the values of the first `n` entries, summed up to
/// `NODE_CAP`.
pub open spec fn entries_nodes(entries: Seq<(Seq<char>, JsonV)>, n: int) -> nat
    decreases entries, n,
{
    if n <= 0 || n > entries.len() {
        0
    } else {
        proof {
            assert(decreases_to!(entries => entries[n - 1]));
        }
        capped(entries_nodes(entries, n - 1) + node_count(entries[n - 1].1))
    }
}

/// `node_count` of a value.
#[verifier::loop_isolation(false)]
pub fn json_nodes(j: &Json) -> (r: u64)
    ensures
        r == node_count(j@),
        r <= NODE_CAP,
    decreases j,
{
    match j {
        Json::Array(items) => {
            proof {
                lemma_items_view(items@);
                assert(decreases_to!(*j => *items));
            }
            let ghost vs = items_view(items@);
            let mut acc: u64 = 0;
            let mut i: usize = 0;
            while i < items.len()
                invariant
                    i <= items@.len(),
                    vs == items_view(items@),
                    vs.len() == items@.len(),
                    forall|t: int| 0 <= t < items@.len() ==> #[trigger] vs[t] == items@[t]@,
                    acc == items_nodes(vs, i as int),
                    acc <= NODE_CAP,
                    *j == Json::Array(*items),
                decreases items@.len() - i,
            {
                proof {
                    assert(decreases_to!(*items => items@));
                    assert(decreases_to!(items@ => items@[i as int]));
                }
                let c = json_nodes(&items[i]);
                acc = if acc + c > NODE_CAP { NODE_CAP } else { acc + c };
                i = i + 1;
            }
            assert(j@ == JsonV::Array(vs));
            if acc + 1 > NODE_CAP { NODE_CAP } else { acc + 1 }
        },
        Json::Object(entries) => {
            proof {
                lemma_entries_view(entries@);
                assert(decreases_to!(*j => *entries));
            }
            let ghost es = entries_view(entries@);
            let mut acc: u64 = 0;
            let mut i: usize = 0;
            while i < entries.len()
                invariant
                    i <= entries@.len(),
                    es == entries_view(entries@),
                    es.len() == entries@.len(),
                    forall|t: int| 0 <= t < entries@.len() ==> #[trigger] es[t] == (entries@[t].0@, entries@[t].1@),
                    acc == entries_nodes(es, i as int),
                    acc <= NODE_CAP,
                    *j == Json::Object(*entries),
                decreases entries@.len() - i,
            {
                proof {
                    assert(decreases_to!(*entries => entries@));
                    assert(decreases_to!(entries@ => entries@[i as int]));
                    assert(decreases_to!(entries@[i as int] => entries@[i as int].1));
                }
                let c = json_nodes(&entries[i].1);
                assert(es[i as int].1 == entries@[i as int].1@);
                acc = if acc + c > NODE_CAP { NODE_CAP } else { acc + c };
                i = i + 1;
            }
            assert(j@ == JsonV::Object(es));
            if acc + 1 > NODE_CAP { NODE_CAP } else { acc + 1 }
        },
        _ => 1,
    }
}

} // verus!
