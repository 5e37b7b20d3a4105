//! Keyed opportunities: `opportunities/<organisation-key>/<position-key>/`.
//!
//! A key is lower-case ASCII letters and digits in runs joined by single
//! hyphens or underscores, so a key names exactly one plain path component.
use vstd::prelude::*;

use crate::json::{clone_json, entries_view, field, lemma_entries_view, Json, JsonV};
use crate::render::{less, text_less};
use crate::text::{push_str, same_text, string_of};
use crate::workspace::{join, Workspace};

verus! {

broadcast use {crate::json::lemma_items_view, crate::json::lemma_entries_view};

/// A lower-case ASCII letter or a digit.
pub open spec fn is_key_alnum(c: char) -> bool {
    ('a' <= c && c <= 'z') || ('0' <= c && c <= '9')
}

/// A hyphen or an underscore.
pub open spec fn is_key_separator(c: char) -> bool {
    c == '-' || c == '_'
}

/// The key grammar `[a-z0-9]+([-_][a-z0-9]+)*`: runs of letters and digits
/// joined by single separators.
pub open spec fn is_record_key(s: Seq<char>) -> bool {
    &&& s.len() > 0
    &&& is_key_alnum(s[0])
    &&& is_key_alnum(s.last())
    &&& forall|i: int| 0 <= i < s.len() ==> is_key_alnum(#[trigger] s[i]) || is_key_separator(s[i])
    &&& forall|i: int| 0 <= i < s.len() - 1 && is_key_separator(#[trigger] s[i]) ==> is_key_alnum(s[i + 1])
}

/// The record of an opportunity, relative to the workspace root.
pub open spec fn record_relative(organisation: Seq<char>, position: Seq<char>) -> Seq<char> {
    "opportunities/"@ + organisation + "/"@ + position + "/application.json"@
}

/// The output directory of an opportunity's documents, relative to the root.
pub open spec fn output_relative(organisation: Seq<char>, position: Seq<char>, file: Seq<char>) -> Seq<char> {
    "opportunities/"@ + organisation + "/"@ + position + "/output/"@ + file
}

/// Why an opportunity cannot be addressed.
#[derive(Debug)]
pub enum OpportunityError {
    /// The organisation or position key (`label`) breaks the key grammar.
    InvalidKey { label: String, value: String },
}

/// Whether `s` is a valid organisation or position key.
pub fn valid_key(s: &str) -> (r: bool)
    ensures
        r == is_record_key(s@),
{
    let n = s.unicode_len();
    if n == 0 {
        return false;
    }
    let mut i: usize = 0;
    let mut previous_separator = true;
    while i < n
        invariant
            n == s@.len(),
            0 < n,
            i <= n,
            forall|j: int| 0 <= j < i ==> is_key_alnum(#[trigger] s@[j]) || is_key_separator(s@[j]),
            forall|j: int| 0 <= j < i - 1 && is_key_separator(#[trigger] s@[j]) ==> is_key_alnum(s@[j + 1]),
            i == 0 ==> previous_separator,
            i > 0 ==> previous_separator == is_key_separator(s@[i - 1]),
            i > 0 ==> is_key_alnum(s@[0]),
        decreases n - i,
    {
        let c = s.get_char(i);
        let alnum = ('a' <= c && c <= 'z') || ('0' <= c && c <= '9');
        let separator = c == '-' || c == '_';
        if !alnum && !separator {
            return false;
        }
        if separator && previous_separator {
            return false;
        }
        previous_separator = separator;
        i = i + 1;
    }
    !previous_separator
}

/// The record of the opportunity `organisation`/`position`; both keys must
/// follow the key grammar, the organisation being checked first.
pub fn record_path(workspace: &Workspace, organisation: &str, position: &str) -> (r: Result<
    String,
    OpportunityError,
>)
    ensures
        !is_record_key(organisation@) ==> (r matches Err(OpportunityError::InvalidKey { label, value })
            && label@ == "organisation"@ && value@ == organisation@),
        is_record_key(organisation@) && !is_record_key(position@) ==> (r matches Err(
            OpportunityError::InvalidKey { label, value },
        ) && label@ == "position"@ && value@ == position@),
        r is Ok <==> is_record_key(organisation@) && is_record_key(position@),
        r matches Ok(p) ==> p@ == join(workspace.root_view(), record_relative(organisation@, position@)),
{
    if !valid_key(organisation) {
        return Err(
            OpportunityError::InvalidKey {
                label: string_of("organisation"),
                value: string_of(organisation),
            },
        );
    }
    if !valid_key(position) {
        return Err(
            OpportunityError::InvalidKey { label: string_of("position"), value: string_of(position) },
        );
    }
    let mut relative = string_of("opportunities/");
    push_str(&mut relative, organisation);
    push_str(&mut relative, "/");
    push_str(&mut relative, position);
    push_str(&mut relative, "/application.json");
    Ok(workspace.path(relative.as_str()))
}

/// A key names one plain path component: it is not empty and holds neither a
/// separator `/` nor a dot, so neither `.` nor `..` nor a nested path.
pub proof fn key_is_one_plain_component(key: Seq<char>)
    requires
        is_record_key(key),
    ensures
        key.len() > 0,
        !key.contains('/'),
        !key.contains('.'),
{
    if key.contains('/') {
        let i = choose|i: int| 0 <= i < key.len() && key[i] == '/';
        assert(is_key_alnum(key[i]) || is_key_separator(key[i]));
    }
    if key.contains('.') {
        let i = choose|i: int| 0 <= i < key.len() && key[i] == '.';
        assert(is_key_alnum(key[i]) || is_key_separator(key[i]));
    }
}

proof fn lemma_split_at_separator(a: Seq<char>, b: Seq<char>, x: Seq<char>, y: Seq<char>)
    requires
        !a.contains('/'),
        !b.contains('/'),
        a + seq!['/'] + x == b + seq!['/'] + y,
    ensures
        a == b,
        x == y,
{
    let l = a + seq!['/'] + x;
    let r = b + seq!['/'] + y;
    if a.len() < b.len() {
        assert(l[a.len() as int] == '/');
        assert(r[a.len() as int] == b[a.len() as int]);
        assert(b.contains('/'));
    } else if b.len() < a.len() {
        assert(r[b.len() as int] == '/');
        assert(l[b.len() as int] == a[b.len() as int]);
        assert(a.contains('/'));
    }
    assert(a =~= l.subrange(0, a.len() as int));
    assert(b =~= r.subrange(0, b.len() as int));
    assert(x =~= l.subrange(a.len() as int + 1, l.len() as int));
    assert(y =~= r.subrange(b.len() as int + 1, r.len() as int));
}

/// Each concrete role owns one record: records of different valid key pairs
/// are different paths.
pub proof fn records_are_distinct(o1: Seq<char>, p1: Seq<char>, o2: Seq<char>, p2: Seq<char>)
    requires
        is_record_key(o1),
        is_record_key(p1),
        is_record_key(o2),
        is_record_key(p2),
        record_relative(o1, p1) == record_relative(o2, p2),
    ensures
        o1 == o2,
        p1 == p2,
{
    key_is_one_plain_component(o1);
    key_is_one_plain_component(p1);
    key_is_one_plain_component(o2);
    key_is_one_plain_component(p2);
    let head = "opportunities/"@;
    let tail = "application.json"@;
    let l = record_relative(o1, p1);
    let r = record_relative(o2, p2);
    assert(l =~= head + (o1 + seq!['/'] + (p1 + seq!['/'] + tail))) by {
        reveal_strlit("/application.json");
        reveal_strlit("application.json");
        reveal_strlit("/");
    }
    assert(r =~= head + (o2 + seq!['/'] + (p2 + seq!['/'] + tail))) by {
        reveal_strlit("/application.json");
        reveal_strlit("application.json");
        reveal_strlit("/");
    }
    assert((o1 + seq!['/'] + (p1 + seq!['/'] + tail)) =~= l.subrange(head.len() as int, l.len() as int));
    assert((o2 + seq!['/'] + (p2 + seq!['/'] + tail)) =~= r.subrange(head.len() as int, r.len() as int));
    lemma_split_at_separator(o1, o2, p1 + seq!['/'] + tail, p2 + seq!['/'] + tail);
    lemma_split_at_separator(p1, p2, tail, tail);
}

/// `entries` with `key` set to `value`: the first entry under `key` takes
/// the value; where there is none, the entry goes before the first key that
/// orders after it, as a sorted map inserts it.
pub open spec fn set_in(entries: Seq<(Seq<char>, JsonV)>, key: Seq<char>, value: JsonV) -> Seq<
    (Seq<char>, JsonV),
>
    decreases entries.len(),
{
    if entries.len() == 0 {
        seq![(key, value)]
    } else if entries[0].0 == key {
        seq![(key, value)] + entries.drop_first()
    } else if text_less(key, entries[0].0) {
        seq![(key, value)] + entries
    } else {
        seq![entries[0]] + set_in(entries.drop_first(), key, value)
    }
}

proof fn lemma_set_at(entries: Seq<(Seq<char>, JsonV)>, key: Seq<char>, value: JsonV, j: int)
    requires
        0 <= j <= entries.len(),
        forall|t: int| 0 <= t < j ==> (#[trigger] entries[t]).0 != key && !text_less(key, entries[t].0),
        j < entries.len() ==> entries[j].0 == key || text_less(key, entries[j].0),
    ensures
        j < entries.len() && entries[j].0 == key ==> set_in(entries, key, value) == entries.update(
            j,
            (key, value),
        ),
        !(j < entries.len() && entries[j].0 == key) ==> set_in(entries, key, value) == entries.insert(
            j,
            (key, value),
        ),
    decreases j,
{
    if j == 0 {
        if entries.len() == 0 {
            assert(entries.insert(0, (key, value)) =~= seq![(key, value)]);
        } else if entries[0].0 == key {
            assert(entries.update(0, (key, value)) =~= seq![(key, value)] + entries.drop_first());
        } else {
            assert(entries.insert(0, (key, value)) =~= seq![(key, value)] + entries);
        }
    } else {
        let t = entries.drop_first();
        assert forall|u: int| 0 <= u < j - 1 implies (#[trigger] t[u]).0 != key && !text_less(
            key,
            t[u].0,
        ) by {
            assert(t[u] == entries[u + 1]);
        }
        assert(entries[0].0 != key && !text_less(key, entries[0].0));
        lemma_set_at(t, key, value, j - 1);
        if j < entries.len() && entries[j].0 == key {
            assert(t[j - 1] == entries[j]);
            assert(seq![entries[0]] + t.update(j - 1, (key, value)) =~= entries.update(j, (key, value)));
        } else {
            if j < entries.len() {
                assert(t[j - 1] == entries[j]);
            }
            assert(seq![entries[0]] + t.insert(j - 1, (key, value)) =~= entries.insert(j, (key, value)));
        }
    }
}

/// Sets `key` to `value` in the entries of an object (see `set_in`).
pub fn set_field(entries: &mut Vec<(String, Json)>, key: &str, value: Json)
    ensures
        entries_view(final(entries)@) == set_in(entries_view(old(entries)@), key@, value@),
{
    let ghost ev = entries_view(entries@);
    let ghost vv = value@;
    let mut j: usize = 0;
    while j < entries.len() && !same_text(entries[j].0.as_str(), key) && !less(key, entries[j].0.as_str())
        invariant
            j <= entries@.len(),
            ev == entries_view(entries@),
            forall|t: int| 0 <= t < j ==> (#[trigger] ev[t]).0 != key@ && !text_less(key@, ev[t].0),
        decreases entries@.len() - j,
    {
        proof {
            lemma_entries_view(entries@);
        }
        assert(entries_view(entries@)[j as int].0 == entries@[j as int].0@);
        j = j + 1;
    }
    let equal = j < entries.len() && same_text(entries[j].0.as_str(), key);
    proof {
        if j < entries@.len() {
            lemma_entries_view(entries@);
            assert(entries_view(entries@)[j as int].0 == entries@[j as int].0@);
        }
        lemma_set_at(ev, key@, vv, j as int);
    }
    if equal {
        entries.remove(j);
        entries.insert(j, (string_of(key), value));
        assert(entries_view(entries@) =~= ev.update(j as int, (key@, vv)));
    } else {
        entries.insert(j, (string_of(key), value));
        assert(entries_view(entries@) =~= ev.insert(j as int, (key@, vv)));
    }
}

/// The identifier of a keyed opportunity: `<organisation>--<position>`.
pub open spec fn record_id(organisation: Seq<char>, position: Seq<char>) -> Seq<char> {
    organisation + "--"@ + position
}

/// A document whose `job.id` can be set: `null` or an object whose `job` is
/// missing, `null` or an object.
pub open spec fn job_settable(doc: JsonV) -> bool {
    match doc {
        JsonV::Null => true,
        JsonV::Object(_) => match field(doc, "job"@) {
            None => true,
            Some(JsonV::Null) => true,
            Some(JsonV::Object(_)) => true,
            _ => false,
        },
        _ => false,
    }
}

/// The document with `job.id` set to `id`, creating `job` where it is
/// missing or `null`, and the document where it is `null`.
pub open spec fn with_job_id(doc: JsonV, id: Seq<char>) -> JsonV {
    let fresh = JsonV::Object(seq![("id"@, JsonV::Str(id))]);
    match doc {
        JsonV::Object(es) => match field(doc, "job"@) {
            Some(JsonV::Object(js)) => JsonV::Object(
                set_in(es, "job"@, JsonV::Object(set_in(js, "id"@, JsonV::Str(id)))),
            ),
            _ => JsonV::Object(set_in(es, "job"@, fresh)),
        },
        _ => JsonV::Object(seq![("job"@, fresh)]),
    }
}

/// Whether the document's `job.id` can be set.
pub fn can_set_job_id(doc: &Json) -> (r: bool)
    ensures
        r == job_settable(doc@),
{
    match doc {
        Json::Null => true,
        Json::Object(_) => match doc.get("job") {
            None => true,
            Some(Json::Null) => true,
            Some(Json::Object(_)) => true,
            _ => false,
        },
        _ => false,
    }
}

/// `{"id": id}`.
fn fresh_job(id: &str) -> (r: Json)
    ensures
        r@ == JsonV::Object(seq![("id"@, JsonV::Str(id@))]),
{
    let mut entries: Vec<(String, Json)> = Vec::new();
    entries.push((string_of("id"), Json::Str(string_of(id))));
    assert(entries_view(entries@) =~= seq![("id"@, JsonV::Str(id@))]);
    Json::Object(entries)
}

/// Sets the document's `job.id` to `id`.
pub fn set_job_id(doc: Json, id: &str) -> (r: Json)
    requires
        job_settable(doc@),
    ensures
        r@ == with_job_id(doc@, id@),
{
    let job = match doc.get("job") {
        Some(Json::Object(js)) => {
            let mut copy: Vec<(String, Json)> = Vec::new();
            let mut k: usize = 0;
            while k < js.len()
                invariant
                    k <= js@.len(),
                    copy@.len() == k,
                    forall|t: int| 0 <= t < k ==> #[trigger] copy@[t].0@ == js@[t].0@ && copy@[t].1@
                        == js@[t].1@,
                decreases js@.len() - k,
            {
                let key = string_of(js[k].0.as_str());
                let value = clone_json(&js[k].1);
                assert(value@ == js@[k as int].1@);
                copy.push((key, value));
                assert(copy@[k as int].1@ == js@[k as int].1@);
                k = k + 1;
            }
            proof {
                lemma_entries_view(copy@);
                lemma_entries_view(js@);
            }
            assert(entries_view(copy@) =~= entries_view(js@));
            set_field(&mut copy, "id", Json::Str(string_of(id)));
            Json::Object(copy)
        },
        _ => fresh_job(id),
    };
    match doc {
        Json::Object(mut es) => {
            set_field(&mut es, "job", job);
            Json::Object(es)
        },
        _ => {
            let entries = vec![(string_of("job"), fresh_job(id))];
            assert(entries_view(entries@) =~= seq![
                ("job"@, JsonV::Object(seq![("id"@, JsonV::Str(id@))])),
            ]);
            Json::Object(entries)
        },
    }
}

/// Why a new opportunity cannot be created.
#[derive(Debug)]
pub enum RecordError {
    Key(OpportunityError),
    /// The record exists already (relative to the workspace root).
    Exists(String),
}

/// Where a new opportunity's record goes: the record path of the keys,
/// unless it exists already (`exists`), which is never overwritten.
pub fn record_destination(workspace: &Workspace, organisation: &str, position: &str, exists: bool) -> (r:
    Result<String, RecordError>)
    ensures
        !is_record_key(organisation@) ==> (r matches Err(RecordError::Key(OpportunityError::InvalidKey { label, value }))
            && label@ == "organisation"@ && value@ == organisation@),
        is_record_key(organisation@) && !is_record_key(position@) ==> (r matches Err(
            RecordError::Key(OpportunityError::InvalidKey { label, value }),
        ) && label@ == "position"@ && value@ == position@),
        is_record_key(organisation@) && is_record_key(position@) && exists ==> (r matches Err(
            RecordError::Exists(p),
        ) && p@ == record_relative(organisation@, position@)),
        r is Ok <==> is_record_key(organisation@) && is_record_key(position@) && !exists,
        r matches Ok(p) ==> p@ == join(workspace.root_view(), record_relative(organisation@, position@)),
{
    let path = match record_path(workspace, organisation, position) {
        Ok(p) => p,
        Err(e) => return Err(RecordError::Key(e)),
    };
    if exists {
        let mut relative = string_of("opportunities/");
        push_str(&mut relative, organisation);
        push_str(&mut relative, "/");
        push_str(&mut relative, position);
        push_str(&mut relative, "/application.json");
        return Err(RecordError::Exists(relative));
    }
    Ok(path)
}

/// The record of a new opportunity: the application template with
/// `job.id` set to `<organisation>--<position>`.
pub fn opportunity_document(template: Json, organisation: &str, position: &str) -> (r: Json)
    requires
        job_settable(template@),
    ensures
        r@ == with_job_id(template@, record_id(organisation@, position@)),
{
    let mut id = string_of(organisation);
    push_str(&mut id, "--");
    push_str(&mut id, position);
    set_job_id(template, id.as_str())
}

} // verus!
