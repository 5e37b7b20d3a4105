//! Agent skills: the skill manifest, the skill cases, and the evaluation of
//! a model's routing decisions against those cases.
use vstd::prelude::*;

use crate::json::{
    as_entries, as_items, as_text, field, items_view, lemma_entries_view, lemma_items_view, Json,
    JsonV,
};
use crate::render::{
    input_keys, input_value, keys_ascending, less, lemma_text_less_irreflexive, lemma_text_less_total,
    set_entry, text_less,
};
use crate::application::opt_view;
use crate::schema::strings_view;
use crate::text::{decimal, push_decimal, push_str, string_of, trim, word_count};

verus! {

/// The text field `f` of a value.
pub open spec fn text_of(v: JsonV, f: Seq<char>) -> Option<Seq<char>> {
    match field(v, f) {
        Some(x) => as_text(x),
        None => None,
    }
}

/// The text field `f` of a value, empty when absent.
pub open spec fn text_or_empty(v: JsonV, f: Seq<char>) -> Seq<char> {
    match text_of(v, f) {
        Some(t) => t,
        None => Seq::empty(),
    }
}

/// The texts among a list of values, in order.
pub open spec fn texts_among(items: Seq<JsonV>) -> Seq<Seq<char>>
    decreases items.len(),
{
    if items.len() == 0 {
        Seq::empty()
    } else {
        match as_text(items.last()) {
            Some(t) => texts_among(items.drop_last()).push(t),
            None => texts_among(items.drop_last()),
        }
    }
}

/// The text fields `f` among a list of values, in order.
pub open spec fn fields_among(items: Seq<JsonV>, f: Seq<char>) -> Seq<Seq<char>>
    decreases items.len(),
{
    if items.len() == 0 {
        Seq::empty()
    } else {
        match text_of(items.last(), f) {
            Some(t) => fields_among(items.drop_last(), f).push(t),
            None => fields_among(items.drop_last(), f),
        }
    }
}

/// The items of an array field, none when the field is not an array.
pub open spec fn list_field(v: JsonV, f: Seq<char>) -> Seq<JsonV> {
    match field(v, f) {
        Some(x) => match as_items(x) {
            Some(items) => items,
            None => Seq::empty(),
        },
        None => Seq::empty(),
    }
}

/// `x` inserted into the strictly ascending list `sorted`, unless present.
pub open spec fn insert_sorted(sorted: Seq<Seq<char>>, x: Seq<char>) -> Seq<Seq<char>>
    decreases sorted.len(),
{
    if sorted.len() == 0 {
        seq![x]
    } else if sorted[0] == x {
        sorted
    } else if text_less(x, sorted[0]) {
        seq![x] + sorted
    } else {
        seq![sorted[0]] + insert_sorted(sorted.drop_first(), x)
    }
}

/// The distinct texts of `xs` in ascending order, as a `BTreeSet` of them
/// iterates.
pub open spec fn sorted_set(xs: Seq<Seq<char>>) -> Seq<Seq<char>>
    decreases xs.len(),
{
    if xs.len() == 0 {
        Seq::empty()
    } else {
        insert_sorted(sorted_set(xs.drop_last()), xs.last())
    }
}

/// The texts of `xs` that `keep` holds for, in order.
pub open spec fn keep_in(xs: Seq<Seq<char>>, other: Seq<Seq<char>>, member: bool) -> Seq<Seq<char>>
    decreases xs.len(),
{
    if xs.len() == 0 {
        Seq::empty()
    } else {
        let rest = keep_in(xs.drop_last(), other, member);
        if other.contains(xs.last()) == member {
            rest.push(xs.last())
        } else {
            rest
        }
    }
}

/// A list of texts joined by `, `.
pub open spec fn joined(items: Seq<Seq<char>>) -> Seq<char>
    decreases items.len(),
{
    if items.len() == 0 {
        Seq::empty()
    } else if items.len() == 1 {
        items[0]
    } else {
        joined(items.drop_last()) + ", "@ + items.last()
    }
}

/// The texts of `xs` have a repeat.
pub open spec fn has_repeat(xs: Seq<Seq<char>>) -> bool {
    exists|i: int, j: int| 0 <= i < j < xs.len() && xs[i] == xs[j]
}

/// A decision that counts for the case `id`: an object naming a known case.
pub open spec fn valid_decision(d: JsonV, ids: Seq<Seq<char>>) -> Option<Seq<char>> {
    if as_entries(d) is None {
        None
    } else {
        match text_of(d, "case_id"@) {
            Some(id) => if ids.contains(id) {
                Some(id)
            } else {
                None
            },
            None => None,
        }
    }
}

/// The errors of the first `k` decisions: not an object, an unknown case,
/// or a case decided again (the later decision then counts).
pub open spec fn decision_errors(decisions: Seq<JsonV>, ids: Seq<Seq<char>>, k: int) -> Seq<Seq<char>>
    decreases k,
{
    if k <= 0 {
        Seq::empty()
    } else {
        let i = k - 1;
        let rest = decision_errors(decisions, ids, i);
        let d = decisions[i];
        if as_entries(d) is None {
            rest.push("decision "@ + decimal(i as nat) + " is not an object"@)
        } else {
            match valid_decision(d, ids) {
                None => rest.push("decision "@ + decimal(i as nat) + " has an unknown case_id"@),
                Some(id) => if decided_before(decisions, ids, id, i) {
                    rest.push("case "@ + id + " appears more than once"@)
                } else {
                    rest
                },
            }
        }
    }
}

/// One of the first `k` decisions counts for the case `id`.
pub open spec fn decided_before(decisions: Seq<JsonV>, ids: Seq<Seq<char>>, id: Seq<char>, k: int) -> bool {
    exists|j: int| 0 <= j < k && #[trigger] valid_decision(decisions[j], ids) == Some(id)
}

/// The decision that counts for the case `id` among the first `k`: the last.
pub open spec fn decision_for(decisions: Seq<JsonV>, ids: Seq<Seq<char>>, id: Seq<char>, k: int) -> Option<JsonV>
    decreases k,
{
    if k <= 0 {
        None
    } else if valid_decision(decisions[k - 1], ids) == Some(id) {
        Some(decisions[k - 1])
    } else {
        decision_for(decisions, ids, id, k - 1)
    }
}

/// The outcome of one case.
pub struct CaseReport {
    pub case_id: Seq<char>,
    pub skill: Seq<char>,
    pub selected_skill: Seq<char>,
    pub selected: Seq<Seq<char>>,
    pub reason: Seq<char>,
    pub errors: Seq<Seq<char>>,
}

/// The errors about what a decision selected, given the case.
pub open spec fn selection_errors(case: JsonV, selected: Seq<Seq<char>>) -> Seq<Seq<char>> {
    let option_ids = fields_among(list_field(case, "options"@), "id"@);
    let unknown = keep_in(selected, option_ids, false);
    let missing = sorted_set(keep_in(texts_among(list_field(case, "required"@)), selected, false));
    let forbidden = sorted_set(keep_in(texts_among(list_field(case, "forbidden"@)), selected, true));
    let a: Seq<Seq<char>> = if has_repeat(selected) {
        seq!["selected contains duplicate option ids"@]
    } else {
        Seq::empty()
    };
    let b: Seq<Seq<char>> = if unknown.len() > 0 {
        seq!["unknown options: "@ + joined(unknown)]
    } else {
        Seq::empty()
    };
    let c: Seq<Seq<char>> = if missing.len() > 0 {
        seq!["missing required options: "@ + joined(missing)]
    } else {
        Seq::empty()
    };
    let d: Seq<Seq<char>> = if forbidden.len() > 0 {
        seq!["selected forbidden options: "@ + joined(forbidden)]
    } else {
        Seq::empty()
    };
    a + b + c + d
}

/// The selection of a decision: the option ids when `selected` is an array
/// of texts.
pub open spec fn selection_of(decision: JsonV) -> Option<Seq<Seq<char>>> {
    match field(decision, "selected"@) {
        Some(s) => match as_items(s) {
            Some(items) => if forall|i: int| 0 <= i < items.len() ==> (#[trigger] as_text(items[i])) is Some {
                Some(texts_among(items))
            } else {
                None
            },
            None => None,
        },
        None => None,
    }
}

/// The error about the reason of a decision, if any.
pub open spec fn reason_errors(reason: Seq<char>) -> Seq<Seq<char>> {
    if trim(reason).len() == 0 {
        seq!["reason must be a non-empty string"@]
    } else if word_count(reason) > 12 {
        seq!["reason exceeds 12 words"@]
    } else {
        Seq::empty()
    }
}

/// How a case fared with the decision that counts for it.
pub open spec fn case_report(case: JsonV, decision: Option<JsonV>) -> CaseReport {
    let case_id = text_or_empty(case, "id"@);
    let skill = text_or_empty(case, "skill"@);
    match decision {
        None => CaseReport {
            case_id,
            skill,
            selected_skill: Seq::empty(),
            selected: Seq::empty(),
            reason: Seq::empty(),
            errors: seq!["missing decision"@],
        },
        Some(d) => {
            let selected_skill = text_or_empty(d, "skill"@);
            let reason = text_or_empty(d, "reason"@);
            let routing: Seq<Seq<char>> = if selected_skill != skill {
                seq![
                    "routed to "@ + (if selected_skill.len() == 0 {
                        "no skill"@
                    } else {
                        selected_skill
                    }) + " instead of "@ + skill,
                ]
            } else {
                Seq::empty()
            };
            let (selected, selection) = match selection_of(d) {
                Some(s) => (s, selection_errors(case, s)),
                None => (Seq::empty(), seq!["selected must be an array of option ids"@]),
            };
            CaseReport {
                case_id,
                skill,
                selected_skill,
                selected,
                reason,
                errors: routing + selection + reason_errors(reason),
            }
        },
    }
}

/// A list of texts as a JSON array.
pub open spec fn text_array(xs: Seq<Seq<char>>) -> JsonV {
    JsonV::Array(Seq::new(xs.len(), |i: int| JsonV::Str(xs[i])))
}

/// The JSON form of a case report.
pub open spec fn report_json(r: CaseReport) -> JsonV {
    JsonV::Object(
        seq![
            ("case_id"@, JsonV::Str(r.case_id)),
            ("errors"@, text_array(r.errors)),
            ("passed"@, JsonV::Bool(r.errors.len() == 0)),
            ("reason"@, JsonV::Str(r.reason)),
            ("selected"@, text_array(r.selected)),
            ("selected_skill"@, JsonV::Str(r.selected_skill)),
            ("skill"@, JsonV::Str(r.skill)),
        ],
    )
}

/// The evaluation document: its status, errors and results.
pub open spec fn evaluation_json(passed: bool, errors: Seq<Seq<char>>, results: Seq<JsonV>) -> JsonV {
    JsonV::Object(
        seq![
            ("errors"@, text_array(errors)),
            ("results"@, JsonV::Array(results)),
            ("status"@, JsonV::Str(if passed {
                "passed"@
            } else {
                "failed"@
            })),
        ],
    )
}

/// The evaluation of a response against the cases: the response must hold
/// a `decisions` array; each decision must be an object naming a known case
/// once; each case is routed to its skill, selects every required and no
/// forbidden option and no unknown or repeated one, and gives a reason of at
/// most 12 words. It passes when no decision and no case has an error.
pub open spec fn evaluation(cases: Seq<JsonV>, response: JsonV) -> JsonV {
    match field(response, "decisions"@) {
        Some(ds) => match as_items(ds) {
            Some(decisions) => {
                let ids = fields_among(cases, "id"@);
                let errors = decision_errors(decisions, ids, decisions.len() as int);
                let reports = Seq::new(
                    cases.len(),
                    |i: int|
                        case_report(
                            cases[i],
                            decision_for(
                                decisions,
                                ids,
                                text_or_empty(cases[i], "id"@),
                                decisions.len() as int,
                            ),
                        ),
                );
                let passed = errors.len() == 0 && forall|i: int|
                    0 <= i < reports.len() ==> (#[trigger] reports[i]).errors.len() == 0;
                evaluation_json(passed, errors, Seq::new(reports.len(), |i: int| report_json(reports[i])))
            },
            None => evaluation_json(false, seq!["response must contain a decisions array"@], Seq::empty()),
        },
        None => evaluation_json(false, seq!["response must contain a decisions array"@], Seq::empty()),
    }
}


/// The text field `f` of a value.
pub fn text_field_of<'a>(v: &'a Json, f: &str) -> (r: Option<&'a str>)
    ensures
        r matches Some(t) ==> text_of(v@, f@) == Some(t@),
        r is None ==> text_of(v@, f@) is None,
{
    match v.get(f) {
        Some(x) => x.as_str(),
        None => None,
    }
}

/// The text field `f` of a value, empty when absent.
pub(crate) fn text_or_empty_of<'a>(v: &'a Json, f: &str) -> (r: &'a str)
    ensures
        r@ == text_or_empty(v@, f@),
{
    match text_field_of(v, f) {
        Some(t) => t,
        None => {
            proof {
                reveal_strlit("");
            }
            ""
        },
    }
}

/// The items of an array field, `None` when the field is not an array.
pub(crate) fn list_of<'a>(v: &'a Json, f: &str) -> (r: Option<&'a Vec<Json>>)
    ensures
        r matches Some(items) ==> list_field(v@, f@) == items_view(items@),
        r is None ==> list_field(v@, f@) == Seq::<JsonV>::empty(),
{
    match v.get(f) {
        Some(x) => x.as_array(),
        None => None,
    }
}

/// The text fields `f` among a list of values, in order.
pub(crate) fn fields_of(items: Option<&Vec<Json>>, f: &str) -> (r: Vec<String>)
    ensures
        strings_view(r@) == fields_among(
            match items {
                Some(v) => items_view(v@),
                None => Seq::<JsonV>::empty(),
            },
            f@,
        ),
{
    let mut out: Vec<String> = Vec::new();
    match items {
        None => {
            assert(strings_view(out@) =~= Seq::<Seq<char>>::empty());
            out
        },
        Some(v) => {
            proof {
                lemma_items_view(v@);
            }
            let ghost iv = items_view(v@);
            let mut i: usize = 0;
            assert(strings_view(out@) =~= fields_among(iv.subrange(0, 0), f@));
            while i < v.len()
                invariant
                    i <= v@.len(),
                    iv == items_view(v@),
                    iv.len() == v@.len(),
                    forall|t: int| 0 <= t < v@.len() ==> #[trigger] iv[t] == v@[t]@,
                    strings_view(out@) == fields_among(iv.subrange(0, i as int), f@),
                decreases v@.len() - i,
            {
                proof {
                    assert(iv.subrange(0, i + 1).drop_last() =~= iv.subrange(0, i as int));
                    assert(iv.subrange(0, i + 1).last() == v@[i as int]@);
                }
                let ghost before = strings_view(out@);
                if let Some(t) = text_field_of(&v[i], f) {
                    out.push(string_of(t));
                    assert(strings_view(out@) =~= before.push(t@));
                }
                i = i + 1;
            }
            assert(iv.subrange(0, v@.len() as int) =~= iv);
            out
        },
    }
}

/// The texts among a list of values, in order.
pub(crate) fn texts_of(items: Option<&Vec<Json>>) -> (r: Vec<String>)
    ensures
        strings_view(r@) == texts_among(
            match items {
                Some(v) => items_view(v@),
                None => Seq::<JsonV>::empty(),
            },
        ),
{
    let mut out: Vec<String> = Vec::new();
    match items {
        None => {
            assert(strings_view(out@) =~= Seq::<Seq<char>>::empty());
            out
        },
        Some(v) => {
            proof {
                lemma_items_view(v@);
            }
            let ghost iv = items_view(v@);
            let mut i: usize = 0;
            assert(strings_view(out@) =~= texts_among(iv.subrange(0, 0)));
            while i < v.len()
                invariant
                    i <= v@.len(),
                    iv == items_view(v@),
                    iv.len() == v@.len(),
                    forall|t: int| 0 <= t < v@.len() ==> #[trigger] iv[t] == v@[t]@,
                    strings_view(out@) == texts_among(iv.subrange(0, i as int)),
                decreases v@.len() - i,
            {
                proof {
                    assert(iv.subrange(0, i + 1).drop_last() =~= iv.subrange(0, i as int));
                    assert(iv.subrange(0, i + 1).last() == v@[i as int]@);
                }
                let ghost before = strings_view(out@);
                if let Some(t) = v[i].as_str() {
                    out.push(string_of(t));
                    assert(strings_view(out@) =~= before.push(t@));
                }
                i = i + 1;
            }
            assert(iv.subrange(0, v@.len() as int) =~= iv);
            out
        },
    }
}

/// Whether `x` is among `xs`.
fn contains_text(xs: &Vec<String>, x: &str) -> (r: bool)
    ensures
        r == strings_view(xs@).contains(x@),
{
    let ghost v = strings_view(xs@);
    let mut i: usize = 0;
    while i < xs.len()
        invariant
            i <= xs@.len(),
            v == strings_view(xs@),
            forall|t: int| 0 <= t < i ==> v[t] != x@,
        decreases xs@.len() - i,
    {
        if crate::text::same_text(xs[i].as_str(), x) {
            assert(v[i as int] == x@);
            return true;
        }
        i = i + 1;
    }
    false
}

/// The texts of `xs` that are (or, with `member` false, are not) among `other`.
fn keep_texts(xs: &Vec<String>, other: &Vec<String>, member: bool) -> (r: Vec<String>)
    ensures
        strings_view(r@) == keep_in(strings_view(xs@), strings_view(other@), member),
{
    let ghost v = strings_view(xs@);
    let mut out: Vec<String> = Vec::new();
    let mut i: usize = 0;
    assert(strings_view(out@) =~= keep_in(v.subrange(0, 0), strings_view(other@), member));
    while i < xs.len()
        invariant
            i <= xs@.len(),
            v == strings_view(xs@),
            strings_view(out@) == keep_in(v.subrange(0, i as int), strings_view(other@), member),
        decreases xs@.len() - i,
    {
        proof {
            assert(v.subrange(0, i + 1).drop_last() =~= v.subrange(0, i as int));
            assert(v.subrange(0, i + 1).last() == xs@[i as int]@);
        }
        let ghost before = strings_view(out@);
        if contains_text(other, xs[i].as_str()) == member {
            out.push(string_of(xs[i].as_str()));
            assert(strings_view(out@) =~= before.push(xs@[i as int]@));
        }
        i = i + 1;
    }
    assert(v.subrange(0, xs@.len() as int) =~= v);
    out
}

/// Inserts `x` into the strictly ascending list `sorted`, unless present.
fn insert_text(sorted: &mut Vec<String>, x: &str)
    ensures
        strings_view(final(sorted)@) == insert_sorted(strings_view(old(sorted)@), x@),
{
    let ghost v = strings_view(sorted@);
    let mut i: usize = 0;
    assert(v.subrange(0, 0) + insert_sorted(v.subrange(0, v.len() as int), x@) =~= insert_sorted(v, x@))
        by {
        assert(v.subrange(0, v.len() as int) =~= v);
    }
    while i < sorted.len()
        invariant
            i <= sorted@.len(),
            v == strings_view(sorted@),
            v == strings_view(old(sorted)@),
            v.subrange(0, i as int) + insert_sorted(v.subrange(i as int, v.len() as int), x@) == insert_sorted(v, x@),
        decreases sorted@.len() - i,
    {
        let ghost rest = v.subrange(i as int, v.len() as int);
        assert(rest[0] == v[i as int]);
        assert(v[i as int] == sorted@[i as int]@);
        if crate::text::same_text(sorted[i].as_str(), x) {
            assert(insert_sorted(rest, x@) == rest);
            assert(v.subrange(0, i as int) + rest =~= v);
            return;
        }
        if less(x, sorted[i].as_str()) {
            assert(insert_sorted(rest, x@) == seq![x@] + rest);
            sorted.insert(i, string_of(x));
            assert(strings_view(sorted@) =~= v.subrange(0, i as int) + (seq![x@] + rest));
            return;
        }
        assert(rest.drop_first() =~= v.subrange(i + 1, v.len() as int));
        assert(v.subrange(0, i + 1) =~= v.subrange(0, i as int).push(v[i as int]));
        assert(v.subrange(0, i + 1) + insert_sorted(v.subrange(i + 1, v.len() as int), x@) =~= v.subrange(
            0,
            i as int,
        ) + (seq![rest[0]] + insert_sorted(rest.drop_first(), x@)));
        i = i + 1;
    }
    let ghost before = v;
    sorted.push(string_of(x));
    assert(v.subrange(i as int, v.len() as int) =~= Seq::<Seq<char>>::empty());
    assert(strings_view(sorted@) =~= v.subrange(0, i as int) + seq![x@]);
}

/// The distinct texts of `xs` in ascending order.
pub(crate) fn sorted_texts(xs: &Vec<String>) -> (r: Vec<String>)
    ensures
        strings_view(r@) == sorted_set(strings_view(xs@)),
{
    let ghost v = strings_view(xs@);
    let mut out: Vec<String> = Vec::new();
    let mut i: usize = 0;
    assert(strings_view(out@) =~= sorted_set(v.subrange(0, 0)));
    while i < xs.len()
        invariant
            i <= xs@.len(),
            v == strings_view(xs@),
            strings_view(out@) == sorted_set(v.subrange(0, i as int)),
        decreases xs@.len() - i,
    {
        proof {
            assert(v.subrange(0, i + 1).drop_last() =~= v.subrange(0, i as int));
            assert(v.subrange(0, i + 1).last() == xs@[i as int]@);
        }
        insert_text(&mut out, xs[i].as_str());
        i = i + 1;
    }
    assert(v.subrange(0, xs@.len() as int) =~= v);
    out
}

/// The texts joined by `, `, after `head`.
fn joined_after(head: &str, items: &Vec<String>) -> (r: String)
    ensures
        r@ == head@ + joined(strings_view(items@)),
{
    let mut out = string_of(head);
    let ghost v = strings_view(items@);
    let mut i: usize = 0;
    while i < items.len()
        invariant
            i <= items@.len(),
            v == strings_view(items@),
            out@ == head@ + joined(v.subrange(0, i as int)),
        decreases items@.len() - i,
    {
        proof {
            assert(v.subrange(0, i + 1).drop_last() =~= v.subrange(0, i as int));
            if i == 0 {
                assert(v.subrange(0, 0) =~= Seq::<Seq<char>>::empty());
            }
        }
        if i > 0 {
            push_str(&mut out, ", ");
        }
        push_str(&mut out, items[i].as_str());
        i = i + 1;
        assert(out@ =~= head@ + joined(v.subrange(0, i as int)));
    }
    assert(v.subrange(0, items@.len() as int) =~= v);
    out
}

/// Whether a text repeats in `xs`.
fn repeats(xs: &Vec<String>) -> (r: bool)
    ensures
        r == has_repeat(strings_view(xs@)),
{
    let ghost v = strings_view(xs@);
    let mut j: usize = 0;
    while j < xs.len()
        invariant
            j <= xs@.len(),
            v == strings_view(xs@),
            forall|a: int, b: int| 0 <= a < b < j ==> v[a] != v[b],
        decreases xs@.len() - j,
    {
        let mut i: usize = 0;
        while i < j
            invariant
                i <= j < xs@.len(),
                v == strings_view(xs@),
                forall|a: int, b: int| 0 <= a < b < j ==> v[a] != v[b],
                forall|a: int| 0 <= a < i ==> v[a] != v[j as int],
            decreases j - i,
        {
            if crate::text::same_text(xs[i].as_str(), xs[j].as_str()) {
                assert(v[i as int] == v[j as int]);
                return true;
            }
            i = i + 1;
        }
        j = j + 1;
    }
    false
}


/// A list of texts as a JSON array.
pub(crate) fn text_array_json(xs: &Vec<String>) -> (r: Json)
    ensures
        r@ == text_array(strings_view(xs@)),
{
    let mut items: Vec<Json> = Vec::new();
    let mut i: usize = 0;
    while i < xs.len()
        invariant
            i <= xs@.len(),
            items@.len() == i,
            forall|t: int| 0 <= t < i ==> #[trigger] items@[t]@ == JsonV::Str(xs@[t]@),
        decreases xs@.len() - i,
    {
        items.push(Json::Str(string_of(xs[i].as_str())));
        i = i + 1;
    }
    proof {
        lemma_items_view(items@);
    }
    let r = Json::Array(items);
    assert(r@ == JsonV::Array(items_view(items@)));
    assert(items_view(items@) =~= Seq::new(xs@.len(), |t: int| JsonV::Str(strings_view(xs@)[t])));
    r
}

/// What a decision selected, when `selected` is an array of texts.
#[verifier::loop_isolation(false)]
fn selection(decision: &Json) -> (r: Option<Vec<String>>)
    ensures
        match selection_of(decision@) {
            Some(s) => (r matches Some(v) && strings_view(v@) == s),
            None => r is None,
        },
{
    let items = match decision.get("selected") {
        Some(x) => match x.as_array() {
            Some(items) => items,
            None => {
                return None;
            },
        },
        None => {
            return None;
        },
    };
    proof {
        lemma_items_view(items@);
    }
    let ghost iv = items_view(items@);
    let mut i: usize = 0;
    while i < items.len()
        invariant
            i <= items@.len(),
            iv == items_view(items@),
            iv.len() == items@.len(),
            forall|t: int| 0 <= t < items@.len() ==> #[trigger] iv[t] == items@[t]@,
            forall|t: int| 0 <= t < i ==> (#[trigger] as_text(iv[t])) is Some,
        decreases items@.len() - i,
    {
        if items[i].as_str().is_none() {
            assert(as_text(iv[i as int]) is None);
            return None;
        }
        i = i + 1;
    }
    Some(texts_of(Some(items)))
}

/// The errors about what a decision selected, given the case.
fn selection_problems(case: &Json, selected: &Vec<String>) -> (r: Vec<String>)
    ensures
        strings_view(r@) == selection_errors(case@, strings_view(selected@)),
{
    proof {
        reveal_strlit("selected contains duplicate option ids");
    }
    let option_ids = fields_of(list_of(case, "options"), "id");
    let unknown = keep_texts(selected, &option_ids, false);
    let required = texts_of(list_of(case, "required"));
    let missing = sorted_texts(&keep_texts(&required, selected, false));
    let forbidden_all = texts_of(list_of(case, "forbidden"));
    let forbidden = sorted_texts(&keep_texts(&forbidden_all, selected, true));
    let mut out: Vec<String> = Vec::new();
    let ghost sv = strings_view(selected@);
    let ghost a: Seq<Seq<char>> = if has_repeat(sv) {
        seq!["selected contains duplicate option ids"@]
    } else {
        Seq::empty()
    };
    let ghost b: Seq<Seq<char>> = if strings_view(unknown@).len() > 0 {
        seq!["unknown options: "@ + joined(strings_view(unknown@))]
    } else {
        Seq::empty()
    };
    let ghost c: Seq<Seq<char>> = if strings_view(missing@).len() > 0 {
        seq!["missing required options: "@ + joined(strings_view(missing@))]
    } else {
        Seq::empty()
    };
    let ghost d: Seq<Seq<char>> = if strings_view(forbidden@).len() > 0 {
        seq!["selected forbidden options: "@ + joined(strings_view(forbidden@))]
    } else {
        Seq::empty()
    };
    if repeats(selected) {
        out.push(string_of("selected contains duplicate option ids"));
    }
    assert(strings_view(out@) =~= a);
    if unknown.len() > 0 {
        out.push(joined_after("unknown options: ", &unknown));
    }
    assert(strings_view(out@) =~= a + b);
    if missing.len() > 0 {
        out.push(joined_after("missing required options: ", &missing));
    }
    assert(strings_view(out@) =~= a + b + c);
    if forbidden.len() > 0 {
        out.push(joined_after("selected forbidden options: ", &forbidden));
    }
    assert(strings_view(out@) =~= a + b + c + d);
    out
}

/// The errors and the selection of a case with the decision that counts for it.
fn decision_problems(case: &Json, d: &Json) -> (r: (Vec<String>, Vec<String>))
    ensures
        strings_view(r.0@) == case_report(case@, Some(d@)).errors,
        strings_view(r.1@) == case_report(case@, Some(d@)).selected,
{
    proof {
        reveal_strlit("no skill");
    }
    let ghost report = case_report(case@, Some(d@));
    let skill = text_or_empty_of(case, "skill");
    let selected_skill = text_or_empty_of(d, "skill");
    let reason = text_or_empty_of(d, "reason");
    let mut errors: Vec<String> = Vec::new();
    let ghost routing: Seq<Seq<char>> = if selected_skill@ != skill@ {
        seq![
            "routed to "@ + (if selected_skill@.len() == 0 {
                "no skill"@
            } else {
                selected_skill@
            }) + " instead of "@ + skill@,
        ]
    } else {
        Seq::empty()
    };
    if !crate::text::same_text(selected_skill, skill) {
        let mut m = string_of("routed to ");
        if selected_skill.unicode_len() == 0 {
            push_str(&mut m, "no skill");
        } else {
            push_str(&mut m, selected_skill);
        }
        push_str(&mut m, " instead of ");
        push_str(&mut m, skill);
        errors.push(m);
    }
    assert(strings_view(errors@) =~= routing);
    let (selected, problems) = match selection(d) {
        Some(sel) => {
            let problems = selection_problems(case, &sel);
            (sel, problems)
        },
        None => (Vec::new(), vec![string_of("selected must be an array of option ids")]),
    };
    let ghost selection_part = strings_view(problems@);
    assert(strings_view(selected@) =~= report.selected);
    let ghost before = strings_view(errors@);
    let mut i: usize = 0;
    while i < problems.len()
        invariant
            i <= problems@.len(),
            strings_view(errors@) == before + strings_view(problems@).subrange(0, i as int),
        decreases problems@.len() - i,
    {
        let ghost e0 = strings_view(errors@);
        errors.push(string_of(problems[i].as_str()));
        assert(strings_view(errors@) =~= e0.push(problems@[i as int]@));
        assert(strings_view(problems@).subrange(0, i + 1) =~= strings_view(problems@).subrange(
            0,
            i as int,
        ).push(problems@[i as int]@));
        i = i + 1;
    }
    assert(strings_view(problems@).subrange(0, problems@.len() as int) =~= strings_view(problems@));
    let ghost middle = strings_view(errors@);
    if crate::text::blank(reason) {
        errors.push(string_of("reason must be a non-empty string"));
    } else if crate::text::count_words(reason) > 12 {
        errors.push(string_of("reason exceeds 12 words"));
    }
    assert(strings_view(errors@) =~= middle + reason_errors(reason@));
    assert(strings_view(errors@) =~= report.errors);
    (errors, selected)
}

/// The result of one case, in its JSON form, and whether it passed.
pub fn case_result(case: &Json, decision: Option<&Json>) -> (r: (Json, bool))
    ensures
        r.0@ == report_json(case_report(case@, opt_view(decision))),
        r.1 == (case_report(case@, opt_view(decision)).errors.len() == 0),
{
    proof {
        reveal_strlit("");
    }
    let ghost report = case_report(case@, opt_view(decision));
    let case_id = text_or_empty_of(case, "id");
    let skill = text_or_empty_of(case, "skill");
    let (errors, selected, selected_skill, reason) = match decision {
        None => {
            let errors = vec![string_of("missing decision")];
            let selected: Vec<String> = Vec::new();
            assert(strings_view(errors@) =~= report.errors);
            assert(strings_view(selected@) =~= report.selected);
            assert(""@ =~= Seq::<char>::empty());
            (errors, selected, "", "")
        },
        Some(d) => {
            let (errors, selected) = decision_problems(case, d);
            (errors, selected, text_or_empty_of(d, "skill"), text_or_empty_of(d, "reason"))
        },
    };
    let passed = errors.len() == 0;
    let mut entries: Vec<(String, Json)> = Vec::new();
    entries.push((string_of("case_id"), Json::Str(string_of(case_id))));
    entries.push((string_of("errors"), text_array_json(&errors)));
    entries.push((string_of("passed"), Json::Bool(passed)));
    entries.push((string_of("reason"), Json::Str(string_of(reason))));
    entries.push((string_of("selected"), text_array_json(&selected)));
    entries.push((string_of("selected_skill"), Json::Str(string_of(selected_skill))));
    entries.push((string_of("skill"), Json::Str(string_of(skill))));
    proof {
        lemma_entries_view(entries@);
    }
    let r = Json::Object(entries);
    let ghost ev = crate::json::entries_view(entries@);
    assert(ev =~= report_json(report)->Object_0);
    (r, passed)
}


proof fn lemma_decision_for(decisions: Seq<JsonV>, ids: Seq<Seq<char>>, id: Seq<char>, k: int)
    requires
        0 <= k <= decisions.len(),
    ensures
        decision_for(decisions, ids, id, k) is None <==> !decided_before(decisions, ids, id, k),
    decreases k,
{
    if k > 0 {
        lemma_decision_for(decisions, ids, id, k - 1);
        if valid_decision(decisions[k - 1], ids) == Some(id) {
            assert(decided_before(decisions, ids, id, k));
        } else {
            if decided_before(decisions, ids, id, k) {
                let j = choose|j: int| 0 <= j < k && #[trigger] valid_decision(decisions[j], ids) == Some(id);
                assert(decided_before(decisions, ids, id, k - 1));
            }
        }
    }
}

/// The position of the entry for `id` among the decided cases.
fn find_case(chosen: &Vec<(String, usize)>, id: &str) -> (r: Option<usize>)
    ensures
        r matches Some(t) ==> t < chosen@.len() && chosen@[t as int].0@ == id@,
        r is None ==> forall|t: int| 0 <= t < chosen@.len() ==> (#[trigger] chosen@[t]).0@ != id@,
{
    let mut i: usize = 0;
    while i < chosen.len()
        invariant
            i <= chosen@.len(),
            forall|t: int| 0 <= t < i ==> (#[trigger] chosen@[t]).0@ != id@,
        decreases chosen@.len() - i,
    {
        if crate::text::same_text(chosen[i].0.as_str(), id) {
            return Some(i);
        }
        i = i + 1;
    }
    None
}

/// `decision <index> <rest>`.
fn decision_message(index: usize, rest: &str) -> (r: String)
    ensures
        r@ == "decision "@ + decimal(index as nat) + rest@,
{
    let mut m = string_of("decision ");
    push_decimal(&mut m, index as u128);
    push_str(&mut m, rest);
    m
}

/// The evaluation that a malformed response gets.
fn malformed() -> (r: Json)
    ensures
        r@ == evaluation_json(false, seq!["response must contain a decisions array"@], Seq::empty()),
{
    let errors = vec![string_of("response must contain a decisions array")];
    assert(strings_view(errors@) =~= seq!["response must contain a decisions array"@]);
    let e = text_array_json(&errors);
    let results: Vec<Json> = Vec::new();
    proof {
        lemma_items_view(results@);
    }
    let res = Json::Array(results);
    assert(res@ == JsonV::Array(Seq::empty())) by {
        assert(items_view(results@) =~= Seq::<JsonV>::empty());
    }
    let mut entries: Vec<(String, Json)> = Vec::new();
    entries.push((string_of("errors"), e));
    entries.push((string_of("results"), res));
    entries.push((string_of("status"), Json::Str(string_of("failed"))));
    proof {
        lemma_entries_view(entries@);
    }
    let r = Json::Object(entries);
    let ghost ev = crate::json::entries_view(entries@);
    assert(ev =~= evaluation_json(false, seq!["response must contain a decisions array"@], Seq::empty())->Object_0);
    r
}

/// The errors of the decisions and, for each decided case, the position of
/// the decision that counts for it.
#[verifier::loop_isolation(false)]
fn decisions_of(decisions: &Vec<Json>, ids: &Vec<String>) -> (r: (Vec<String>, Vec<(String, usize)>))
    ensures
        strings_view(r.0@) == decision_errors(items_view(decisions@), strings_view(ids@), decisions@.len() as int),
        forall|t: int|
            0 <= t < r.1@.len() ==> (#[trigger] r.1@[t]).1 < decisions@.len() && decision_for(
                items_view(decisions@),
                strings_view(ids@),
                r.1@[t].0@,
                decisions@.len() as int,
            ) == Some(decisions@[r.1@[t].1 as int]@),
        forall|id: Seq<char>|
            #[trigger] decided_before(items_view(decisions@), strings_view(ids@), id, decisions@.len() as int) ==> exists|t: int|
                0 <= t < r.1@.len() && (#[trigger] r.1@[t]).0@ == id,
{
    proof {
        lemma_items_view(decisions@);
    }
    let ghost dv = items_view(decisions@);
    let ghost iv = strings_view(ids@);
    let mut errors: Vec<String> = Vec::new();
    let mut chosen: Vec<(String, usize)> = Vec::new();
    let mut i: usize = 0;
    assert(strings_view(errors@) =~= Seq::<Seq<char>>::empty());
    while i < decisions.len()
        invariant
            i <= decisions@.len(),
            dv == items_view(decisions@),
            dv.len() == decisions@.len(),
            forall|t: int| 0 <= t < decisions@.len() ==> #[trigger] dv[t] == decisions@[t]@,
            strings_view(errors@) == decision_errors(dv, iv, i as int),
            forall|t: int|
                0 <= t < chosen@.len() ==> (#[trigger] chosen@[t]).1 < i && valid_decision(
                    dv[chosen@[t].1 as int],
                    iv,
                ) == Some(chosen@[t].0@) && decision_for(dv, iv, chosen@[t].0@, i as int) == Some(
                    dv[chosen@[t].1 as int],
                ),
            forall|id: Seq<char>|
                #[trigger] decided_before(dv, iv, id, i as int) ==> exists|t: int|
                    0 <= t < chosen@.len() && (#[trigger] chosen@[t]).0@ == id,
            forall|a: int, b: int| 0 <= a < b < chosen@.len() ==> (#[trigger] chosen@[a]).0@ != (#[trigger] chosen@[b]).0@,
        decreases decisions@.len() - i,
    {
        let d = &decisions[i];
        assert(dv[i as int] == d@);
        let ghost e0 = strings_view(errors@);
        let ghost c0 = chosen@;
        match d.as_object() {
            None => {
                errors.push(decision_message(i, " is not an object"));
                assert(strings_view(errors@) =~= e0.push(strings_view(errors@).last()));
            },
            Some(_) => {
                let known = match text_field_of(d, "case_id") {
                    Some(id) => if contains_text(ids, id) {
                        Some(id)
                    } else {
                        None
                    },
                    None => None,
                };
                match known {
                    None => {
                        errors.push(decision_message(i, " has an unknown case_id"));
                        assert(strings_view(errors@) =~= e0.push(strings_view(errors@).last()));
                    },
                    Some(id) => {
                        assert(valid_decision(dv[i as int], iv) == Some(id@));
                        match find_case(&chosen, id) {
                            Some(t) => {
                                proof {
                                    assert(valid_decision(dv[c0[t as int].1 as int], iv) == Some(id@));
                                    assert(decided_before(dv, iv, id@, i as int));
                                }
                                chosen.set(t, (string_of(id), i));
                                assert(chosen@[t as int].0@ == id@);
                                let mut m = string_of("case ");
                                push_str(&mut m, id);
                                push_str(&mut m, " appears more than once");
                                errors.push(m);
                                assert(strings_view(errors@) =~= e0.push(strings_view(errors@).last()));
                            },
                            None => {
                                proof {
                                    if decided_before(dv, iv, id@, i as int) {
                                        let t = choose|t: int| 0 <= t < c0.len() && (#[trigger] c0[t]).0@ == id@;
                                    }
                                }
                                chosen.push((string_of(id), i));
                                assert(chosen@[chosen@.len() - 1].0@ == id@);
                            },
                        }
                    },
                }
            },
        }
        proof {
            assert(valid_decision(dv[i as int], iv) matches Some(x) ==> exists|t: int|
                0 <= t < chosen@.len() && (#[trigger] chosen@[t]).0@ == x);
            assert forall|t: int| 0 <= t < c0.len() implies exists|u: int|
                0 <= u < chosen@.len() && (#[trigger] chosen@[u]).0@ == (#[trigger] c0[t]).0@ by {
                if chosen@.len() > c0.len() {
                    assert(chosen@[t] == c0[t]);
                } else if chosen@[t] != c0[t] {
                    assert(chosen@[t].0@ == c0[t].0@);
                } else {
                    assert(chosen@[t] == c0[t]);
                }
            }
            assert forall|x: Seq<char>| #[trigger] decided_before(dv, iv, x, i + 1) implies exists|t: int|
                0 <= t < chosen@.len() && (#[trigger] chosen@[t]).0@ == x by {
                if valid_decision(dv[i as int], iv) != Some(x) {
                    let j = choose|j: int| 0 <= j < i + 1 && #[trigger] valid_decision(dv[j], iv) == Some(x);
                    assert(decided_before(dv, iv, x, i as int));
                    let t0 = choose|t: int| 0 <= t < c0.len() && (#[trigger] c0[t]).0@ == x;
                    assert(exists|u: int| 0 <= u < chosen@.len() && (#[trigger] chosen@[u]).0@ == c0[t0].0@);
                }
            }
        }
        i = i + 1;
    }
    (errors, chosen)
}

/// `evaluate_response`: the evaluation of a model's `response` against the
/// skill `cases` (see `evaluation`).
#[verifier::loop_isolation(false)]
pub fn evaluate_response(cases: &Vec<Json>, response: &Json) -> (r: Json)
    ensures
        r@ == evaluation(items_view(cases@), response@),
{
    let decisions = match response.get("decisions") {
        Some(x) => match x.as_array() {
            Some(items) => items,
            None => {
                return malformed();
            },
        },
        None => {
            return malformed();
        },
    };
    proof {
        lemma_items_view(cases@);
        lemma_items_view(decisions@);
    }
    let ghost cv = items_view(cases@);
    let ghost dv = items_view(decisions@);
    let ids = fields_of(Some(cases), "id");
    let ghost iv = strings_view(ids@);
    let (errors, chosen) = decisions_of(decisions, &ids);
    let ghost reports = Seq::new(
        cv.len(),
        |i: int|
            case_report(
                cv[i],
                decision_for(dv, iv, text_or_empty(cv[i], "id"@), dv.len() as int),
            ),
    );
    let mut results: Vec<Json> = Vec::new();
    let mut all_passed = true;
    let mut i: usize = 0;
    while i < cases.len()
        invariant
            i <= cases@.len(),
            cv == items_view(cases@),
            cv.len() == cases@.len(),
            forall|t: int| 0 <= t < cases@.len() ==> #[trigger] cv[t] == cases@[t]@,
            dv == items_view(decisions@),
            dv.len() == decisions@.len(),
            iv == strings_view(ids@),
            reports.len() == cv.len(),
            forall|t: int|
                0 <= t < chosen@.len() ==> (#[trigger] chosen@[t]).1 < decisions@.len() && decision_for(
                    dv,
                    iv,
                    chosen@[t].0@,
                    dv.len() as int,
                ) == Some(decisions@[chosen@[t].1 as int]@),
            forall|id: Seq<char>|
                #[trigger] decided_before(dv, iv, id, dv.len() as int) ==> exists|t: int|
                    0 <= t < chosen@.len() && (#[trigger] chosen@[t]).0@ == id,
            results@.len() == i,
            forall|t: int| 0 <= t < i ==> (#[trigger] results@[t])@ == report_json(reports[t]),
            all_passed <==> forall|t: int| 0 <= t < i ==> (#[trigger] reports[t]).errors.len() == 0,
        decreases cases@.len() - i,
    {
        let case = &cases[i];
        assert(cv[i as int] == case@);
        let id = text_or_empty_of(case, "id");
        let decision = match find_case(&chosen, id) {
            Some(t) => Some(&decisions[chosen[t].1]),
            None => {
                proof {
                    lemma_decision_for(dv, iv, id@, dv.len() as int);
                }
                None
            },
        };
        assert(opt_view(decision) == decision_for(dv, iv, id@, dv.len() as int));
        let (result, passed) = case_result(case, decision);
        proof {
            assert(reports[i as int] == case_report(case@, opt_view(decision)));
            assert((forall|t: int| 0 <= t < i + 1 ==> (#[trigger] reports[t]).errors.len() == 0) <==> ((
            forall|t: int| 0 <= t < i ==> (#[trigger] reports[t]).errors.len() == 0) && reports[i as int].errors.len()
                == 0)) by {
                if forall|t: int| 0 <= t < i ==> (#[trigger] reports[t]).errors.len() == 0 {
                    if reports[i as int].errors.len() == 0 {
                        assert forall|t: int| 0 <= t < i + 1 implies (#[trigger] reports[t]).errors.len() == 0 by {
                            if t < i {
                            }
                        }
                    }
                }
            }
        }
        all_passed = all_passed && passed;
        results.push(result);
        i = i + 1;
    }
    let e = text_array_json(&errors);
    proof {
        lemma_items_view(results@);
    }
    let res = Json::Array(results);
    assert(res@ == JsonV::Array(Seq::new(reports.len(), |t: int| report_json(reports[t])))) by {
        assert(items_view(results@) =~= Seq::new(reports.len(), |t: int| report_json(reports[t])));
    }
    let passed = errors.len() == 0 && all_passed;
    let mut entries: Vec<(String, Json)> = Vec::new();
    entries.push((string_of("errors"), e));
    entries.push((string_of("results"), res));
    if passed {
        entries.push((string_of("status"), Json::Str(string_of("passed"))));
    } else {
        entries.push((string_of("status"), Json::Str(string_of("failed"))));
    }
    proof {
        lemma_entries_view(entries@);
    }
    let r = Json::Object(entries);
    let ghost ev = crate::json::entries_view(entries@);
    assert(ev =~= evaluation(cv, response@)->Object_0);
    r
}


/// The texts ascend strictly.
pub open spec fn strictly_ascending(xs: Seq<Seq<char>>) -> bool {
    forall|i: int, j: int| 0 <= i < j < xs.len() ==> text_less(xs[i], xs[j])
}

proof fn lemma_insert_sorted(sorted: Seq<Seq<char>>, x: Seq<char>)
    requires
        strictly_ascending(sorted),
    ensures
        strictly_ascending(insert_sorted(sorted, x)),
        forall|y: Seq<char>| #[trigger] insert_sorted(sorted, x).contains(y) <==> (sorted.contains(y) || y == x),
        insert_sorted(sorted, x).len() > 0 && sorted.len() > 0 ==> (insert_sorted(sorted, x)[0] == sorted[0]
            || insert_sorted(sorted, x)[0] == x),
    decreases sorted.len(),
{
    if sorted.len() == 0 {
        assert(seq![x][0] == x);
    } else if sorted[0] == x {
    } else if text_less(x, sorted[0]) {
        let r = seq![x] + sorted;
        assert forall|i: int, j: int| 0 <= i < j < r.len() implies text_less(r[i], r[j]) by {
            if i == 0 {
                if j > 1 {
                    assert(text_less(sorted[0], sorted[j - 1]));
                    crate::render::lemma_text_less_transitive(x, sorted[0], sorted[j - 1]);
                }
            } else {
                assert(text_less(sorted[i - 1], sorted[j - 1]));
            }
        }
        assert forall|y: Seq<char>| #[trigger] r.contains(y) <==> (sorted.contains(y) || y == x) by {
            if r.contains(y) {
                let k = choose|k: int| 0 <= k < r.len() && r[k] == y;
                if k > 0 {
                    assert(sorted[k - 1] == y);
                }
            }
            if sorted.contains(y) {
                let k = choose|k: int| 0 <= k < sorted.len() && sorted[k] == y;
                assert(r[k + 1] == y);
            }
            if y == x {
                assert(r[0] == y);
            }
        }
    } else {
        let tail = sorted.drop_first();
        assert(strictly_ascending(tail)) by {
            assert forall|i: int, j: int| 0 <= i < j < tail.len() implies text_less(tail[i], tail[j]) by {
                assert(text_less(sorted[i + 1], sorted[j + 1]));
            }
        }
        lemma_insert_sorted(tail, x);
        let rest = insert_sorted(tail, x);
        let r = seq![sorted[0]] + rest;
        lemma_text_less_total(x, sorted[0]);
        assert forall|i: int, j: int| 0 <= i < j < r.len() implies text_less(r[i], r[j]) by {
            if i == 0 {
                let y = r[j];
                assert(rest.contains(y)) by {
                    assert(rest[j - 1] == y);
                }
                if y == x {
                } else {
                    assert(tail.contains(y));
                    let k = choose|k: int| 0 <= k < tail.len() && tail[k] == y;
                    assert(text_less(sorted[0], sorted[k + 1]));
                }
            } else {
                assert(text_less(rest[i - 1], rest[j - 1]));
            }
        }
        assert forall|y: Seq<char>| #[trigger] r.contains(y) <==> (sorted.contains(y) || y == x) by {
            if r.contains(y) {
                let k = choose|k: int| 0 <= k < r.len() && r[k] == y;
                if k > 0 {
                    assert(rest.contains(y)) by {
                        assert(rest[k - 1] == y);
                    }
                    if y != x {
                        assert(tail.contains(y));
                        let m = choose|m: int| 0 <= m < tail.len() && tail[m] == y;
                        assert(sorted[m + 1] == y);
                    }
                } else {
                    assert(sorted[0] == y);
                }
            }
            if sorted.contains(y) {
                let k = choose|k: int| 0 <= k < sorted.len() && sorted[k] == y;
                if k == 0 {
                    assert(r[0] == y);
                } else {
                    assert(tail[k - 1] == y);
                    assert(tail.contains(y));
                    assert(rest.contains(y));
                    let m = choose|m: int| 0 <= m < rest.len() && rest[m] == y;
                    assert(r[m + 1] == y);
                }
            }
            if y == x {
                assert(rest.contains(y));
                let m = choose|m: int| 0 <= m < rest.len() && rest[m] == y;
                assert(r[m + 1] == y);
            }
        }
    }
}

/// The option lists that the evaluation reports (missing required options,
/// selected forbidden ones) come in strictly ascending order, so each once,
/// and hold exactly the texts of the list they are drawn from.
pub proof fn sorted_sets_are_ordered_and_complete(xs: Seq<Seq<char>>)
    ensures
        strictly_ascending(sorted_set(xs)),
        forall|y: Seq<char>| #[trigger] sorted_set(xs).contains(y) <==> xs.contains(y),
    decreases xs.len(),
{
    if xs.len() > 0 {
        sorted_sets_are_ordered_and_complete(xs.drop_last());
        lemma_insert_sorted(sorted_set(xs.drop_last()), xs.last());
        assert forall|y: Seq<char>| #[trigger] sorted_set(xs).contains(y) <==> xs.contains(y) by {
            if xs.drop_last().contains(y) {
                let k = choose|k: int| 0 <= k < xs.drop_last().len() && xs.drop_last()[k] == y;
                assert(xs[k] == y);
            }
            if xs.contains(y) {
                let k = choose|k: int| 0 <= k < xs.len() && xs[k] == y;
                if k < xs.len() - 1 {
                    assert(xs.drop_last()[k] == y);
                }
            }
        }
    }
}


/// The pieces of `s` between line feeds (an empty text gives one empty piece).
pub open spec fn pieces(s: Seq<char>) -> Seq<Seq<char>>
    decreases s.len(),
{
    if s.len() == 0 {
        seq![Seq::<char>::empty()]
    } else {
        let p = pieces(s.drop_last());
        if s.last() == '\n' {
            p.push(Seq::<char>::empty())
        } else {
            p.update(p.len() - 1, p.last().push(s.last()))
        }
    }
}

/// The lines of `s`, as `str::lines` yields them: split at line feeds, a
/// carriage return before a line feed dropped, no final empty line.
pub open spec fn lines_of(s: Seq<char>) -> Seq<Seq<char>> {
    let p = pieces(s);
    let q = if p.last().len() == 0 {
        p.drop_last()
    } else {
        p
    };
    Seq::new(
        q.len(),
        |i: int|
            if i < p.len() - 1 && q[i].len() > 0 && q[i].last() == '\r' {
                q[i].drop_last()
            } else {
                q[i]
            },
    )
}

/// The first index `i >= from` at which `pat` occurs in `s`.
pub open spec fn find_text(s: Seq<char>, pat: Seq<char>, from: int) -> Option<int>
    decreases s.len() - from,
{
    if from < 0 || from >= s.len() || from + pat.len() > s.len() {
        None
    } else if s.subrange(from, from + pat.len()) == pat {
        Some(from)
    } else {
        find_text(s, pat, from + 1)
    }
}

/// The frontmatter block of a skill document: after a first line `---`,
/// up to the next line `---`.
pub open spec fn frontmatter_block(text: Seq<char>) -> Result<Seq<char>, SkillFault> {
    if !crate::text::is_prefix("---\n"@, text) {
        Err(SkillFault::MissingFrontmatter)
    } else {
        let rest = text.subrange(4, text.len() as int);
        match find_text(rest, "\n---\n"@, 0) {
            Some(k) => Ok(rest.subrange(0, k)),
            None => Err(SkillFault::UnterminatedFrontmatter),
        }
    }
}

/// The key and value of frontmatter lines `key: value`, trimmed; the first
/// line without a colon is refused.
pub open spec fn frontmatter_pairs(lines: Seq<Seq<char>>) -> Result<Seq<(Seq<char>, Seq<char>)>, SkillFault>
    decreases lines.len(),
{
    if lines.len() == 0 {
        Ok(Seq::empty())
    } else {
        match frontmatter_pairs(lines.drop_last()) {
            Err(f) => Err(f),
            Ok(pairs) => {
                let line = lines.last();
                match crate::public::find_from(line, ':', 0) {
                    None => Err(SkillFault::InvalidFrontmatterLine(line)),
                    Some(c) => Ok(
                        pairs.push(
                            (trim(line.subrange(0, c)), trim(line.subrange(c + 1, line.len() as int))),
                        ),
                    ),
                }
            },
        }
    }
}

/// The value that the last pair with key `k` gives.
pub open spec fn last_value(pairs: Seq<(Seq<char>, Seq<char>)>, k: Seq<char>) -> Option<Seq<char>>
    decreases pairs.len(),
{
    if pairs.len() == 0 {
        None
    } else if pairs.last().0 == k {
        Some(pairs.last().1)
    } else {
        last_value(pairs.drop_last(), k)
    }
}

/// Why a skill, its manifest or its cases are refused.
pub enum SkillFault {
    MissingFrontmatter,
    UnterminatedFrontmatter,
    InvalidFrontmatterLine(Seq<char>),
    NoDescription,
    UnsupportedCases,
    NoCases,
    EmptyCases,
    MissingCaseId,
    BadCaseId(Seq<char>),
    MissingCaseSkill,
    MissingOptions,
    FewOptions(Seq<char>),
    BadOptions(Seq<char>),
    MissingAnswerKey,
    BadAnswer(Seq<char>, Seq<char>),
    Coverage,
    NoSkillList,
    SkillNameNotText,
    BadSkillList,
    ManifestMismatch,
    AdapterMismatch,
    InvalidCanonicalFrontmatter(Seq<char>),
    InvalidSkillName(Seq<char>),
    InvalidDescription(Seq<char>),
    InvalidAdapterFrontmatter(Seq<char>),
    AdapterReference(Seq<char>),
}

/// Why a skill, its manifest or its cases are refused.
#[derive(Debug)]
pub enum SkillError {
    /// The document does not start with a frontmatter line `---`.
    MissingFrontmatter,
    /// The frontmatter has no closing line `---`.
    UnterminatedFrontmatter,
    /// A frontmatter line has no colon.
    InvalidFrontmatterLine(String),
    /// The frontmatter has no description.
    NoDescription,
    /// The cases document is not version 1 with an instruction.
    UnsupportedCases,
    /// The cases document has no cases.
    NoCases,
    /// The cases document has an empty list of cases.
    EmptyCases,
    /// A case has no id.
    MissingCaseId,
    /// A case id breaks the grammar or repeats.
    BadCaseId(String),
    /// A case has no skill.
    MissingCaseSkill,
    /// A case has no options.
    MissingOptions,
    /// The case has fewer than four options.
    FewOptions(String),
    /// The case has options without ids or with repeated ids.
    BadOptions(String),
    /// A case has no `required` or `forbidden` answer key.
    MissingAnswerKey,
    /// The answer key (`field`) of the case holds no option or an unknown one.
    BadAnswer { id: String, field: String },
    /// The cases do not cover the declared skills in manifest order.
    Coverage,
    /// `ccvl.json` has no skill list.
    NoSkillList,
    /// A declared skill name is not a string.
    SkillNameNotText,
    /// The declared skills are empty or repeat.
    BadSkillList,
    /// The declared skills and the canonical skills differ.
    ManifestMismatch,
    /// The canonical skills and their discovery adapters differ.
    AdapterMismatch,
    /// The canonical skill document (path) has invalid frontmatter.
    InvalidCanonicalFrontmatter(String),
    /// The canonical skill (path) has an invalid name.
    InvalidSkillName(String),
    /// The canonical skill (path) has an invalid description.
    InvalidDescription(String),
    /// The adapter (path) has invalid frontmatter.
    InvalidAdapterFrontmatter(String),
    /// The adapter (path) does not reference its canonical skill exactly once.
    AdapterReference(String),
}

impl View for SkillError {
    type V = SkillFault;

    open spec fn view(&self) -> SkillFault {
        match self {
            SkillError::MissingFrontmatter => SkillFault::MissingFrontmatter,
            SkillError::UnterminatedFrontmatter => SkillFault::UnterminatedFrontmatter,
            SkillError::InvalidFrontmatterLine(l) => SkillFault::InvalidFrontmatterLine(l@),
            SkillError::NoDescription => SkillFault::NoDescription,
            SkillError::UnsupportedCases => SkillFault::UnsupportedCases,
            SkillError::NoCases => SkillFault::NoCases,
            SkillError::EmptyCases => SkillFault::EmptyCases,
            SkillError::MissingCaseId => SkillFault::MissingCaseId,
            SkillError::BadCaseId(i) => SkillFault::BadCaseId(i@),
            SkillError::MissingCaseSkill => SkillFault::MissingCaseSkill,
            SkillError::MissingOptions => SkillFault::MissingOptions,
            SkillError::FewOptions(i) => SkillFault::FewOptions(i@),
            SkillError::BadOptions(i) => SkillFault::BadOptions(i@),
            SkillError::MissingAnswerKey => SkillFault::MissingAnswerKey,
            SkillError::BadAnswer { id, field } => SkillFault::BadAnswer(id@, field@),
            SkillError::Coverage => SkillFault::Coverage,
            SkillError::NoSkillList => SkillFault::NoSkillList,
            SkillError::SkillNameNotText => SkillFault::SkillNameNotText,
            SkillError::BadSkillList => SkillFault::BadSkillList,
            SkillError::ManifestMismatch => SkillFault::ManifestMismatch,
            SkillError::AdapterMismatch => SkillFault::AdapterMismatch,
            SkillError::InvalidCanonicalFrontmatter(p) => SkillFault::InvalidCanonicalFrontmatter(p@),
            SkillError::InvalidSkillName(p) => SkillFault::InvalidSkillName(p@),
            SkillError::InvalidDescription(p) => SkillFault::InvalidDescription(p@),
            SkillError::InvalidAdapterFrontmatter(p) => SkillFault::InvalidAdapterFrontmatter(p@),
            SkillError::AdapterReference(p) => SkillFault::AdapterReference(p@),
        }
    }
}

/// The first index `i >= from` at which `pat` occurs in `s`.
fn find_text_from(s: &str, n: usize, pat: &str, m: usize, from: usize) -> (r: Option<usize>)
    requires
        n == s@.len(),
        m == pat@.len(),
        m > 0,
        from <= n,
    ensures
        match find_text(s@, pat@, from as int) {
            Some(k) => r == Some(k as usize) && from <= k && k + m <= n,
            None => r is None,
        },
    decreases n - from,
{
    if n - from < m {
        return None;
    }
    let mut j: usize = 0;
    while j < m
        invariant
            n == s@.len(),
            m == pat@.len(),
            from + m <= n,
            j <= m,
            forall|t: int| 0 <= t < j ==> s@[from + t] == pat@[t],
        decreases m - j,
    {
        if s.get_char(from + j) != pat.get_char(j) {
            proof {
                assert(s@.subrange(from as int, from + m)[j as int] == s@[from + j]);
            }
            return find_text_from(s, n, pat, m, from + 1);
        }
        j = j + 1;
    }
    assert(s@.subrange(from as int, from + m) =~= pat@);
    Some(from)
}

/// The lines of `s`, as `str::lines` yields them.
fn lines(s: &str) -> (r: Vec<String>)
    ensures
        strings_view(r@) == lines_of(s@),
{
    let n = s.unicode_len();
    let mut done: Vec<String> = Vec::new();
    let mut current = String::new();
    let mut i: usize = 0;
    assert(s@.subrange(0, 0) =~= Seq::<char>::empty());
    while i < n
        invariant
            n == s@.len(),
            i <= n,
            pieces(s@.subrange(0, i as int)).len() >= 1,
            strings_view(done@).len() == pieces(s@.subrange(0, i as int)).len() - 1,
            forall|t: int|
                0 <= t < strings_view(done@).len() ==> {
                    let q = #[trigger] pieces(s@.subrange(0, i as int))[t];
                    strings_view(done@)[t] == if q.len() > 0 && q.last() == '\r' {
                        q.drop_last()
                    } else {
                        q
                    }
                },
            current@ == pieces(s@.subrange(0, i as int)).last(),
        decreases n - i,
    {
        let ghost p = pieces(s@.subrange(0, i as int));
        let c = s.get_char(i);
        proof {
            assert(s@.subrange(0, i + 1).drop_last() =~= s@.subrange(0, i as int));
            assert(s@.subrange(0, i + 1).last() == c);
        }
        if c == '\n' {
            let m = current.unicode_len();
            let line = if m > 0 && current.as_str().get_char(m - 1) == '\r' {
                string_of(current.as_str().substring_char(0, m - 1))
            } else {
                string_of(current.as_str())
            };
            proof {
                if m > 0 {
                    assert(current@.subrange(0, m - 1) =~= current@.drop_last());
                }
            }
            let ghost d0 = strings_view(done@);
            done.push(line);
            current = String::new();
            proof {
                let p2 = pieces(s@.subrange(0, i + 1));
                assert(p2 == p.push(Seq::<char>::empty()));
                assert(strings_view(done@) =~= d0.push(line@));
                assert forall|t: int| 0 <= t < strings_view(done@).len() implies {
                    let q = #[trigger] p2[t];
                    strings_view(done@)[t] == if q.len() > 0 && q.last() == '\r' {
                        q.drop_last()
                    } else {
                        q
                    }
                } by {
                    if t < d0.len() {
                        assert(p2[t] == p[t]);
                    } else {
                        assert(p2[t] == p.last());
                    }
                }
                assert(current@ =~= p2.last());
            }
        } else {
            crate::text::push_char(&mut current, c);
            proof {
                let p2 = pieces(s@.subrange(0, i + 1));
                assert forall|t: int| 0 <= t < strings_view(done@).len() implies #[trigger] p2[t] == p[t] by {}
                assert(current@ == p2.last());
            }
        }
        i = i + 1;
    }
    assert(s@.subrange(0, n as int) =~= s@);
    let ghost p = pieces(s@);
    if current.unicode_len() > 0 {
        let ghost d0 = strings_view(done@);
        done.push(current);
        proof {
            let q = p;
            assert(strings_view(done@) =~= d0.push(p.last()));
            assert(lines_of(s@).len() == q.len());
            assert forall|t: int| 0 <= t < q.len() implies #[trigger] strings_view(done@)[t] == lines_of(s@)[t] by {
                if t < q.len() - 1 {
                } else {
                }
            }
            assert(strings_view(done@) =~= lines_of(s@));
        }
    } else {
        proof {
            let q = p.drop_last();
            assert forall|t: int| 0 <= t < q.len() implies #[trigger] strings_view(done@)[t] == lines_of(s@)[t] by {
                assert(q[t] == p[t]);
            }
            assert(strings_view(done@) =~= lines_of(s@));
        }
    }
    done
}

/// The key and value of each frontmatter line.
fn pairs_of(lines: &Vec<String>) -> (r: Result<Vec<(String, String)>, SkillError>)
    ensures
        match frontmatter_pairs(strings_view(lines@)) {
            Ok(p) => (r matches Ok(v) && v@.len() == p.len() && forall|i: int|
                0 <= i < p.len() ==> (#[trigger] v@[i]).0@ == p[i].0 && v@[i].1@ == p[i].1),
            Err(f) => (r matches Err(e) && e@ == f),
        },
{
    let ghost lv = strings_view(lines@);
    let mut out: Vec<(String, String)> = Vec::new();
    let mut i: usize = 0;
    while i < lines.len()
        invariant
            i <= lines@.len(),
            lv == strings_view(lines@),
            frontmatter_pairs(lv.subrange(0, i as int)) matches Ok(p) && out@.len() == p.len() && (forall|t: int|
                0 <= t < p.len() ==> (#[trigger] out@[t]).0@ == p[t].0 && out@[t].1@ == p[t].1),
        decreases lines@.len() - i,
    {
        proof {
            assert(lv.subrange(0, i + 1).drop_last() =~= lv.subrange(0, i as int));
            assert(lv.subrange(0, i + 1).last() == lines@[i as int]@);
        }
        let line = lines[i].as_str();
        let n = line.unicode_len();
        match crate::public::find_char_from(line, n, ':', 0) {
            None => {
                proof {
                    lemma_pairs_settled(lv, i + 1, lv.len() as int);
                    assert(lv.subrange(0, lv.len() as int) =~= lv);
                }
                return Err(SkillError::InvalidFrontmatterLine(string_of(line)));
            },
            Some(c) => {
                let key = crate::text::trimmed(line.substring_char(0, c));
                let value = crate::text::trimmed(line.substring_char(c + 1, n));
                out.push((key, value));
            },
        }
        i = i + 1;
    }
    assert(lv.subrange(0, lines@.len() as int) =~= lv);
    Ok(out)
}

proof fn lemma_pairs_settled(lines: Seq<Seq<char>>, k: int, n: int)
    requires
        0 <= k <= n <= lines.len(),
        frontmatter_pairs(lines.subrange(0, k)) is Err,
    ensures
        frontmatter_pairs(lines.subrange(0, n)) == frontmatter_pairs(lines.subrange(0, k)),
    decreases n - k,
{
    if n > k {
        lemma_pairs_settled(lines, k, n - 1);
        assert(lines.subrange(0, n).drop_last() =~= lines.subrange(0, n - 1));
    }
}

/// The frontmatter of a skill document: its `key: value` lines as a map
/// kept in ascending key order, where a later line with the same key wins.
pub open spec fn frontmatter_of(text: Seq<char>) -> Result<Seq<(Seq<char>, Seq<char>)>, SkillFault> {
    match frontmatter_block(text) {
        Err(f) => Err(f),
        Ok(block) => frontmatter_pairs(lines_of(block)),
    }
}

/// The `key: value` lines of a skill document's frontmatter, in order.
pub fn frontmatter_lines(text: &str) -> (r: Result<Vec<(String, String)>, SkillError>)
    ensures
        match frontmatter_of(text@) {
            Err(f) => (r matches Err(e) && e@ == f),
            Ok(pairs) => (r matches Ok(v) && v@.len() == pairs.len() && forall|i: int|
                0 <= i < pairs.len() ==> (#[trigger] v@[i]).0@ == pairs[i].0 && v@[i].1@ == pairs[i].1),
        },
{
    proof {
        reveal_strlit("---\n");
        reveal_strlit("\n---\n");
    }
    if !crate::text::starts_with(text, "---\n") {
        return Err(SkillError::MissingFrontmatter);
    }
    let n = text.unicode_len();
    let rest = text.substring_char(4, n);
    let rn = rest.unicode_len();
    let end = match find_text_from(rest, rn, "\n---\n", 5, 0) {
        Some(k) => k,
        None => {
            return Err(SkillError::UnterminatedFrontmatter);
        },
    };
    let block = rest.substring_char(0, end);
    let ls = lines(block);
    pairs_of(&ls)
}

/// `parse_frontmatter`: the `key: value` lines between a first line `---`
/// and the next line `---`, trimmed, as a map kept in ascending key order.
pub fn parse_frontmatter(text: &str) -> (r: Result<Vec<(String, String)>, SkillError>)
    ensures
        match frontmatter_of(text@) {
            Err(f) => (r matches Err(e) && e@ == f),
            Ok(pairs) => (r matches Ok(map) && keys_ascending(input_keys(map@)) && forall|k: Seq<char>|
                #[trigger] input_value(map@, k) == last_value(pairs, k)),
        },
{
    let pairs = frontmatter_lines(text)?;
    let ghost pv = Seq::new(pairs@.len(), |i: int| (pairs@[i].0@, pairs@[i].1@));
    let mut map: Vec<(String, String)> = Vec::new();
    let mut i: usize = 0;
    assert(keys_ascending(input_keys(map@)));
    while i < pairs.len()
        invariant
            i <= pairs@.len(),
            pv == Seq::new(pairs@.len(), |i: int| (pairs@[i].0@, pairs@[i].1@)),
            keys_ascending(input_keys(map@)),
            forall|k: Seq<char>| #[trigger] input_value(map@, k) == last_value(pv.subrange(0, i as int), k),
        decreases pairs@.len() - i,
    {
        proof {
            assert(pv.subrange(0, i + 1).drop_last() =~= pv.subrange(0, i as int));
            assert(pv.subrange(0, i + 1).last() == (pairs@[i as int].0@, pairs@[i as int].1@));
        }
        set_entry(&mut map, pairs[i].0.as_str(), pairs[i].1.as_str());
        i = i + 1;
    }
    proof {
        assert(pv.subrange(0, pairs@.len() as int) =~= pv);
        let p = frontmatter_of(text@)->Ok_0;
        assert(pv =~= p);
    }
    Ok(map)
}


/// `skill_description`: the description in a skill document's frontmatter.
pub fn skill_description(text: &str) -> (r: Result<String, SkillError>)
    ensures
        match frontmatter_of(text@) {
            Err(f) => (r matches Err(e) && e@ == f),
            Ok(pairs) => match last_value(pairs, "description"@) {
                Some(d) => (r matches Ok(v) && v@ == d),
                None => (r matches Err(e) && e@ == SkillFault::NoDescription),
            },
        },
{
    let map = parse_frontmatter(text)?;
    match crate::render::lookup_entry(&map, "description") {
        Some(v) => Ok(v),
        None => Err(SkillError::NoDescription),
    }
}

/// The texts of `xs` in order, each at its first occurrence only.
pub open spec fn first_seen(xs: Seq<Seq<char>>) -> Seq<Seq<char>>
    decreases xs.len(),
{
    if xs.len() == 0 {
        Seq::empty()
    } else {
        let f = first_seen(xs.drop_last());
        if f.contains(xs.last()) {
            f
        } else {
            f.push(xs.last())
        }
    }
}

/// `first_seen_skills`: the skills that the cases name, in the order in
/// which they first occur.
pub fn first_seen_skills(cases: &Vec<Json>) -> (r: Vec<String>)
    ensures
        strings_view(r@) == first_seen(fields_among(items_view(cases@), "skill"@)),
{
    let all = fields_of(Some(cases), "skill");
    let ghost v = strings_view(all@);
    let mut out: Vec<String> = Vec::new();
    let mut i: usize = 0;
    assert(strings_view(out@) =~= first_seen(v.subrange(0, 0)));
    while i < all.len()
        invariant
            i <= all@.len(),
            v == strings_view(all@),
            strings_view(out@) == first_seen(v.subrange(0, i as int)),
        decreases all@.len() - i,
    {
        proof {
            assert(v.subrange(0, i + 1).drop_last() =~= v.subrange(0, i as int));
            assert(v.subrange(0, i + 1).last() == all@[i as int]@);
        }
        if !contains_text(&out, all[i].as_str()) {
            let ghost before = strings_view(out@);
            out.push(string_of(all[i].as_str()));
            assert(strings_view(out@) =~= before.push(all@[i as int]@));
        }
        i = i + 1;
    }
    assert(v.subrange(0, all@.len() as int) =~= v);
    out
}

/// The order in which skills are first named lists each skill once, every
/// named skill is listed, and nothing else is.
pub proof fn first_seen_lists_each_once(xs: Seq<Seq<char>>)
    ensures
        forall|i: int, j: int| 0 <= i < j < first_seen(xs).len() ==> first_seen(xs)[i] != first_seen(xs)[j],
        forall|y: Seq<char>| #[trigger] first_seen(xs).contains(y) <==> xs.contains(y),
    decreases xs.len(),
{
    if xs.len() > 0 {
        first_seen_lists_each_once(xs.drop_last());
        let f = first_seen(xs.drop_last());
        assert forall|y: Seq<char>| #[trigger] first_seen(xs).contains(y) <==> xs.contains(y) by {
            if xs.drop_last().contains(y) {
                let k = choose|k: int| 0 <= k < xs.drop_last().len() && xs.drop_last()[k] == y;
                assert(xs[k] == y);
            }
            if xs.contains(y) {
                let k = choose|k: int| 0 <= k < xs.len() && xs[k] == y;
                if k < xs.len() - 1 {
                    assert(xs.drop_last()[k] == y);
                }
            }
            if !f.contains(xs.last()) {
                let g = f.push(xs.last());
                if g.contains(y) {
                    let k = choose|k: int| 0 <= k < g.len() && g[k] == y;
                    if k < f.len() {
                        assert(f[k] == y);
                    }
                }
                if f.contains(y) {
                    let k = choose|k: int| 0 <= k < f.len() && f[k] == y;
                    assert(g[k] == y);
                }
                assert(g[f.len() as int] == xs.last());
            }
        }
        if !f.contains(xs.last()) {
            let g = f.push(xs.last());
            assert forall|i: int, j: int| 0 <= i < j < g.len() implies g[i] != g[j] by {
                if j == f.len() {
                    assert(g[i] == f[i]);
                }
            }
        }
    }
}


/// A case id: lower-case ASCII letters, digits and hyphens (`[a-z0-9-]+`).
pub open spec fn is_case_id(s: Seq<char>) -> bool {
    s.len() > 0 && forall|i: int| 0 <= i < s.len() ==> crate::text::is_key_char(#[trigger] s[i])
}

/// The answer key `values` names at least one option, and only options of
/// the case.
pub open spec fn answer_ok(values: Seq<JsonV>, option_ids: Seq<Seq<char>>) -> bool {
    values.len() > 0 && forall|i: int|
        0 <= i < values.len() ==> ((#[trigger] as_text(values[i])) matches Some(t) && option_ids.contains(t))
}

/// The first problem of an answer key (`field`) of the case `id`.
pub open spec fn answer_fault(case: JsonV, field_name: Seq<char>, id: Seq<char>, option_ids: Seq<Seq<char>>) -> Option<SkillFault> {
    match field(case, field_name) {
        Some(v) => match as_items(v) {
            Some(values) => if answer_ok(values, option_ids) {
                None
            } else {
                Some(SkillFault::BadAnswer(id, field_name))
            },
            None => Some(SkillFault::MissingAnswerKey),
        },
        None => Some(SkillFault::MissingAnswerKey),
    }
}

/// The first problem of a case, given the ids of the cases before it.
pub open spec fn case_fault(case: JsonV, seen: Seq<Seq<char>>) -> Option<SkillFault> {
    match text_of(case, "id"@) {
        None => Some(SkillFault::MissingCaseId),
        Some(id) => if !(is_case_id(id) && !seen.contains(id)) {
            Some(SkillFault::BadCaseId(id))
        } else if text_of(case, "skill"@) is None {
            Some(SkillFault::MissingCaseSkill)
        } else {
            match field(case, "options"@) {
                None => Some(SkillFault::MissingOptions),
                Some(o) => match as_items(o) {
                    None => Some(SkillFault::MissingOptions),
                    Some(options) => {
                        let ids = fields_among(options, "id"@);
                        if options.len() < 4 {
                            Some(SkillFault::FewOptions(id))
                        } else if sorted_set(ids).len() != options.len() {
                            Some(SkillFault::BadOptions(id))
                        } else {
                            match answer_fault(case, "required"@, id, ids) {
                                Some(f) => Some(f),
                                None => answer_fault(case, "forbidden"@, id, ids),
                            }
                        }
                    },
                },
            }
        },
    }
}

/// The first problem among the first `k` cases, or the ids they use.
pub open spec fn cases_scan(cases: Seq<JsonV>, k: int) -> Result<Seq<Seq<char>>, SkillFault>
    decreases k,
{
    if k <= 0 {
        Ok(Seq::empty())
    } else {
        match cases_scan(cases, k - 1) {
            Err(f) => Err(f),
            Ok(ids) => match case_fault(cases[k - 1], ids) {
                Some(f) => Err(f),
                None => Ok(ids.push(text_of(cases[k - 1], "id"@)->0)),
            },
        }
    }
}

/// Why the skill cases document is refused (`None`: it is valid for the
/// declared skills): version 1 with an instruction, a non-empty list of
/// cases, each with a unique id, a skill, at least four options with unique
/// ids, and answer keys naming only those options; and the skills first
/// named by the cases are the declared skills in order.
pub open spec fn cases_fault(document: JsonV, declared: Seq<Seq<char>>) -> Option<SkillFault> {
    if !(field(document, "schema_version"@) == Some(JsonV::UInt(1)) && text_of(document, "instruction"@) is Some) {
        Some(SkillFault::UnsupportedCases)
    } else {
        match field(document, "cases"@) {
            None => Some(SkillFault::NoCases),
            Some(c) => match as_items(c) {
                None => Some(SkillFault::NoCases),
                Some(cases) => if cases.len() == 0 {
                    Some(SkillFault::EmptyCases)
                } else {
                    match cases_scan(cases, cases.len() as int) {
                        Err(f) => Some(f),
                        Ok(_) => if first_seen(fields_among(cases, "skill"@)) != declared {
                            Some(SkillFault::Coverage)
                        } else {
                            None
                        },
                    }
                },
            },
        }
    }
}

/// Whether `s` is a case id.
fn case_id_ok(s: &str) -> (r: bool)
    ensures
        r == is_case_id(s@),
{
    let n = s.unicode_len();
    if n == 0 {
        return false;
    }
    let mut i: usize = 0;
    while i < n
        invariant
            n == s@.len(),
            i <= n,
            forall|j: int| 0 <= j < i ==> crate::text::is_key_char(#[trigger] s@[j]),
        decreases n - i,
    {
        let c = s.get_char(i);
        if !(('a' <= c && c <= 'z') || ('0' <= c && c <= '9') || c == '-') {
            return false;
        }
        i = i + 1;
    }
    true
}

/// The first problem of an answer key.
#[verifier::loop_isolation(false)]
fn check_answer(case: &Json, field_name: &str, id: &str, option_ids: &Vec<String>) -> (r: Result<(), SkillError>)
    ensures
        match answer_fault(case@, field_name@, id@, strings_view(option_ids@)) {
            None => r is Ok,
            Some(f) => (r matches Err(e) && e@ == f),
        },
{
    let values = match case.get(field_name) {
        Some(v) => match v.as_array() {
            Some(items) => items,
            None => {
                return Err(SkillError::MissingAnswerKey);
            },
        },
        None => {
            return Err(SkillError::MissingAnswerKey);
        },
    };
    proof {
        lemma_items_view(values@);
    }
    let ghost vv = items_view(values@);
    let bad = Err(SkillError::BadAnswer { id: string_of(id), field: string_of(field_name) });
    if values.len() == 0 {
        return bad;
    }
    let mut i: usize = 0;
    while i < values.len()
        invariant
            i <= values@.len(),
            vv == items_view(values@),
            vv.len() == values@.len(),
            forall|t: int| 0 <= t < values@.len() ==> #[trigger] vv[t] == values@[t]@,
            forall|t: int|
                0 <= t < i ==> ((#[trigger] as_text(vv[t])) matches Some(x) && strings_view(option_ids@).contains(x)),
        decreases values@.len() - i,
    {
        assert(vv[i as int] == values@[i as int]@);
        match values[i].as_str() {
            Some(t) => {
                if !contains_text(option_ids, t) {
                    return bad;
                }
            },
            None => {
                return bad;
            },
        }
        i = i + 1;
    }
    Ok(())
}

/// The first problem of a case, given the ids of the cases before it.
fn check_case(case: &Json, seen: &Vec<String>) -> (r: Result<String, SkillError>)
    ensures
        match case_fault(case@, strings_view(seen@)) {
            None => (r matches Ok(id) && text_of(case@, "id"@) == Some(id@)),
            Some(f) => (r matches Err(e) && e@ == f),
        },
{
    let id = match text_field_of(case, "id") {
        Some(t) => t,
        None => {
            return Err(SkillError::MissingCaseId);
        },
    };
    if !(case_id_ok(id) && !contains_text(seen, id)) {
        return Err(SkillError::BadCaseId(string_of(id)));
    }
    if text_field_of(case, "skill").is_none() {
        return Err(SkillError::MissingCaseSkill);
    }
    let options = match case.get("options") {
        Some(o) => match o.as_array() {
            Some(items) => items,
            None => {
                return Err(SkillError::MissingOptions);
            },
        },
        None => {
            return Err(SkillError::MissingOptions);
        },
    };
    proof {
        lemma_items_view(options@);
    }
    let ids = fields_of(Some(options), "id");
    if options.len() < 4 {
        return Err(SkillError::FewOptions(string_of(id)));
    }
    if sorted_texts(&ids).len() != options.len() {
        return Err(SkillError::BadOptions(string_of(id)));
    }
    check_answer(case, "required", id, &ids)?;
    check_answer(case, "forbidden", id, &ids)?;
    Ok(string_of(id))
}

/// `validate_cases`: the skill cases document is valid for the declared
/// skills (see `cases_fault`).
#[verifier::loop_isolation(false)]
pub fn validate_cases(document: &Json, declared: &Vec<String>) -> (r: Result<(), SkillError>)
    ensures
        match cases_fault(document@, strings_view(declared@)) {
            None => r is Ok,
            Some(f) => (r matches Err(e) && e@ == f),
        },
{
    let version_ok = match document.get("schema_version") {
        Some(v) => match v {
            Json::UInt(n) => *n == 1,
            _ => false,
        },
        None => false,
    };
    if !(version_ok && text_field_of(document, "instruction").is_some()) {
        return Err(SkillError::UnsupportedCases);
    }
    let cases = match document.get("cases") {
        Some(c) => match c.as_array() {
            Some(items) => items,
            None => {
                return Err(SkillError::NoCases);
            },
        },
        None => {
            return Err(SkillError::NoCases);
        },
    };
    if cases.len() == 0 {
        return Err(SkillError::EmptyCases);
    }
    proof {
        lemma_items_view(cases@);
    }
    let ghost cv = items_view(cases@);
    let mut seen: Vec<String> = Vec::new();
    let mut i: usize = 0;
    assert(strings_view(seen@) =~= Seq::<Seq<char>>::empty());
    while i < cases.len()
        invariant
            i <= cases@.len(),
            cv == items_view(cases@),
            cv.len() == cases@.len(),
            forall|t: int| 0 <= t < cases@.len() ==> #[trigger] cv[t] == cases@[t]@,
            cases_scan(cv, i as int) == Ok::<Seq<Seq<char>>, SkillFault>(strings_view(seen@)),
        decreases cases@.len() - i,
    {
        assert(cv[i as int] == cases@[i as int]@);
        match check_case(&cases[i], &seen) {
            Ok(id) => {
                let ghost before = strings_view(seen@);
                seen.push(id);
                assert(strings_view(seen@) =~= before.push(text_of(cv[i as int], "id"@)->0));
            },
            Err(e) => {
                proof {
                    lemma_scan_settled(cv, i + 1, cv.len() as int);
                }
                return Err(e);
            },
        }
        i = i + 1;
    }
    let first = first_seen_skills(cases);
    let mut same = first.len() == declared.len();
    proof {
        if !same {
            assert(strings_view(first@).len() != strings_view(declared@).len());
        }
    }
    let mut j: usize = 0;
    while same && j < first.len()
        invariant
            j <= first@.len(),
            same ==> first@.len() == declared@.len(),
            same ==> forall|t: int| 0 <= t < j ==> first@[t]@ == declared@[t]@,
            !same ==> strings_view(first@) != strings_view(declared@),
        decreases first@.len() - j,
    {
        if !crate::text::same_text(first[j].as_str(), declared[j].as_str()) {
            same = false;
            assert(strings_view(first@)[j as int] != strings_view(declared@)[j as int]);
        }
        j = j + 1;
    }
    if !same {
        return Err(SkillError::Coverage);
    }
    assert(strings_view(first@) =~= strings_view(declared@));
    Ok(())
}

proof fn lemma_scan_settled(cases: Seq<JsonV>, k: int, n: int)
    requires
        0 <= k <= n,
        cases_scan(cases, k) is Err,
    ensures
        cases_scan(cases, n) == cases_scan(cases, k),
    decreases n - k,
{
    if n > k {
        lemma_scan_settled(cases, k, n - 1);
    }
}


/// The skills that the manifest declares, or why they are refused: a
/// non-empty array of texts without repeats.
pub open spec fn declared_of(manifest: JsonV) -> Result<Seq<Seq<char>>, SkillFault> {
    match field(manifest, "skills"@) {
        None => Err(SkillFault::NoSkillList),
        Some(s) => match as_items(s) {
            None => Err(SkillFault::NoSkillList),
            Some(items) => if exists|i: int| 0 <= i < items.len() && (#[trigger] as_text(items[i])) is None {
                Err(SkillFault::SkillNameNotText)
            } else if items.len() == 0 || has_repeat(texts_among(items)) {
                Err(SkillFault::BadSkillList)
            } else {
                Ok(texts_among(items))
            },
        },
    }
}

/// The skills that the manifest `ccvl.json` declares.
#[verifier::loop_isolation(false)]
pub fn declared_skills(manifest: &Json) -> (r: Result<Vec<String>, SkillError>)
    ensures
        match declared_of(manifest@) {
            Ok(d) => (r matches Ok(v) && strings_view(v@) == d),
            Err(f) => (r matches Err(e) && e@ == f),
        },
{
    let items = match manifest.get("skills") {
        Some(x) => match x.as_array() {
            Some(items) => items,
            None => {
                return Err(SkillError::NoSkillList);
            },
        },
        None => {
            return Err(SkillError::NoSkillList);
        },
    };
    proof {
        lemma_items_view(items@);
    }
    let ghost iv = items_view(items@);
    let mut i: usize = 0;
    while i < items.len()
        invariant
            i <= items@.len(),
            iv == items_view(items@),
            iv.len() == items@.len(),
            forall|t: int| 0 <= t < items@.len() ==> #[trigger] iv[t] == items@[t]@,
            forall|t: int| 0 <= t < i ==> (#[trigger] as_text(iv[t])) is Some,
        decreases items@.len() - i,
    {
        assert(iv[i as int] == items@[i as int]@);
        if items[i].as_str().is_none() {
            return Err(SkillError::SkillNameNotText);
        }
        i = i + 1;
    }
    let declared = texts_of(Some(items));
    if items.len() == 0 || repeats(&declared) {
        return Err(SkillError::BadSkillList);
    }
    Ok(declared)
}

/// Two lists hold the same texts.
pub open spec fn same_texts(a: Seq<Seq<char>>, b: Seq<Seq<char>>) -> bool {
    forall|x: Seq<char>| #[trigger] a.contains(x) <==> b.contains(x)
}

/// Whether two lists hold the same texts.
fn same_text_sets(a: &Vec<String>, b: &Vec<String>) -> (r: bool)
    ensures
        r == same_texts(strings_view(a@), strings_view(b@)),
{
    let ghost av = strings_view(a@);
    let ghost bv = strings_view(b@);
    let mut i: usize = 0;
    while i < a.len()
        invariant
            i <= a@.len(),
            av == strings_view(a@),
            bv == strings_view(b@),
            forall|t: int| 0 <= t < i ==> bv.contains(#[trigger] av[t]),
        decreases a@.len() - i,
    {
        if !contains_text(b, a[i].as_str()) {
            assert(av.contains(av[i as int]));
            return false;
        }
        i = i + 1;
    }
    let mut j: usize = 0;
    while j < b.len()
        invariant
            j <= b@.len(),
            av == strings_view(a@),
            bv == strings_view(b@),
            forall|t: int| 0 <= t < a@.len() ==> bv.contains(#[trigger] av[t]),
            forall|t: int| 0 <= t < j ==> av.contains(#[trigger] bv[t]),
        decreases b@.len() - j,
    {
        if !contains_text(a, b[j].as_str()) {
            assert(bv.contains(bv[j as int]));
            return false;
        }
        j = j + 1;
    }
    proof {
        assert forall|x: Seq<char>| #[trigger] av.contains(x) <==> bv.contains(x) by {
            if av.contains(x) {
                let t = choose|t: int| 0 <= t < av.len() && av[t] == x;
                assert(bv.contains(av[t]));
            }
            if bv.contains(x) {
                let t = choose|t: int| 0 <= t < bv.len() && bv[t] == x;
                assert(av.contains(bv[t]));
            }
        }
    }
    true
}

/// Checks that the declared skills, the canonical skills and their
/// discovery adapters name the same skills.
pub fn validate_skill_sets(declared: &Vec<String>, canonical: &Vec<String>, adapters: &Vec<String>) -> (r: Result<
    (),
    SkillError,
>)
    ensures
        !same_texts(strings_view(declared@), strings_view(canonical@)) ==> (r matches Err(e) && e@
            == SkillFault::ManifestMismatch),
        same_texts(strings_view(declared@), strings_view(canonical@)) && !same_texts(
            strings_view(canonical@),
            strings_view(adapters@),
        ) ==> (r matches Err(e) && e@ == SkillFault::AdapterMismatch),
        r is Ok <==> same_texts(strings_view(declared@), strings_view(canonical@)) && same_texts(
            strings_view(canonical@),
            strings_view(adapters@),
        ),
{
    if !same_text_sets(declared, canonical) {
        return Err(SkillError::ManifestMismatch);
    }
    if !same_text_sets(canonical, adapters) {
        return Err(SkillError::AdapterMismatch);
    }
    Ok(())
}

/// How many times `pat` occurs in `s` from `from` on, counted left to right
/// without overlaps.
pub open spec fn count_text(s: Seq<char>, pat: Seq<char>, from: int) -> nat
    decreases s.len() - from,
{
    match find_text(s, pat, from) {
        Some(k) => if pat.len() > 0 && from < k + pat.len() <= s.len() {
            1 + count_text(s, pat, k + pat.len())
        } else {
            0
        },
        None => 0,
    }
}

/// A skill name: 1–64 lower-case ASCII letters, digits and hyphens.
pub open spec fn is_skill_name(s: Seq<char>) -> bool {
    is_case_id(s) && s.len() <= 64
}

/// The canonical skill document of `name`.
pub open spec fn canonical_path(name: Seq<char>) -> Seq<char> {
    ".agents/skills/"@ + name + "/SKILL.md"@
}

/// The reference that an adapter makes to its canonical skill.
pub open spec fn canonical_reference(name: Seq<char>) -> Seq<char> {
    "../../../.agents/skills/"@ + name + "/SKILL.md"@
}

/// Why the skill `name` is refused, given its canonical document and its
/// discovery adapter read from `adapter_at` (`None`: both are valid): the canonical frontmatter holds exactly
/// its name and a description; the name follows the name grammar; the
/// description is not empty and at most 1024 bytes; the adapter's
/// frontmatter holds the name and a non-empty description; and the adapter
/// references the canonical document exactly once.
pub open spec fn skill_fault(name: Seq<char>, canonical: Seq<char>, adapter_at: Seq<char>, adapter: Seq<char>) -> Option<SkillFault> {
    match frontmatter_of(canonical) {
        Err(f) => Some(f),
        Ok(pairs) => {
            let keys = sorted_set(Seq::new(pairs.len(), |i: int| pairs[i].0));
            if !(last_value(pairs, "name"@) == Some(name) && keys.len() == 2 && last_value(pairs, "description"@) is Some) {
                Some(SkillFault::InvalidCanonicalFrontmatter(canonical_path(name)))
            } else if !is_skill_name(name) {
                Some(SkillFault::InvalidSkillName(canonical_path(name)))
            } else {
                let d = last_value(pairs, "description"@)->0;
                if !(d.len() > 0 && vstd::utf8::encode_utf8(d).len() <= 1024) {
                    Some(SkillFault::InvalidDescription(canonical_path(name)))
                } else {
                    match frontmatter_of(adapter) {
                        Err(f) => Some(f),
                        Ok(ap) => if !(last_value(ap, "name"@) == Some(name) && (last_value(ap, "description"@) matches Some(ad) && ad.len() > 0)) {
                            Some(SkillFault::InvalidAdapterFrontmatter(adapter_at))
                        } else if count_text(adapter, canonical_reference(name), 0) != 1 {
                            Some(SkillFault::AdapterReference(adapter_at))
                        } else {
                            None
                        },
                    }
                }
            }
        },
    }
}


/// The value that the last pair with key `key` gives.
fn last_value_of(pairs: &Vec<(String, String)>, key: &str) -> (r: Option<String>)
    ensures
        match last_value(Seq::new(pairs@.len(), |i: int| (pairs@[i].0@, pairs@[i].1@)), key@) {
            Some(v) => (r matches Some(x) && x@ == v),
            None => r is None,
        },
{
    let ghost pv = Seq::new(pairs@.len(), |i: int| (pairs@[i].0@, pairs@[i].1@));
    let mut i: usize = pairs.len();
    assert(pv.subrange(0, pairs@.len() as int) =~= pv);
    while i > 0
        invariant
            i <= pairs@.len(),
            pv == Seq::new(pairs@.len(), |i: int| (pairs@[i].0@, pairs@[i].1@)),
            last_value(pv, key@) == last_value(pv.subrange(0, i as int), key@),
        decreases i,
    {
        proof {
            assert(pv.subrange(0, i as int).drop_last() =~= pv.subrange(0, i - 1));
            assert(pv.subrange(0, i as int).last() == pv[i - 1]);
        }
        if crate::text::same_text(pairs[i - 1].0.as_str(), key) {
            return Some(string_of(pairs[i - 1].1.as_str()));
        }
        i = i - 1;
    }
    None
}

/// How many times `pat` occurs in `s` from `from` on, without overlaps.
fn count_occurrences(s: &str, n: usize, pat: &str, m: usize, from: usize) -> (r: usize)
    requires
        n == s@.len(),
        m == pat@.len(),
        m > 0,
        from <= n,
    ensures
        r == count_text(s@, pat@, from as int),
        r <= n - from,
    decreases n - from,
{
    match find_text_from(s, n, pat, m, from) {
        Some(k) => {
            let rest = count_occurrences(s, n, pat, m, k + m);
            rest + 1
        },
        None => 0,
    }
}

/// The pairs as texts.
pub open spec fn pairs_view(v: Seq<(String, String)>) -> Seq<(Seq<char>, Seq<char>)> {
    Seq::new(v.len(), |i: int| (v[i].0@, v[i].1@))
}

/// Checks the skill `name`: its canonical document and its discovery
/// adapter, read from `adapter_at` (see `skill_fault`).
pub fn validate_skill(name: &str, canonical: &str, adapter_at: &str, adapter: &str) -> (r: Result<(), SkillError>)
    ensures
        match skill_fault(name@, canonical@, adapter_at@, adapter@) {
            None => r is Ok,
            Some(f) => (r matches Err(e) && e@ == f),
        },
{
    let mut canonical_at = string_of(".agents/skills/");
    push_str(&mut canonical_at, name);
    push_str(&mut canonical_at, "/SKILL.md");
    let pairs = frontmatter_lines(canonical)?;
    let ghost pv = pairs_view(pairs@);
    assert(pv =~= frontmatter_of(canonical@)->Ok_0);
    let mut keys: Vec<String> = Vec::new();
    let mut i: usize = 0;
    while i < pairs.len()
        invariant
            i <= pairs@.len(),
            keys@.len() == i,
            forall|t: int| 0 <= t < i ==> #[trigger] keys@[t]@ == pairs@[t].0@,
        decreases pairs@.len() - i,
    {
        keys.push(string_of(pairs[i].0.as_str()));
        i = i + 1;
    }
    assert(strings_view(keys@) =~= Seq::new(pv.len(), |i: int| pv[i].0));
    let distinct = sorted_texts(&keys).len();
    let declared_name = last_value_of(&pairs, "name");
    let description = last_value_of(&pairs, "description");
    let name_ok = match &declared_name {
        Some(n) => crate::text::same_text(n.as_str(), name),
        None => false,
    };
    if !(name_ok && distinct == 2 && description.is_some()) {
        return Err(SkillError::InvalidCanonicalFrontmatter(canonical_at));
    }
    if !(case_id_ok(name) && name.unicode_len() <= 64) {
        return Err(SkillError::InvalidSkillName(canonical_at));
    }
    let d = match description {
        Some(d) => d,
        None => {
            return Err(SkillError::InvalidCanonicalFrontmatter(canonical_at));
        },
    };
    if !(d.as_str().unicode_len() > 0 && bytes_at_most(d.as_str(), 1024)) {
        return Err(SkillError::InvalidDescription(canonical_at));
    }
    proof {
        assert(frontmatter_of(canonical@) == Ok::<Seq<(Seq<char>, Seq<char>)>, SkillFault>(pv));
        assert(last_value(pv, "name"@) == Some(name@));
        assert(sorted_set(Seq::new(pv.len(), |i: int| pv[i].0)).len() == 2);
        assert(last_value(pv, "description"@) is Some);
        assert(is_skill_name(name@));
        assert(d@ == last_value(pv, "description"@)->0);
        assert(d@.len() > 0 && vstd::utf8::encode_utf8(d@).len() <= 1024);
    }
    let adapter_pairs = frontmatter_lines(adapter)?;
    assert(pairs_view(adapter_pairs@) =~= frontmatter_of(adapter@)->Ok_0);
    let adapter_name = last_value_of(&adapter_pairs, "name");
    let adapter_description = last_value_of(&adapter_pairs, "description");
    let adapter_ok = match &adapter_name {
        Some(n) => crate::text::same_text(n.as_str(), name),
        None => false,
    } && match &adapter_description {
        Some(x) => x.as_str().unicode_len() > 0,
        None => false,
    };
    if !adapter_ok {
        return Err(SkillError::InvalidAdapterFrontmatter(string_of(adapter_at)));
    }
    let mut reference = string_of("../../../.agents/skills/");
    push_str(&mut reference, name);
    push_str(&mut reference, "/SKILL.md");
    proof {
        reveal_strlit("../../../.agents/skills/");
        reveal_strlit("/SKILL.md");
    }
    let count = count_occurrences(adapter, adapter.unicode_len(), reference.as_str(), reference.as_str().unicode_len(), 0);
    if count != 1 {
        return Err(SkillError::AdapterReference(string_of(adapter_at)));
    }
    Ok(())
}


proof fn lemma_encode_concat(a: Seq<char>, b: Seq<char>)
    ensures
        vstd::utf8::encode_utf8(a + b) == vstd::utf8::encode_utf8(a) + vstd::utf8::encode_utf8(b),
    decreases a.len(),
{
    if a.len() == 0 {
        assert(a + b =~= b);
        assert(vstd::utf8::encode_utf8(a) =~= Seq::<u8>::empty());
        assert(Seq::<u8>::empty() + vstd::utf8::encode_utf8(b) =~= vstd::utf8::encode_utf8(b));
    } else {
        lemma_encode_concat(a.drop_first(), b);
        assert((a + b).drop_first() =~= a.drop_first() + b);
        assert((a + b)[0] == a[0]);
        let e0 = vstd::utf8::encode_scalar(a[0] as u32);
        assert(e0 + (vstd::utf8::encode_utf8(a.drop_first()) + vstd::utf8::encode_utf8(b)) =~= (e0
            + vstd::utf8::encode_utf8(a.drop_first())) + vstd::utf8::encode_utf8(b));
    }
}

/// The UTF-8 encoding of `s` takes at most `limit` bytes.
fn bytes_at_most(s: &str, limit: usize) -> (r: bool)
    ensures
        r == (vstd::utf8::encode_utf8(s@).len() <= limit),
{
    let n = s.unicode_len();
    let mut total: usize = 0;
    let mut i: usize = 0;
    assert(s@.subrange(0, 0) =~= Seq::<char>::empty());
    assert(vstd::utf8::encode_utf8(Seq::<char>::empty()) =~= Seq::<u8>::empty());
    while i < n
        invariant
            n == s@.len(),
            i <= n,
            total <= limit,
            total == vstd::utf8::encode_utf8(s@.subrange(0, i as int)).len(),
        decreases n - i,
    {
        let c = s.get_char(i);
        let v = c as u32;
        let w: usize = if v <= 0x7f {
            1
        } else if v <= 0x7ff {
            2
        } else if v <= 0xffff {
            3
        } else {
            4
        };
        proof {
            let one = seq![c];
            assert(s@.subrange(0, i + 1) =~= s@.subrange(0, i as int) + one);
            lemma_encode_concat(s@.subrange(0, i as int), one);
            assert(one.drop_first() =~= Seq::<char>::empty());
            assert(one[0] == c);
            assert(vstd::utf8::encode_utf8(one.drop_first()) =~= Seq::<u8>::empty());
            assert(vstd::utf8::encode_utf8(one) == vstd::utf8::encode_scalar(c as u32) + vstd::utf8::encode_utf8(
                one.drop_first(),
            ));
            assert(vstd::utf8::encode_utf8(one) =~= vstd::utf8::encode_scalar(c as u32));
            assert(vstd::utf8::encode_scalar(c as u32).len() == w);
        }
        if w > limit - total {
            proof {
                lemma_encode_prefix_grows(s@, i + 1);
            }
            return false;
        }
        total = total + w;
        i = i + 1;
    }
    assert(s@.subrange(0, n as int) =~= s@);
    true
}

proof fn lemma_encode_prefix_grows(s: Seq<char>, k: int)
    requires
        0 <= k <= s.len(),
    ensures
        vstd::utf8::encode_utf8(s.subrange(0, k)).len() <= vstd::utf8::encode_utf8(s).len(),
{
    lemma_encode_concat(s.subrange(0, k), s.subrange(k, s.len() as int));
    assert(s.subrange(0, k) + s.subrange(k, s.len() as int) =~= s);
}


/// A canonical frontmatter that the checks accept for the skill `name`:
/// exactly the keys `name` (the skill's) and `description`, a valid name,
/// and a description of 1 to 1024 bytes.
pub open spec fn canonical_valid(name: Seq<char>, pairs: Seq<(Seq<char>, Seq<char>)>) -> bool {
    &&& last_value(pairs, "name"@) == Some(name)
    &&& sorted_set(Seq::new(pairs.len(), |i: int| pairs[i].0)).len() == 2
    &&& last_value(pairs, "description"@) is Some
    &&& last_value(pairs, "description"@)->0.len() > 0
    &&& vstd::utf8::encode_utf8(last_value(pairs, "description"@)->0).len() <= 1024
    &&& is_skill_name(name)
}

/// A skill passes only when its discovery adapter's frontmatter names that
/// same skill and gives a non-empty description: an adapter whose
/// frontmatter names another skill, or none, makes the skill fail.
pub proof fn adapter_names_its_skill(name: Seq<char>, canonical: Seq<char>, adapter_at: Seq<char>, adapter: Seq<char>)
    ensures
        skill_fault(name, canonical, adapter_at, adapter) is None ==> (frontmatter_of(adapter) matches Ok(
            ap,
        ) && last_value(ap, "name"@) == Some(name) && (last_value(ap, "description"@) matches Some(d)
            && d.len() > 0)),
        (frontmatter_of(adapter) matches Ok(ap) && last_value(ap, "name"@) != Some(name)) ==> skill_fault(
            name,
            canonical,
            adapter_at,
            adapter,
        ) is Some,
        (frontmatter_of(adapter) is Ok && last_value(frontmatter_of(adapter)->Ok_0, "name"@) != Some(name)
            && frontmatter_of(canonical) is Ok && canonical_valid(name, frontmatter_of(canonical)->Ok_0))
            ==> skill_fault(name, canonical, adapter_at, adapter) == Some(
            SkillFault::InvalidAdapterFrontmatter(adapter_at),
        ),
{
}


proof fn lemma_evaluation_fields(passed: bool, errors: Seq<Seq<char>>, results: Seq<JsonV>)
    ensures
        field(evaluation_json(passed, errors, results), "errors"@) == Some(text_array(errors)),
        field(evaluation_json(passed, errors, results), "results"@) == Some(JsonV::Array(results)),
        field(evaluation_json(passed, errors, results), "status"@) == Some(
            JsonV::Str(
                if passed {
                    "passed"@
                } else {
                    "failed"@
                },
            ),
        ),
        "passed"@ != "failed"@,
{
    reveal_strlit("errors");
    reveal_strlit("results");
    reveal_strlit("status");
    reveal_strlit("passed");
    reveal_strlit("failed");
    reveal_with_fuel(crate::json::entry_index, 4);
    assert("errors"@ != "results"@) by {
        assert("errors"@[0] != "results"@[0]);
    }
    assert("errors"@ != "status"@) by {
        assert("errors"@[0] != "status"@[0]);
    }
    assert("results"@ != "status"@) by {
        assert("results"@[0] != "status"@[0]);
    }
    assert("passed"@ != "failed"@) by {
        assert("passed"@[0] != "failed"@[0]);
    }
    let e = seq![
        ("errors"@, text_array(errors)),
        ("results"@, JsonV::Array(results)),
        ("status"@, JsonV::Str(if passed { "passed"@ } else { "failed"@ })),
    ];
    assert(e.drop_last().drop_last().drop_last() =~= Seq::<(Seq<char>, JsonV)>::empty());
    assert(e.drop_last().drop_last().last() == e[0]);
    assert(e.drop_last().last() == e[1]);
}

proof fn lemma_report_passed(r: CaseReport)
    ensures
        field(report_json(r), "passed"@) == Some(JsonV::Bool(r.errors.len() == 0)),
{
    reveal_strlit("case_id");
    reveal_strlit("errors");
    reveal_strlit("passed");
    reveal_with_fuel(crate::json::entry_index, 8);
    assert("case_id"@ != "passed"@) by {
        assert("case_id"@[0] != "passed"@[0]);
    }
    assert("errors"@ != "passed"@) by {
        assert("errors"@[0] != "passed"@[0]);
    }
    let e = seq![
        ("case_id"@, JsonV::Str(r.case_id)),
        ("errors"@, text_array(r.errors)),
        ("passed"@, JsonV::Bool(r.errors.len() == 0)),
        ("reason"@, JsonV::Str(r.reason)),
        ("selected"@, text_array(r.selected)),
        ("selected_skill"@, JsonV::Str(r.selected_skill)),
        ("skill"@, JsonV::Str(r.skill)),
    ];
    let p3 = e.subrange(0, 3);
    assert(p3.drop_last().drop_last().drop_last() =~= Seq::<(Seq<char>, JsonV)>::empty());
    assert(crate::json::entry_index(p3, "passed"@) == Some(2int)) by {
        assert(p3.drop_last().drop_last().last() == e[0]);
        assert(p3.drop_last().last() == e[1]);
        assert(p3.last() == e[2]);
    }
    lemma_entry_index_prefix(e, "passed"@, 3);
}

proof fn lemma_entry_index_prefix(e: Seq<(Seq<char>, JsonV)>, key: Seq<char>, n: int)
    requires
        0 <= n <= e.len(),
        crate::json::entry_index(e.subrange(0, n), key) is Some,
    ensures
        crate::json::entry_index(e, key) == crate::json::entry_index(e.subrange(0, n), key),
    decreases e.len() - n,
{
    if n < e.len() {
        assert(e.subrange(0, n + 1).drop_last() =~= e.subrange(0, n));
        lemma_entry_index_prefix(e, key, n + 1);
    } else {
        assert(e.subrange(0, n) =~= e);
    }
}

proof fn lemma_clean_decisions(decisions: Seq<JsonV>, ids: Seq<Seq<char>>, k: int)
    requires
        0 <= k <= decisions.len(),
        decision_errors(decisions, ids, k).len() == 0,
    ensures
        forall|i: int|
            0 <= i < k ==> (#[trigger] valid_decision(decisions[i], ids)) is Some && !decided_before(
                decisions,
                ids,
                valid_decision(decisions[i], ids)->0,
                i,
            ),
    decreases k,
{
    if k > 0 {
        let rest = decision_errors(decisions, ids, k - 1);
        assert(rest.len() == 0);
        lemma_clean_decisions(decisions, ids, k - 1);
    }
}

/// An evaluation passes only when nothing went wrong: its status is
/// `passed` only when its errors list is empty, the response holds a
/// `decisions` array in which every decision is an object naming a known
/// case once (a decision that is not an object, names an unknown case, or
/// repeats a case always makes the status `failed`), and every case result
/// passed.
pub proof fn evaluation_passes_only_when_clean(cases: Seq<JsonV>, response: JsonV)
    ensures
        field(evaluation(cases, response), "status"@) == Some(JsonV::Str("passed"@)) ==> {
            let ev = evaluation(cases, response);
            &&& field(ev, "errors"@) == Some(JsonV::Array(Seq::empty()))
            &&& field(response, "decisions"@) is Some
            &&& as_items(field(response, "decisions"@)->0) is Some
            &&& forall|i: int|
                0 <= i < list_field(response, "decisions"@).len() ==> {
                    &&& as_entries(list_field(response, "decisions"@)[i]) is Some
                    &&& (#[trigger] valid_decision(
                        list_field(response, "decisions"@)[i],
                        fields_among(cases, "id"@),
                    )) is Some
                    &&& fields_among(cases, "id"@).contains(
                        text_of(list_field(response, "decisions"@)[i], "case_id"@)->0,
                    )
                    &&& !decided_before(
                        list_field(response, "decisions"@),
                        fields_among(cases, "id"@),
                        valid_decision(list_field(response, "decisions"@)[i], fields_among(cases, "id"@))->0,
                        i,
                    )
                }
            &&& field(ev, "results"@) is Some
            &&& field(ev, "results"@)->0 is Array
            &&& forall|j: int|
                0 <= j < field(ev, "results"@)->0->Array_0.len() ==> field(
                    #[trigger] field(ev, "results"@)->0->Array_0[j],
                    "passed"@,
                ) == Some(JsonV::Bool(true))
        },
{
    let ev = evaluation(cases, response);
    match field(response, "decisions"@) {
        Some(ds) => match as_items(ds) {
            Some(decisions) => {
                let ids = fields_among(cases, "id"@);
                let errors = decision_errors(decisions, ids, decisions.len() as int);
                let reports = Seq::new(
                    cases.len(),
                    |i: int|
                        case_report(
                            cases[i],
                            decision_for(
                                decisions,
                                ids,
                                text_or_empty(cases[i], "id"@),
                                decisions.len() as int,
                            ),
                        ),
                );
                let passed = errors.len() == 0 && forall|i: int|
                    0 <= i < reports.len() ==> (#[trigger] reports[i]).errors.len() == 0;
                let results = Seq::new(reports.len(), |i: int| report_json(reports[i]));
                assert(ev == evaluation_json(passed, errors, results));
                lemma_evaluation_fields(passed, errors, results);
                if passed {
                    assert(text_array(errors) =~= JsonV::Array(Seq::empty())) by {
                        assert(text_array(errors)->Array_0 =~= Seq::<JsonV>::empty());
                    }
                    lemma_clean_decisions(decisions, ids, decisions.len() as int);
                    assert forall|j: int| 0 <= j < results.len() implies field(
                        #[trigger] results[j],
                        "passed"@,
                    ) == Some(JsonV::Bool(true)) by {
                        lemma_report_passed(reports[j]);
                        assert(reports[j].errors.len() == 0);
                    }
                }
            },
            None => {
                lemma_evaluation_fields(false, seq!["response must contain a decisions array"@], Seq::empty());
            },
        },
        None => {
            lemma_evaluation_fields(false, seq!["response must contain a decisions array"@], Seq::empty());
        },
    }
}


/// A skill passes only when its canonical frontmatter is valid for it
/// (exactly its name and a description of 1 to 1024 bytes, under a valid
/// name) and its adapter references the canonical document exactly once.
pub proof fn passing_skill_is_canonical_and_referenced(
    name: Seq<char>,
    canonical: Seq<char>,
    adapter_at: Seq<char>,
    adapter: Seq<char>,
)
    ensures
        skill_fault(name, canonical, adapter_at, adapter) is None ==> (frontmatter_of(canonical) is Ok
            && canonical_valid(name, frontmatter_of(canonical)->Ok_0) && count_text(
            adapter,
            canonical_reference(name),
            0,
        ) == 1),
{
}

} // verus!
