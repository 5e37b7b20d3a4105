//! Document specifications: what to compile, with which inputs, into which
//! output, with how many pages.
//!
//! CVs come in two-, three- and four-page presets; cover letters have one
//! page. Locales are `de-ch` and `en-ch`. The inputs handed to Typst are a
//! map from names to values, kept here as a list in ascending key order.
use vstd::prelude::*;

use crate::application::{
    checked_line_contracts, contracts_defined, contracts_fault, json_at, opt_view, u64_at,
    value_at, int_at, ContractError, Fault, Ptr,
};
use crate::json::{as_bool, as_text, field, Json, JsonV};
use crate::opportunity::{
    is_record_key, output_relative, record_path, record_relative, OpportunityError,
};
use crate::text::{decimal, push_decimal, push_str, string_of};
use crate::workspace::{forward_slashes, is_within, join, relative_to, Workspace, WorkspaceError};

verus! {

/// The two kinds of document.
#[derive(Clone, Copy, Debug, PartialEq, Eq, Structural)]
pub enum DocumentKind {
    Cv,
    CoverLetter,
}

/// What to compile and where to put it.
#[derive(Debug)]
pub struct DocumentSpec {
    pub name: String,
    pub kind: DocumentKind,
    pub source: String,
    pub output: String,
    pub inputs: Vec<(String, String)>,
    pub expected_pages: usize,
}

/// Why a document specification could not be made.
#[derive(Debug)]
pub enum RenderError {
    UnsupportedLocale(String),
    BadPages(usize),
    Path(WorkspaceError),
    /// An opportunity key breaks the key grammar.
    Opportunity(OpportunityError),
    /// The record breaks its line contracts.
    Contract(ContractError),
    /// The exported bytes of the named document are not a PDF.
    NotPdf(String),
}

/// Lexicographic order of texts by code point, the order of `String` keys.
pub open spec fn text_less(a: Seq<char>, b: Seq<char>) -> bool
    decreases a.len(),
{
    if a.len() == 0 {
        b.len() > 0
    } else if b.len() == 0 {
        false
    } else if a[0] != b[0] {
        (a[0] as int) < (b[0] as int)
    } else {
        text_less(a.drop_first(), b.drop_first())
    }
}

/// The keys of an input list, in order.
pub open spec fn input_keys(inputs: Seq<(String, String)>) -> Seq<Seq<char>> {
    Seq::new(inputs.len(), |i: int| inputs[i].0@)
}

/// The keys ascend strictly, so each occurs once.
pub open spec fn keys_ascending(keys: Seq<Seq<char>>) -> bool {
    forall|i: int, j: int| 0 <= i < j < keys.len() ==> text_less(keys[i], keys[j])
}

/// The value of input `key`, if any.
pub open spec fn input_value(inputs: Seq<(String, String)>, key: Seq<char>) -> Option<Seq<char>>
    decreases inputs.len(),
{
    if inputs.len() == 0 {
        None
    } else {
        match input_value(inputs.drop_last(), key) {
            Some(v) => Some(v),
            None => if inputs.last().0@ == key {
                Some(inputs.last().1@)
            } else {
                None
            },
        }
    }
}

proof fn lemma_absent_key(inputs: Seq<(String, String)>, k: Seq<char>)
    requires
        forall|i: int| 0 <= i < inputs.len() ==> inputs[i].0@ != k,
    ensures
        input_value(inputs, k) is None,
    decreases inputs.len(),
{
    if inputs.len() > 0 {
        lemma_absent_key(inputs.drop_last(), k);
    }
}

/// The value of entry `key`, if any.
pub fn lookup_entry(entries: &Vec<(String, String)>, key: &str) -> (r: Option<String>)
    ensures
        r matches Some(v) ==> input_value(entries@, key@) == Some(v@),
        r is None ==> input_value(entries@, key@) is None,
{
    let mut i: usize = 0;
    assert(entries@.subrange(0, 0) =~= Seq::<(String, String)>::empty());
    while i < entries.len()
        invariant
            i <= entries@.len(),
            input_value(entries@.subrange(0, i as int), key@) is None,
        decreases entries@.len() - i,
    {
        proof {
            assert(entries@.subrange(0, i + 1).drop_last() =~= entries@.subrange(0, i as int));
        }
        if crate::text::same_text(entries[i].0.as_str(), key) {
            proof {
                assert(input_value(entries@.subrange(0, i + 1), key@) == Some(entries@[i as int].1@));
                lemma_input_value_extend(entries@, i + 1, key@);
            }
            return Some(string_of(entries[i].1.as_str()));
        }
        i = i + 1;
    }
    assert(entries@.subrange(0, entries@.len() as int) =~= entries@);
    None
}

proof fn lemma_input_value_extend(entries: Seq<(String, String)>, k: int, key: Seq<char>)
    requires
        0 <= k <= entries.len(),
        input_value(entries.subrange(0, k), key) is Some,
    ensures
        input_value(entries, key) == input_value(entries.subrange(0, k), key),
    decreases entries.len() - k,
{
    if k < entries.len() {
        assert(entries.subrange(0, k + 1).drop_last() =~= entries.subrange(0, k));
        lemma_input_value_extend(entries, k + 1, key);
    } else {
        assert(entries.subrange(0, k) =~= entries);
    }
}

/// `a` comes before `b` by code point.
pub fn less(a: &str, b: &str) -> (r: bool)
    ensures
        r == text_less(a@, b@),
{
    let n = a.unicode_len();
    let m = b.unicode_len();
    let mut i: usize = 0;
    assert(a@.subrange(0, n as int) =~= a@);
    assert(b@.subrange(0, m as int) =~= b@);
    while i < n && i < m
        invariant
            n == a@.len(),
            m == b@.len(),
            i <= n,
            i <= m,
            forall|j: int| 0 <= j < i ==> a@[j] == b@[j],
            text_less(a@, b@) == text_less(
                a@.subrange(i as int, n as int),
                b@.subrange(i as int, m as int),
            ),
        decreases n - i,
    {
        let x = a.get_char(i);
        let y = b.get_char(i);
        let ghost sa = a@.subrange(i as int, n as int);
        let ghost sb = b@.subrange(i as int, m as int);
        assert(sa[0] == x && sb[0] == y);
        if x != y {
            return (x as u32) < (y as u32);
        }
        assert(sa.drop_first() =~= a@.subrange(i + 1, n as int));
        assert(sb.drop_first() =~= b@.subrange(i + 1, m as int));
        i = i + 1;
    }
    proof {
        let sa = a@.subrange(i as int, n as int);
        let sb = b@.subrange(i as int, m as int);
        assert(sa.len() == 0 || sb.len() == 0);
    }
    i == n && i < m
}

/// No text orders before itself.
pub proof fn lemma_text_less_irreflexive(a: Seq<char>)
    ensures
        !text_less(a, a),
    decreases a.len(),
{
    if a.len() > 0 {
        lemma_text_less_irreflexive(a.drop_first());
    }
}

/// Of two different texts one orders before the other, and never both.
pub proof fn lemma_text_less_total(a: Seq<char>, b: Seq<char>)
    ensures
        a != b ==> text_less(a, b) || text_less(b, a),
        !(text_less(a, b) && text_less(b, a)),
    decreases a.len(),
{
    if a.len() > 0 && b.len() > 0 && a[0] == b[0] {
        lemma_text_less_total(a.drop_first(), b.drop_first());
        if a != b {
            assert(a.drop_first() != b.drop_first()) by {
                if a.drop_first() == b.drop_first() {
                    assert forall|i: int| 0 <= i < a.len() implies a[i] == b[i] by {
                        if i > 0 {
                            assert(a[i] == a.drop_first()[i - 1]);
                            assert(b[i] == b.drop_first()[i - 1]);
                        }
                    }
                    assert(a =~= b);
                }
            }
        }
    } else if a.len() == 0 && b.len() == 0 {
        assert(a =~= b);
    }
}

/// The order of texts is transitive.
pub proof fn lemma_text_less_transitive(a: Seq<char>, b: Seq<char>, c: Seq<char>)
    requires
        text_less(a, b),
        text_less(b, c),
    ensures
        text_less(a, c),
    decreases a.len(),
{
    if a.len() > 0 && b.len() > 0 && c.len() > 0 && a[0] == b[0] && b[0] == c[0] {
        lemma_text_less_transitive(a.drop_first(), b.drop_first(), c.drop_first());
    }
}

impl DocumentSpec {
    /// The inputs are kept in ascending key order.
    pub open spec fn well_formed(&self) -> bool {
        keys_ascending(input_keys(self.inputs@))
    }

    /// Sets input `key` to `value`, replacing an earlier value of that key
    /// and keeping the keys in ascending order.
    pub fn set_input(&mut self, key: &str, value: &str)
        requires
            old(self).well_formed(),
        ensures
            final(self).well_formed(),
            final(self).name == old(self).name,
            final(self).kind == old(self).kind,
            final(self).source == old(self).source,
            final(self).output == old(self).output,
            final(self).expected_pages == old(self).expected_pages,
            input_value(final(self).inputs@, key@) == Some(value@),
            forall|k: Seq<char>|
                k != key@ ==> input_value(#[trigger] final(self).inputs@, k) == input_value(
                    old(self).inputs@,
                    k,
                ),
    {
        set_entry(&mut self.inputs, key, value);
    }
}

/// Sets the entry `key` of a list kept in ascending key order to `value`,
/// replacing an earlier value of that key.
pub fn set_entry(inputs: &mut Vec<(String, String)>, key: &str, value: &str)
    requires
        keys_ascending(input_keys(old(inputs)@)),
    ensures
        keys_ascending(input_keys(final(inputs)@)),
        input_value(final(inputs)@, key@) == Some(value@),
        forall|k: Seq<char>|
            k != key@ ==> input_value(#[trigger] final(inputs)@, k) == input_value(old(inputs)@, k),
{
    let ghost before = inputs@;
    let mut i: usize = 0;
    while i < inputs.len() && less(inputs[i].0.as_str(), key)
        invariant
            i <= inputs@.len(),
            inputs@ == before,
            keys_ascending(input_keys(before)),
            forall|j: int| 0 <= j < i ==> text_less(#[trigger] before[j].0@, key@),
        decreases inputs@.len() - i,
    {
        i = i + 1;
    }
    let entry = (string_of(key), string_of(value));
    if i < inputs.len() && crate::text::same_text(inputs[i].0.as_str(), key) {
        inputs.set(i, entry);
        proof {
            let after = inputs@;
            assert(input_keys(after) =~= input_keys(before));
            assert(after[i as int].0@ == key@);
            assert forall|k: Seq<char>| k != key@ implies input_value(after, k) == input_value(before, k) by {
                if exists|t: int| 0 <= t < after.len() && after[t].0@ == k {
                    let t = choose|t: int| 0 <= t < after.len() && after[t].0@ == k;
                    assert(before[t].0@ == k);
                    lemma_unique_key(before, t, k);
                    lemma_unique_key(after, t, k);
                } else {
                    assert forall|t: int| 0 <= t < before.len() implies before[t].0@ != k by {
                        if t != i {
                            assert(after[t] == before[t]);
                        }
                    }
                    lemma_absent_key(before, k);
                    lemma_absent_key(after, k);
                }
            }
            lemma_unique_key(after, i as int, key@);
        }
    } else {
        inputs.insert(i, entry);
        proof {
            let after = inputs@;
            assert(after[i as int].0@ == key@);
            assert forall|j: int| 0 <= j < after.len() && j != i implies (#[trigger] after[j]) == if j < i {
                before[j]
            } else {
                before[j - 1]
            } by {}
            assert forall|a: int, b: int| 0 <= a < b < after.len() implies text_less(
                input_keys(after)[a],
                input_keys(after)[b],
            ) by {
                if a < i && b == i {
                } else if a < i && b > i {
                    assert(text_less(input_keys(before)[a], input_keys(before)[b - 1]));
                } else if a == i && b > i {
                    lemma_text_less_total(before[i as int].0@, key@);
                    if b - 1 > i {
                        assert(text_less(input_keys(before)[i as int], input_keys(before)[b - 1]));
                        lemma_text_less_transitive(key@, before[i as int].0@, before[b - 1].0@);
                    }
                } else if a < i && b < i {
                    assert(text_less(input_keys(before)[a], input_keys(before)[b]));
                } else {
                    assert(text_less(input_keys(before)[a - 1], input_keys(before)[b - 1]));
                }
            }
            assert forall|k: Seq<char>| k != key@ implies input_value(after, k) == input_value(before, k) by {
                if exists|t: int| 0 <= t < after.len() && after[t].0@ == k {
                    let t = choose|t: int| 0 <= t < after.len() && after[t].0@ == k;
                    let u = if t < i { t } else { t - 1 };
                    assert(before[u].0@ == k);
                    lemma_unique_key(before, u, k);
                    lemma_unique_key(after, t, k);
                } else {
                    assert forall|t: int| 0 <= t < before.len() implies before[t].0@ != k by {
                        if t < i {
                            assert(after[t] == before[t]);
                        } else {
                            assert(after[t + 1] == before[t]);
                        }
                    }
                    lemma_absent_key(before, k);
                    lemma_absent_key(after, k);
                }
            }
            lemma_unique_key(after, i as int, key@);
        }
    }
}

proof fn lemma_unique_key(inputs: Seq<(String, String)>, t: int, k: Seq<char>)
    requires
        keys_ascending(input_keys(inputs)),
        0 <= t < inputs.len(),
        inputs[t].0@ == k,
    ensures
        input_value(inputs, k) == Some(inputs[t].1@),
    decreases inputs.len(),
{
    let init = inputs.drop_last();
    assert forall|a: int, b: int| 0 <= a < b < init.len() implies text_less(
        input_keys(init)[a],
        input_keys(init)[b],
    ) by {
        assert(text_less(input_keys(inputs)[a], input_keys(inputs)[b]));
    }
    if t < inputs.len() - 1 {
        lemma_unique_key(init, t, k);
    } else {
        assert forall|i: int| 0 <= i < init.len() implies init[i].0@ != k by {
            assert(text_less(input_keys(inputs)[i], input_keys(inputs)[t]));
            if init[i].0@ == k {
                lemma_text_less_irreflexive(k);
            }
        }
        lemma_absent_key(init, k);
    }
}

/// Lower-case ASCII letter `l`, or its upper-case form.
pub open spec fn same_letter(c: char, l: char) -> bool {
    c == l || (('a' <= l && l <= 'z') && c as int == l as int - 32)
}

/// `s` equals the lower-case literal `lit` ignoring ASCII case.
pub open spec fn matches_ignoring_case(s: Seq<char>, lit: Seq<char>) -> bool {
    s.len() == lit.len() && forall|i: int| 0 <= i < s.len() ==> same_letter(#[trigger] s[i], lit[i])
}

/// The supported locale that a value names, ignoring ASCII case.
pub open spec fn locale_of(value: Seq<char>) -> Option<Seq<char>> {
    if matches_ignoring_case(value, "de"@) || matches_ignoring_case(value, "de-ch"@) {
        Some("de-ch"@)
    } else if matches_ignoring_case(value, "en"@) || matches_ignoring_case(value, "en-ch"@) {
        Some("en-ch"@)
    } else {
        None
    }
}

fn same_ignoring_case(s: &str, lit: &str) -> (r: bool)
    requires
        forall|i: int| 0 <= i < lit@.len() ==> ('a' <= #[trigger] lit@[i] && lit@[i] <= 'z') || lit@[i] == '-',
    ensures
        r == matches_ignoring_case(s@, lit@),
{
    let n = s.unicode_len();
    let m = lit.unicode_len();
    if n != m {
        return false;
    }
    let mut i: usize = 0;
    while i < n
        invariant
            n == s@.len(),
            m == lit@.len(),
            n == m,
            i <= n,
            forall|j: int| 0 <= j < lit@.len() ==> ('a' <= #[trigger] lit@[j] && lit@[j] <= 'z') || lit@[j] == '-',
            forall|j: int| 0 <= j < i ==> same_letter(#[trigger] s@[j], lit@[j]),
        decreases n - i,
    {
        let c = s.get_char(i);
        let l = lit.get_char(i);
        let ok = c == l || ('a' <= l && l <= 'z' && (c as u32) + 32 == (l as u32));
        if !ok {
            return false;
        }
        i = i + 1;
    }
    true
}

/// The supported locale that a value names: `de`/`de-ch` and `en`/`en-ch`,
/// ignoring ASCII case.
pub fn normalize_locale(value: &str) -> (r: Result<&'static str, RenderError>)
    ensures
        locale_of(value@) matches Some(l) ==> (r matches Ok(s) && s@ == l),
        locale_of(value@) is None ==> (r matches Err(RenderError::UnsupportedLocale(v)) && v@
            == value@),
{
    proof {
        reveal_strlit("de");
        reveal_strlit("de-ch");
        reveal_strlit("en");
        reveal_strlit("en-ch");
    }
    if same_ignoring_case(value, "de") || same_ignoring_case(value, "de-ch") {
        Ok("de-ch")
    } else if same_ignoring_case(value, "en") || same_ignoring_case(value, "en-ch") {
        Ok("en-ch")
    } else {
        Err(RenderError::UnsupportedLocale(string_of(value)))
    }
}

/// The directory name of a CV page preset.
pub open spec fn preset_name(pages: usize) -> Option<Seq<char>> {
    if pages == 2 {
        Some("twopager"@)
    } else if pages == 3 {
        Some("threepager"@)
    } else if pages == 4 {
        Some("fourpager"@)
    } else {
        None
    }
}

/// The directory name of a CV page preset: two, three or four pages.
pub fn cv_preset(pages: usize) -> (r: Result<&'static str, RenderError>)
    ensures
        preset_name(pages) matches Some(n) ==> (r matches Ok(s) && s@ == n),
        preset_name(pages) is None ==> (r matches Err(RenderError::BadPages(p)) && p == pages),
{
    proof {
        reveal_strlit("twopager");
        reveal_strlit("threepager");
        reveal_strlit("fourpager");
    }
    if pages == 2 {
        Ok("twopager")
    } else if pages == 3 {
        Ok("threepager")
    } else if pages == 4 {
        Ok("fourpager")
    } else {
        Err(RenderError::BadPages(pages))
    }
}

/// The Typst form of an input path, as `Workspace::typst_path` gives it.
pub open spec fn typst_form(root: Seq<char>, resolved: Option<String>) -> Option<Seq<char>> {
    match resolved {
        Some(p) => if is_within(p@, root) {
            Some(seq!['/'] + forward_slashes(relative_to(p@, root)->0))
        } else {
            None
        },
        None => None,
    }
}

/// What `cv_spec` makes of its arguments: the CV of `locale` in `pages`
/// pages, from the record and profile with the Typst paths `app` and
/// `profile`, written to `output`.
pub open spec fn cv_spec_fields(
    spec: DocumentSpec,
    w: Workspace,
    locale: Seq<char>,
    pages: nat,
    app: Option<Seq<char>>,
    profile: Option<Seq<char>>,
    output: Seq<char>,
) -> bool {
    &&& spec.well_formed()
    &&& spec.name@ == "CV "@ + locale
    &&& spec.kind == DocumentKind::Cv
    &&& spec.source@ == join(w.root_view(), "cvl/cv/"@ + locale + "/main.typ"@)
    &&& spec.output@ == output
    &&& spec.expected_pages == pages
    &&& spec.inputs@.len() == 3
    &&& spec.inputs@[0].0@ == "application"@
    &&& Some(spec.inputs@[0].1@) == app
    &&& spec.inputs@[1].0@ == "cv-pages"@
    &&& spec.inputs@[1].1@ == decimal(pages)
    &&& spec.inputs@[2].0@ == "profile"@
    &&& Some(spec.inputs@[2].1@) == profile
}

/// What `cl_spec` makes of its arguments: the cover letter of `locale`,
/// from the record and profile with the Typst paths `app` and `profile`,
/// written to `output`.
pub open spec fn cl_spec_fields(
    spec: DocumentSpec,
    w: Workspace,
    locale: Seq<char>,
    app: Option<Seq<char>>,
    profile: Option<Seq<char>>,
    output: Seq<char>,
) -> bool {
    &&& spec.well_formed()
    &&& spec.name@ == "cover letter "@ + locale
    &&& spec.kind == DocumentKind::CoverLetter
    &&& spec.source@ == join(w.root_view(), "cvl/cl/"@ + locale + "/main.typ"@)
    &&& spec.output@ == output
    &&& spec.expected_pages == 1
    &&& spec.inputs@.len() == 2
    &&& spec.inputs@[0].0@ == "application"@
    &&& Some(spec.inputs@[0].1@) == app
    &&& spec.inputs@[1].0@ == "profile"@
    &&& Some(spec.inputs@[1].1@) == profile
}

/// The specification of a CV in `locale` with `pages` pages, reading the
/// record `application` and the profile `profile` (with what resolving them
/// gave) and writing `output`.
pub fn cv_spec(
    workspace: &Workspace,
    locale: &str,
    pages: usize,
    application: &str,
    application_resolved: Option<String>,
    profile: &str,
    profile_resolved: Option<String>,
    output: &str,
) -> (r: Result<DocumentSpec, RenderError>)
    ensures
        !(2 <= pages <= 4) ==> (r matches Err(RenderError::BadPages(p)) && p == pages),
        r is Ok <==> (2 <= pages <= 4 && typst_form(workspace.root_view(), application_resolved)
            is Some && typst_form(workspace.root_view(), profile_resolved) is Some),
        r matches Ok(spec) ==> cv_spec_fields(
            spec,
            *workspace,
            locale@,
            pages as nat,
            typst_form(workspace.root_view(), application_resolved),
            typst_form(workspace.root_view(), profile_resolved),
            output@,
        ),
{
    if !(2 <= pages && pages <= 4) {
        return Err(RenderError::BadPages(pages));
    }
    let app_path = match workspace.typst_path(application, application_resolved) {
        Ok(p) => p,
        Err(e) => return Err(RenderError::Path(e)),
    };
    let pages_text = crate::text::to_decimal(pages as u128);
    let profile_path = match workspace.typst_path(profile, profile_resolved) {
        Ok(p) => p,
        Err(e) => return Err(RenderError::Path(e)),
    };
    let mut name = string_of("CV ");
    push_str(&mut name, locale);
    let mut source_rel = string_of("cvl/cv/");
    push_str(&mut source_rel, locale);
    push_str(&mut source_rel, "/main.typ");
    let source = workspace.path(source_rel.as_str());
    let mut inputs: Vec<(String, String)> = Vec::new();
    inputs.push((string_of("application"), app_path));
    inputs.push((string_of("cv-pages"), pages_text));
    inputs.push((string_of("profile"), profile_path));
    proof {
        reveal_strlit("application");
        reveal_strlit("cv-pages");
        reveal_strlit("profile");
        let k = input_keys(inputs@);
        assert(k[0] == "application"@ && k[1] == "cv-pages"@ && k[2] == "profile"@);
        assert(text_less("application"@, "cv-pages"@));
        assert(text_less("cv-pages"@, "profile"@));
        assert(text_less("application"@, "profile"@));
    }
    Ok(
        DocumentSpec {
            name,
            kind: DocumentKind::Cv,
            source,
            output: string_of(output),
            inputs,
            expected_pages: pages,
        },
    )
}

/// The specification of a cover letter in `locale`, reading the record
/// `application` and the profile `profile` and writing `output`.
pub fn cl_spec(
    workspace: &Workspace,
    locale: &str,
    application: &str,
    application_resolved: Option<String>,
    profile: &str,
    profile_resolved: Option<String>,
    output: &str,
) -> (r: Result<DocumentSpec, RenderError>)
    ensures
        r is Ok <==> (typst_form(workspace.root_view(), application_resolved) is Some && typst_form(
            workspace.root_view(),
            profile_resolved,
        ) is Some),
        r matches Ok(spec) ==> cl_spec_fields(
            spec,
            *workspace,
            locale@,
            typst_form(workspace.root_view(), application_resolved),
            typst_form(workspace.root_view(), profile_resolved),
            output@,
        ),
{
    let app_path = match workspace.typst_path(application, application_resolved) {
        Ok(p) => p,
        Err(e) => return Err(RenderError::Path(e)),
    };
    let profile_path = match workspace.typst_path(profile, profile_resolved) {
        Ok(p) => p,
        Err(e) => return Err(RenderError::Path(e)),
    };
    let mut name = string_of("cover letter ");
    push_str(&mut name, locale);
    let mut source_rel = string_of("cvl/cl/");
    push_str(&mut source_rel, locale);
    push_str(&mut source_rel, "/main.typ");
    let source = workspace.path(source_rel.as_str());
    let mut inputs: Vec<(String, String)> = Vec::new();
    inputs.push((string_of("application"), app_path));
    inputs.push((string_of("profile"), profile_path));
    proof {
        reveal_strlit("application");
        reveal_strlit("profile");
        let k = input_keys(inputs@);
        assert(k[0] == "application"@ && k[1] == "profile"@);
        assert(text_less("application"@, "profile"@));
    }
    Ok(
        DocumentSpec {
            name,
            kind: DocumentKind::CoverLetter,
            source,
            output: string_of(output),
            inputs,
            expected_pages: 1,
        },
    )
}

/// What resolving paths on disk gave: each entry pairs a path with its
/// canonical form (`None` when it could not be resolved).
pub struct Resolutions {
    pub entries: Vec<(String, Option<String>)>,
}

/// The index of the first entry for `path`.
pub open spec fn first_entry(entries: Seq<(String, Option<String>)>, path: Seq<char>) -> Option<int>
    decreases entries.len(),
{
    if entries.len() == 0 {
        None
    } else {
        match first_entry(entries.drop_last(), path) {
            Some(i) => Some(i),
            None => if entries.last().0@ == path {
                Some(entries.len() - 1)
            } else {
                None
            },
        }
    }
}

/// The canonical form recorded for `path` (the first entry for it counts); a
/// path without an entry could not be resolved.
pub open spec fn resolution_of(entries: Seq<(String, Option<String>)>, path: Seq<char>) -> Option<
    String,
> {
    match first_entry(entries, path) {
        Some(i) => entries[i].1,
        None => None,
    }
}

/// Whether `path` has an entry among the first `k`.
pub open spec fn has_entry(entries: Seq<(String, Option<String>)>, path: Seq<char>, k: int) -> bool {
    exists|i: int| 0 <= i < k && #[trigger] entries[i].0@ == path
}

proof fn lemma_first_entry_prefix(entries: Seq<(String, Option<String>)>, path: Seq<char>, k: int)
    requires
        0 <= k <= entries.len(),
        !has_entry(entries, path, k),
    ensures
        first_entry(entries.subrange(0, k), path) is None,
    decreases k,
{
    if k > 0 {
        let p = entries.subrange(0, k);
        assert(p.drop_last() =~= entries.subrange(0, k - 1));
        lemma_first_entry_prefix(entries, path, k - 1);
        assert(p.last() == entries[k - 1]);
    }
}

proof fn lemma_first_entry_found(entries: Seq<(String, Option<String>)>, path: Seq<char>, k: int)
    requires
        0 <= k < entries.len(),
        !has_entry(entries, path, k),
        entries[k].0@ == path,
    ensures
        first_entry(entries, path) == Some(k),
    decreases entries.len() - k,
{
    if k < entries.len() - 1 {
        assert forall|i: int| 0 <= i < k implies #[trigger] entries.drop_last()[i].0@ != path by {
            assert(entries.drop_last()[i] == entries[i]);
        }
        assert(entries.drop_last()[k] == entries[k]);
        lemma_first_entry_found(entries.drop_last(), path, k);
    } else {
        lemma_first_entry_prefix(entries, path, k);
        assert(entries.subrange(0, k) =~= entries.drop_last());
    }
}

impl Resolutions {
    /// The canonical form recorded for `path`.
    pub fn lookup(&self, path: &str) -> (r: Option<String>)
        ensures
            r matches Some(p) ==> resolution_of(self.entries@, path@) matches Some(q) && p@ == q@,
            r is None ==> resolution_of(self.entries@, path@) is None,
    {
        let mut i: usize = 0;
        while i < self.entries.len()
            invariant
                i <= self.entries@.len(),
                !has_entry(self.entries@, path@, i as int),
            decreases self.entries@.len() - i,
        {
            if crate::text::same_text(self.entries[i].0.as_str(), path) {
                proof {
                    lemma_first_entry_found(self.entries@, path@, i as int);
                }
                return match &self.entries[i].1 {
                    Some(p) => Some(string_of(p.as_str())),
                    None => None,
                };
            }
            i = i + 1;
        }
        proof {
            lemma_first_entry_prefix(self.entries@, path@, i as int);
            assert(self.entries@.subrange(0, i as int) =~= self.entries@);
        }
        None
    }
}

/// The record of the general documents in a locale.
pub open spec fn general_application(locale: Seq<char>) -> Seq<char> {
    "cvl/general/"@ + locale + "/application.json"@
}

/// The general profile.
pub open spec fn general_profile() -> Seq<char> {
    "cvl/general/profile.json"@
}

/// The view of an optional canonical form.
pub open spec fn resolved_view(r: Option<String>) -> Option<Seq<char>> {
    match r {
        Some(p) => Some(p@),
        None => None,
    }
}

/// The Typst form of what resolving `path` gave.
pub open spec fn typst_of(w: Workspace, entries: Seq<(String, Option<String>)>, rel: Seq<char>) -> Option<
    Seq<char>,
> {
    match resolution_of(entries, join(w.root_view(), rel)) {
        Some(p) => if is_within(p@, w.root_view()) {
            Some(seq!['/'] + forward_slashes(relative_to(p@, w.root_view())->0))
        } else {
            None
        },
        None => None,
    }
}

proof fn lemma_typst_form(root: Seq<char>, a: Option<String>, b: Option<String>)
    requires
        resolved_view(a) == resolved_view(b),
    ensures
        typst_form(root, a) == typst_form(root, b),
{
}

/// The general CV in a locale with a page preset: the locale's general
/// record and the general profile, written to the preset's tracked output.
pub fn general_cv_spec(
    workspace: &Workspace,
    locale_value: &str,
    pages: usize,
    resolved: &Resolutions,
) -> (r: Result<DocumentSpec, RenderError>)
    ensures
        locale_of(locale_value@) is None ==> (r matches Err(RenderError::UnsupportedLocale(v)) && v@
            == locale_value@),
        locale_of(locale_value@) is Some && !(2 <= pages <= 4) ==> (r matches Err(
            RenderError::BadPages(p),
        ) && p == pages),
        r is Ok <==> (locale_of(locale_value@) is Some && 2 <= pages <= 4 && typst_of(
            *workspace,
            resolved.entries@,
            general_application(locale_of(locale_value@)->0),
        ) is Some && typst_of(*workspace, resolved.entries@, general_profile()) is Some),
        r matches Ok(spec) ==> cv_spec_fields(
            spec,
            *workspace,
            locale_of(locale_value@)->0,
            pages as nat,
            typst_of(*workspace, resolved.entries@, general_application(locale_of(locale_value@)->0)),
            typst_of(*workspace, resolved.entries@, general_profile()),
            join(
                workspace.root_view(),
                "cvl/cv/output/"@ + locale_of(locale_value@)->0 + "/"@ + preset_name(pages)->0 + "/cv.pdf"@,
            ),
        ),
        r matches Ok(spec) ==> general_cv_described(
            spec,
            *workspace,
            resolved.entries@,
            locale_of(locale_value@)->0,
            pages,
            false,
        ),
{
    proof {
        reveal_strlit("cvl/general/");
        reveal_strlit("/application.json");
        reveal_strlit("cvl/general/profile.json");
        reveal_strlit("cvl/cv/output/");
        reveal_strlit("/");
        reveal_strlit("/cv.pdf");
    }
    let locale = normalize_locale(locale_value)?;
    let preset = cv_preset(pages)?;
    let mut app_rel = string_of("cvl/general/");
    push_str(&mut app_rel, locale);
    push_str(&mut app_rel, "/application.json");
    let application = workspace.path(app_rel.as_str());
    let profile = workspace.path("cvl/general/profile.json");
    let mut out_rel = string_of("cvl/cv/output/");
    push_str(&mut out_rel, locale);
    push_str(&mut out_rel, "/");
    push_str(&mut out_rel, preset);
    push_str(&mut out_rel, "/cv.pdf");
    let output = workspace.path(out_rel.as_str());
    let app_resolved = resolved.lookup(application.as_str());
    let profile_resolved = resolved.lookup(profile.as_str());
    proof {
        assert(app_rel@ == general_application(locale@));
        let ar = resolution_of(resolved.entries@, application@);
        let pr = resolution_of(resolved.entries@, profile@);
        lemma_typst_form(workspace.root_view(), app_resolved, ar);
        lemma_typst_form(workspace.root_view(), profile_resolved, pr);
    }
    let r = cv_spec(
        workspace,
        locale,
        pages,
        application.as_str(),
        app_resolved,
        profile.as_str(),
        profile_resolved,
        output.as_str(),
    );
    proof {
        if r is Ok {
            lemma_cv_fields_described(
                r->Ok_0,
                *workspace,
                resolved.entries@,
                locale@,
                pages,
            );
        }
    }
    r
}

/// The general cover letter in a locale: the locale's general record and the
/// general profile, written to its tracked output.
pub fn general_cl_spec(workspace: &Workspace, locale_value: &str, resolved: &Resolutions) -> (r: Result<
    DocumentSpec,
    RenderError,
>)
    ensures
        locale_of(locale_value@) is None ==> (r matches Err(RenderError::UnsupportedLocale(v)) && v@
            == locale_value@),
        r is Ok <==> (locale_of(locale_value@) is Some && typst_of(
            *workspace,
            resolved.entries@,
            general_application(locale_of(locale_value@)->0),
        ) is Some && typst_of(*workspace, resolved.entries@, general_profile()) is Some),
        r matches Ok(spec) ==> cl_spec_fields(
            spec,
            *workspace,
            locale_of(locale_value@)->0,
            typst_of(*workspace, resolved.entries@, general_application(locale_of(locale_value@)->0)),
            typst_of(*workspace, resolved.entries@, general_profile()),
            join(workspace.root_view(), "cvl/cl/output/"@ + locale_of(locale_value@)->0 + "/cl.pdf"@),
        ),
        r matches Ok(spec) ==> general_cl_described(
            spec,
            *workspace,
            resolved.entries@,
            locale_of(locale_value@)->0,
            false,
        ),
{
    proof {
        reveal_strlit("cvl/general/");
        reveal_strlit("/application.json");
        reveal_strlit("cvl/general/profile.json");
        reveal_strlit("cvl/cl/output/");
        reveal_strlit("/cl.pdf");
    }
    let locale = normalize_locale(locale_value)?;
    let mut app_rel = string_of("cvl/general/");
    push_str(&mut app_rel, locale);
    push_str(&mut app_rel, "/application.json");
    let application = workspace.path(app_rel.as_str());
    let profile = workspace.path("cvl/general/profile.json");
    let mut out_rel = string_of("cvl/cl/output/");
    push_str(&mut out_rel, locale);
    push_str(&mut out_rel, "/cl.pdf");
    let output = workspace.path(out_rel.as_str());
    let app_resolved = resolved.lookup(application.as_str());
    let profile_resolved = resolved.lookup(profile.as_str());
    proof {
        let ar = resolution_of(resolved.entries@, application@);
        let pr = resolution_of(resolved.entries@, profile@);
        lemma_typst_form(workspace.root_view(), app_resolved, ar);
        lemma_typst_form(workspace.root_view(), profile_resolved, pr);
    }
    let r = cl_spec(
        workspace,
        locale,
        application.as_str(),
        app_resolved,
        profile.as_str(),
        profile_resolved,
        output.as_str(),
    );
    proof {
        if r is Ok {
            lemma_cl_fields_described(r->Ok_0, *workspace, resolved.entries@, locale@);
        }
    }
    r
}


/// The inputs of a CV: its record, its page count and the profile.
pub open spec fn cv_input(
    application: Option<Seq<char>>,
    pages: nat,
    profile: Option<Seq<char>>,
    key: Seq<char>,
) -> Option<Seq<char>> {
    if key == "application"@ {
        application
    } else if key == "cv-pages"@ {
        Some(decimal(pages))
    } else if key == "profile"@ {
        profile
    } else {
        None
    }
}

/// The inputs of a cover letter: its record and the profile.
pub open spec fn cl_input(application: Option<Seq<char>>, profile: Option<Seq<char>>, key: Seq<char>) -> Option<
    Seq<char>,
> {
    if key == "application"@ {
        application
    } else if key == "profile"@ {
        profile
    } else {
        None
    }
}

/// A specification with the given fields, whose inputs are exactly `inputs`.
pub open spec fn describes(
    spec: DocumentSpec,
    name: Seq<char>,
    kind: DocumentKind,
    source: Seq<char>,
    output: Seq<char>,
    pages: nat,
    inputs: spec_fn(Seq<char>) -> Option<Seq<char>>,
) -> bool {
    &&& spec.well_formed()
    &&& spec.name@ == name
    &&& spec.kind == kind
    &&& spec.source@ == source
    &&& spec.output@ == output
    &&& spec.expected_pages == pages
    &&& forall|k: Seq<char>| #[trigger] input_value(spec.inputs@, k) == inputs(k)
}

proof fn lemma_cv_inputs(inputs: Seq<(String, String)>, app: Option<Seq<char>>, pages: nat, profile: Option<Seq<char>>)
    requires
        keys_ascending(input_keys(inputs)),
        inputs.len() == 3,
        inputs[0].0@ == "application"@,
        Some(inputs[0].1@) == app,
        inputs[1].0@ == "cv-pages"@,
        inputs[1].1@ == decimal(pages),
        inputs[2].0@ == "profile"@,
        Some(inputs[2].1@) == profile,
    ensures
        forall|k: Seq<char>| #[trigger] input_value(inputs, k) == cv_input(app, pages, profile, k),
{
    assert forall|k: Seq<char>| #[trigger] input_value(inputs, k) == cv_input(app, pages, profile, k) by {
        if k == "application"@ {
            lemma_unique_key(inputs, 0, k);
        } else if k == "cv-pages"@ {
            lemma_unique_key(inputs, 1, k);
        } else if k == "profile"@ {
            lemma_unique_key(inputs, 2, k);
        } else {
            lemma_absent_key(inputs, k);
        }
    }
}

proof fn lemma_cl_inputs(inputs: Seq<(String, String)>, app: Option<Seq<char>>, profile: Option<Seq<char>>)
    requires
        keys_ascending(input_keys(inputs)),
        inputs.len() == 2,
        inputs[0].0@ == "application"@,
        Some(inputs[0].1@) == app,
        inputs[1].0@ == "profile"@,
        Some(inputs[1].1@) == profile,
    ensures
        forall|k: Seq<char>| #[trigger] input_value(inputs, k) == cl_input(app, profile, k),
{
    assert forall|k: Seq<char>| #[trigger] input_value(inputs, k) == cl_input(app, profile, k) by {
        if k == "application"@ {
            lemma_unique_key(inputs, 0, k);
        } else if k == "profile"@ {
            lemma_unique_key(inputs, 1, k);
        } else {
            lemma_absent_key(inputs, k);
        }
    }
}

/// The language that a record declares (`job.language`, empty when absent).
pub open spec fn language_of(document: JsonV) -> Seq<char> {
    match json_at(document, Ptr::JobLanguage) {
        Some(v) => match as_text(v) {
            Some(s) => s,
            None => Seq::empty(),
        },
        None => Seq::empty(),
    }
}

/// Whether a record enables its cover letter (`tailored_cl.enabled`).
pub open spec fn cover_enabled(document: JsonV) -> bool {
    match json_at(document, Ptr::TailoredCl) {
        Some(c) => match field(c, "enabled"@) {
            Some(e) => as_bool(e) == Some(true),
            None => false,
        },
        None => false,
    }
}

/// The name of an opportunity's document: `prefix organisation/position`.
pub open spec fn keyed_name(prefix: Seq<char>, organisation: Seq<char>, position: Seq<char>) -> Seq<char> {
    prefix + organisation + "/"@ + position
}

/// An input list, with `line-contracts` set to `report` when `report` holds.
pub open spec fn reported(report: bool, key: Seq<char>, base: Option<Seq<char>>) -> Option<Seq<char>> {
    if report && key == "line-contracts"@ {
        Some("report"@)
    } else {
        base
    }
}

/// Everything that the documents of an opportunity need holds.
pub open spec fn opportunity_ready(
    w: Workspace,
    entries: Seq<(String, Option<String>)>,
    organisation: Seq<char>,
    position: Seq<char>,
    document: JsonV,
    manifest: Option<JsonV>,
) -> bool {
    &&& is_record_key(organisation)
    &&& is_record_key(position)
    &&& contracts_fault(manifest, document, true) is None
    &&& locale_of(language_of(document)) is Some
    &&& typst_of(w, entries, record_relative(organisation, position)) is Some
    &&& typst_of(w, entries, general_profile()) is Some
}

/// `e` is the error of the first failing check among the keys, the line
/// contracts and the language (a later failure, of the paths, is any error).
pub open spec fn first_opportunity_error(
    e: RenderError,
    organisation: Seq<char>,
    position: Seq<char>,
    document: JsonV,
    manifest: Option<JsonV>,
) -> bool {
    if !is_record_key(organisation) {
        e matches RenderError::Opportunity(OpportunityError::InvalidKey { label, value }) && label@
            == "organisation"@ && value@ == organisation
    } else if !is_record_key(position) {
        e matches RenderError::Opportunity(OpportunityError::InvalidKey { label, value }) && label@
            == "position"@ && value@ == position
    } else {
        match contracts_fault(manifest, document, true) {
            Some(f) => e matches RenderError::Contract(c) && c.fault == f && c.location@
                == record_relative(organisation, position),
            None => locale_of(language_of(document)) is None ==> (e matches RenderError::UnsupportedLocale(
                v,
            ) && v@ == language_of(document)),
        }
    }
}

/// The documents of an opportunity, as `opportunity_specs` makes them (with
/// `line-contracts` set to `report` when `report` holds).
pub open spec fn opportunity_described(
    specs: Seq<DocumentSpec>,
    w: Workspace,
    entries: Seq<(String, Option<String>)>,
    organisation: Seq<char>,
    position: Seq<char>,
    document: JsonV,
    report: bool,
) -> bool {
    let locale = locale_of(language_of(document))->0;
    let pages = u64_at(document, Ptr::Pages)->0;
    let app = typst_of(w, entries, record_relative(organisation, position));
    let profile = typst_of(w, entries, general_profile());
    let root = w.root_view();
    &&& 2 <= pages <= 4
    &&& specs.len() == if cover_enabled(document) {
        2int
    } else {
        1int
    }
    &&& describes(
        specs[0],
        keyed_name("CV "@, organisation, position),
        DocumentKind::Cv,
        join(root, "cvl/cv/"@ + locale + "/main.typ"@),
        join(root, output_relative(organisation, position, "cv.pdf"@)),
        pages as nat,
        |k: Seq<char>| reported(report, k, cv_input(app, pages as nat, profile, k)),
    )
    &&& cover_enabled(document) ==> describes(
        specs[1],
        keyed_name("cover letter "@, organisation, position),
        DocumentKind::CoverLetter,
        join(root, "cvl/cl/"@ + locale + "/main.typ"@),
        join(root, output_relative(organisation, position, "cl.pdf"@)),
        1,
        |k: Seq<char>| reported(report, k, cl_input(app, profile, k)),
    )
}

/// The documents of the opportunity `organisation`/`position` whose record
/// is `document`: its CV and, when enabled, its cover letter, both reading
/// the record and the general profile and written to the opportunity's
/// `output` directory. The keys are checked first, then the record's line
/// contracts (with the manifest `ccvl.json`), then its language.
pub fn opportunity_specs(
    workspace: &Workspace,
    organisation: &str,
    position: &str,
    document: &Json,
    manifest: Option<&Json>,
    resolved: &Resolutions,
) -> (r: Result<Vec<DocumentSpec>, RenderError>)
    requires
        contracts_defined(opt_view(manifest), document@, true),
    ensures
        r is Ok <==> opportunity_ready(
            *workspace,
            resolved.entries@,
            organisation@,
            position@,
            document@,
            opt_view(manifest),
        ),
        r matches Err(e) ==> first_opportunity_error(
            e,
            organisation@,
            position@,
            document@,
            opt_view(manifest),
        ),
        r matches Ok(specs) ==> opportunity_described(
            specs@,
            *workspace,
            resolved.entries@,
            organisation@,
            position@,
            document@,
            false,
        ),
{
    let application = match record_path(workspace, organisation, position) {
        Ok(p) => p,
        Err(e) => {
            return Err(RenderError::Opportunity(e));
        },
    };
    let mut location = string_of("opportunities/");
    push_str(&mut location, organisation);
    push_str(&mut location, "/");
    push_str(&mut location, position);
    push_str(&mut location, "/application.json");
    match checked_line_contracts(manifest, document, location.as_str(), true) {
        Some(Ok(())) => {},
        Some(Err(e)) => {
            return Err(RenderError::Contract(e));
        },
        None => {
            return vstd::pervasive::unreached();
        },
    }
    let language = match value_at(document, Ptr::JobLanguage) {
        Some(v) => match v.as_str() {
            Some(s) => s,
            None => "",
        },
        None => "",
    };
    proof {
        reveal_strlit("");
        assert(language@ == language_of(document@));
    }
    let locale = normalize_locale(language)?;
    let pages = match int_at(document, Ptr::Pages) {
        Ok(n) => n,
        Err(_) => {
            return vstd::pervasive::unreached();
        },
    };
    let enabled = match value_at(document, Ptr::TailoredCl) {
        Some(cover) => match cover.get("enabled") {
            Some(e) => match e.as_bool() {
                Some(b) => b,
                None => {
                    return vstd::pervasive::unreached();
                },
            },
            None => {
                return vstd::pervasive::unreached();
            },
        },
        None => {
            return vstd::pervasive::unreached();
        },
    };
    let profile = workspace.path("cvl/general/profile.json");
    let mut cv_out = string_of("opportunities/");
    push_str(&mut cv_out, organisation);
    push_str(&mut cv_out, "/");
    push_str(&mut cv_out, position);
    push_str(&mut cv_out, "/output/");
    push_str(&mut cv_out, "cv.pdf");
    let cv_output = workspace.path(cv_out.as_str());
    let app_resolved = resolved.lookup(application.as_str());
    let profile_resolved = resolved.lookup(profile.as_str());
    proof {
        let ar = resolution_of(resolved.entries@, application@);
        let pr = resolution_of(resolved.entries@, profile@);
        lemma_typst_form(workspace.root_view(), app_resolved, ar);
        lemma_typst_form(workspace.root_view(), profile_resolved, pr);
    }
    let app_resolved2 = match &app_resolved {
        Some(p) => Some(string_of(p.as_str())),
        None => None,
    };
    let profile_resolved2 = match &profile_resolved {
        Some(p) => Some(string_of(p.as_str())),
        None => None,
    };
    proof {
        lemma_typst_form(workspace.root_view(), app_resolved, app_resolved2);
        lemma_typst_form(workspace.root_view(), profile_resolved, profile_resolved2);
    }
    let mut cv = cv_spec(
        workspace,
        locale,
        pages as usize,
        application.as_str(),
        app_resolved,
        profile.as_str(),
        profile_resolved,
        cv_output.as_str(),
    )?;
    let mut name = string_of("CV ");
    push_str(&mut name, organisation);
    push_str(&mut name, "/");
    push_str(&mut name, position);
    cv.name = name;
    proof {
        lemma_cv_inputs(
            cv.inputs@,
            typst_of(*workspace, resolved.entries@, record_relative(organisation@, position@)),
            pages as nat,
            typst_of(*workspace, resolved.entries@, general_profile()),
        );
    }
    assert(cv.name@ =~= keyed_name("CV "@, organisation@, position@));
    assert(cv_out@ =~= output_relative(organisation@, position@, "cv.pdf"@));
    let mut specs: Vec<DocumentSpec> = Vec::new();
    specs.push(cv);
    if enabled {
        let mut cl_out = string_of("opportunities/");
        push_str(&mut cl_out, organisation);
        push_str(&mut cl_out, "/");
        push_str(&mut cl_out, position);
        push_str(&mut cl_out, "/output/");
        push_str(&mut cl_out, "cl.pdf");
        let cl_output = workspace.path(cl_out.as_str());
        let mut cl = cl_spec(
            workspace,
            locale,
            application.as_str(),
            app_resolved2,
            profile.as_str(),
            profile_resolved2,
            cl_output.as_str(),
        )?;
        let mut cl_name = string_of("cover letter ");
        push_str(&mut cl_name, organisation);
        push_str(&mut cl_name, "/");
        push_str(&mut cl_name, position);
        cl.name = cl_name;
        proof {
            lemma_cl_inputs(
                cl.inputs@,
                typst_of(*workspace, resolved.entries@, record_relative(organisation@, position@)),
                typst_of(*workspace, resolved.entries@, general_profile()),
            );
        }
        assert(cl.name@ =~= keyed_name("cover letter "@, organisation@, position@));
        assert(cl_out@ =~= output_relative(organisation@, position@, "cl.pdf"@));
        specs.push(cl);
    }
    Ok(specs)
}


/// The two general locales name themselves.
pub proof fn lemma_general_locales()
    ensures
        locale_of("de-ch"@) == Some("de-ch"@),
        locale_of("en-ch"@) == Some("en-ch"@),
{
    reveal_strlit("de");
    reveal_strlit("de-ch");
    reveal_strlit("en");
    reveal_strlit("en-ch");
    assert(!matches_ignoring_case("en-ch"@, "de-ch"@) && !matches_ignoring_case("en-ch"@, "de"@)) by {
        assert(!same_letter("en-ch"@[0], "de-ch"@[0]));
    }
}

/// The general documents of a locale are ready: its record and the profile
/// resolve inside the workspace.
pub open spec fn general_ready(w: Workspace, entries: Seq<(String, Option<String>)>, locale: Seq<char>) -> bool {
    typst_of(w, entries, general_application(locale)) is Some && typst_of(w, entries, general_profile())
        is Some
}

/// The general CV of `locale` with `pages` pages (with `line-contracts` set
/// to `report` when `report` holds).
pub open spec fn general_cv_described(
    spec: DocumentSpec,
    w: Workspace,
    entries: Seq<(String, Option<String>)>,
    locale: Seq<char>,
    pages: usize,
    report: bool,
) -> bool {
    let app = typst_of(w, entries, general_application(locale));
    let profile = typst_of(w, entries, general_profile());
    describes(
        spec,
        "CV "@ + locale,
        DocumentKind::Cv,
        join(w.root_view(), "cvl/cv/"@ + locale + "/main.typ"@),
        join(w.root_view(), "cvl/cv/output/"@ + locale + "/"@ + preset_name(pages)->0 + "/cv.pdf"@),
        pages as nat,
        |k: Seq<char>| reported(report, k, cv_input(app, pages as nat, profile, k)),
    )
}

/// The general cover letter of `locale` (with `line-contracts` set to
/// `report` when `report` holds).
pub open spec fn general_cl_described(
    spec: DocumentSpec,
    w: Workspace,
    entries: Seq<(String, Option<String>)>,
    locale: Seq<char>,
    report: bool,
) -> bool {
    let app = typst_of(w, entries, general_application(locale));
    let profile = typst_of(w, entries, general_profile());
    describes(
        spec,
        "cover letter "@ + locale,
        DocumentKind::CoverLetter,
        join(w.root_view(), "cvl/cl/"@ + locale + "/main.typ"@),
        join(w.root_view(), "cvl/cl/output/"@ + locale + "/cl.pdf"@),
        1,
        |k: Seq<char>| reported(report, k, cl_input(app, profile, k)),
    )
}

/// The general CV of a locale, described by input names.
pub fn general_cv(workspace: &Workspace, locale: &str, pages: usize, resolved: &Resolutions) -> (r: Result<
    DocumentSpec,
    RenderError,
>)
    requires
        locale@ == "de-ch"@ || locale@ == "en-ch"@,
        2 <= pages <= 4,
    ensures
        r is Ok <==> general_ready(*workspace, resolved.entries@, locale@),
        r matches Ok(spec) ==> general_cv_described(spec, *workspace, resolved.entries@, locale@, pages, false),
{
    proof {
        lemma_general_locales();
    }
    let spec = general_cv_spec(workspace, locale, pages, resolved)?;
    proof {
        lemma_cv_inputs(
            spec.inputs@,
            typst_of(*workspace, resolved.entries@, general_application(locale@)),
            pages as nat,
            typst_of(*workspace, resolved.entries@, general_profile()),
        );
    }
    Ok(spec)
}

/// The general cover letter of a locale, described by input names.
pub fn general_cl(workspace: &Workspace, locale: &str, resolved: &Resolutions) -> (r: Result<
    DocumentSpec,
    RenderError,
>)
    requires
        locale@ == "de-ch"@ || locale@ == "en-ch"@,
    ensures
        r is Ok <==> general_ready(*workspace, resolved.entries@, locale@),
        r matches Ok(spec) ==> general_cl_described(spec, *workspace, resolved.entries@, locale@, false),
{
    proof {
        lemma_general_locales();
    }
    let spec = general_cl_spec(workspace, locale, resolved)?;
    proof {
        lemma_cl_inputs(
            spec.inputs@,
            typst_of(*workspace, resolved.entries@, general_application(locale@)),
            typst_of(*workspace, resolved.entries@, general_profile()),
        );
    }
    Ok(spec)
}

/// The general documents of one locale in rendering order: the CV with two,
/// three and four pages, then the cover letter.
fn push_general_set(
    workspace: &Workspace,
    locale: &str,
    resolved: &Resolutions,
    out: &mut Vec<DocumentSpec>,
) -> (r: Result<(), RenderError>)
    requires
        locale@ == "de-ch"@ || locale@ == "en-ch"@,
    ensures
        r is Ok <==> general_ready(*workspace, resolved.entries@, locale@),
        r is Ok ==> {
            let n = old(out)@.len() as int;
            &&& final(out)@.len() == n + 4
            &&& final(out)@.subrange(0, n) == old(out)@
            &&& general_cv_described(final(out)@[n], *workspace, resolved.entries@, locale@, 2, false)
            &&& general_cv_described(final(out)@[n + 1], *workspace, resolved.entries@, locale@, 3, false)
            &&& general_cv_described(final(out)@[n + 2], *workspace, resolved.entries@, locale@, 4, false)
            &&& general_cl_described(final(out)@[n + 3], *workspace, resolved.entries@, locale@, false)
        },
{
    let two = general_cv(workspace, locale, 2, resolved)?;
    let three = general_cv(workspace, locale, 3, resolved)?;
    let four = general_cv(workspace, locale, 4, resolved)?;
    let letter = general_cl(workspace, locale, resolved)?;
    let ghost before = out@;
    out.push(two);
    out.push(three);
    out.push(four);
    out.push(letter);
    assert(out@.subrange(0, before.len() as int) =~= before);
    Ok(())
}

/// The general documents that `render_general` renders, in order: for
/// `de-ch`, then `en-ch`, the CV with two, three and four pages, then the
/// cover letter. The engine renders each one; the library decides which.
pub fn render_general(workspace: &Workspace, resolved: &Resolutions) -> (r: Result<
    Vec<DocumentSpec>,
    RenderError,
>)
    ensures
        r is Ok <==> general_ready(*workspace, resolved.entries@, "de-ch"@) && general_ready(
            *workspace,
            resolved.entries@,
            "en-ch"@,
        ),
        r matches Ok(specs) ==> {
            let w = *workspace;
            let e = resolved.entries@;
            &&& specs@.len() == 8
            &&& general_cv_described(specs@[0], w, e, "de-ch"@, 2, false)
            &&& general_cv_described(specs@[1], w, e, "de-ch"@, 3, false)
            &&& general_cv_described(specs@[2], w, e, "de-ch"@, 4, false)
            &&& general_cl_described(specs@[3], w, e, "de-ch"@, false)
            &&& general_cv_described(specs@[4], w, e, "en-ch"@, 2, false)
            &&& general_cv_described(specs@[5], w, e, "en-ch"@, 3, false)
            &&& general_cv_described(specs@[6], w, e, "en-ch"@, 4, false)
            &&& general_cl_described(specs@[7], w, e, "en-ch"@, false)
        },
{
    let mut specs: Vec<DocumentSpec> = Vec::new();
    push_general_set(workspace, "de-ch", resolved, &mut specs)?;
    let ghost first = specs@;
    match push_general_set(workspace, "en-ch", resolved, &mut specs) {
        Ok(()) => {},
        Err(e) => {
            return Err(e);
        },
    }
    assert(specs@[0] == first[0] && specs@[1] == first[1] && specs@[2] == first[2] && specs@[3] == first[3]);
    Ok(specs)
}

/// `bytes` starts with the PDF header `%PDF-`.
pub open spec fn is_pdf(bytes: Seq<u8>) -> bool {
    bytes.len() >= 5 && bytes[0] == 0x25u8 && bytes[1] == 0x50u8 && bytes[2] == 0x44u8 && bytes[3]
        == 0x46u8 && bytes[4] == 0x2du8
}

/// What rendering `spec` does with the bytes that the engine exported: they
/// must be a PDF (start with `%PDF-`), else the document is refused.
pub fn render_spec(spec: &DocumentSpec, exported: &Vec<u8>) -> (r: Result<(), RenderError>)
    ensures
        r is Ok <==> is_pdf(exported@),
        r matches Err(e) ==> (e matches RenderError::NotPdf(n) && n@ == spec.name@),
{
    if exported.len() >= 5 && exported[0] == 0x25u8 && exported[1] == 0x50u8 && exported[2] == 0x44u8
        && exported[3] == 0x46u8 && exported[4] == 0x2du8 {
        Ok(())
    } else {
        Err(RenderError::NotPdf(string_of(spec.name.as_str())))
    }
}


/// Two specifications that agree in every field but their inputs, whose
/// inputs are `base`, respectively `base` with `line-contracts` set to
/// `report`.
pub open spec fn reports_line_contracts_of(b: DocumentSpec, a: DocumentSpec) -> bool {
    &&& b.name@ == a.name@
    &&& b.kind == a.kind
    &&& b.source@ == a.source@
    &&& b.output@ == a.output@
    &&& b.expected_pages == a.expected_pages
    &&& input_value(b.inputs@, "line-contracts"@) == Some("report"@)
    &&& forall|k: Seq<char>|
        k != "line-contracts"@ ==> #[trigger] input_value(b.inputs@, k) == input_value(a.inputs@, k)
}

proof fn lemma_reported(
    a: DocumentSpec,
    b: DocumentSpec,
    name: Seq<char>,
    kind: DocumentKind,
    source: Seq<char>,
    output: Seq<char>,
    pages: nat,
    base: spec_fn(Seq<char>) -> Option<Seq<char>>,
)
    requires
        describes(a, name, kind, source, output, pages, |k: Seq<char>| reported(false, k, base(k))),
        describes(b, name, kind, source, output, pages, |k: Seq<char>| reported(true, k, base(k))),
    ensures
        reports_line_contracts_of(b, a),
{
    assert(input_value(b.inputs@, "line-contracts"@) == Some("report"@));
    assert forall|k: Seq<char>| k != "line-contracts"@ implies #[trigger] input_value(b.inputs@, k)
        == input_value(a.inputs@, k) by {
        assert(input_value(b.inputs@, k) == reported(true, k, base(k)));
        assert(input_value(a.inputs@, k) == reported(false, k, base(k)));
    }
}

/// The documents that the line measurement compiles (`general_specs`) are
/// the general CV and cover letter of the locale (`general_cv`,
/// `general_cl`) with the one input `line-contracts` set to `report`.
pub proof fn measured_general_documents_are_general_documents(
    a: DocumentSpec,
    b: DocumentSpec,
    c: DocumentSpec,
    d: DocumentSpec,
    w: Workspace,
    entries: Seq<(String, Option<String>)>,
    locale: Seq<char>,
    pages: usize,
)
    requires
        general_cv_described(a, w, entries, locale, pages, false),
        general_cv_described(b, w, entries, locale, pages, true),
        general_cl_described(c, w, entries, locale, false),
        general_cl_described(d, w, entries, locale, true),
    ensures
        reports_line_contracts_of(b, a),
        reports_line_contracts_of(d, c),
{
    let app = typst_of(w, entries, general_application(locale));
    let profile = typst_of(w, entries, general_profile());
    let root = w.root_view();
    lemma_reported(
        a,
        b,
        "CV "@ + locale,
        DocumentKind::Cv,
        join(root, "cvl/cv/"@ + locale + "/main.typ"@),
        join(root, "cvl/cv/output/"@ + locale + "/"@ + preset_name(pages)->0 + "/cv.pdf"@),
        pages as nat,
        |k: Seq<char>| cv_input(app, pages as nat, profile, k),
    );
    lemma_reported(
        c,
        d,
        "cover letter "@ + locale,
        DocumentKind::CoverLetter,
        join(root, "cvl/cl/"@ + locale + "/main.typ"@),
        join(root, "cvl/cl/output/"@ + locale + "/cl.pdf"@),
        1,
        |k: Seq<char>| cl_input(app, profile, k),
    );
}

/// The documents that the line measurement compiles for an opportunity
/// (`keyed_specs`) are the opportunity's documents (`opportunity_specs`),
/// as many and in the same order, each with the one input `line-contracts`
/// set to `report`.
pub proof fn measured_opportunity_documents_are_opportunity_documents(
    u: Seq<DocumentSpec>,
    v: Seq<DocumentSpec>,
    w: Workspace,
    entries: Seq<(String, Option<String>)>,
    organisation: Seq<char>,
    position: Seq<char>,
    document: JsonV,
)
    requires
        opportunity_described(u, w, entries, organisation, position, document, false),
        opportunity_described(v, w, entries, organisation, position, document, true),
    ensures
        v.len() == u.len(),
        forall|i: int| 0 <= i < u.len() ==> reports_line_contracts_of(#[trigger] v[i], u[i]),
{
    let locale = locale_of(language_of(document))->0;
    let pages = u64_at(document, Ptr::Pages)->0;
    let app = typst_of(w, entries, record_relative(organisation, position));
    let profile = typst_of(w, entries, general_profile());
    let root = w.root_view();
    lemma_reported(
        u[0],
        v[0],
        keyed_name("CV "@, organisation, position),
        DocumentKind::Cv,
        join(root, "cvl/cv/"@ + locale + "/main.typ"@),
        join(root, output_relative(organisation, position, "cv.pdf"@)),
        pages as nat,
        |k: Seq<char>| cv_input(app, pages as nat, profile, k),
    );
    if cover_enabled(document) {
        lemma_reported(
            u[1],
            v[1],
            keyed_name("cover letter "@, organisation, position),
            DocumentKind::CoverLetter,
            join(root, "cvl/cl/"@ + locale + "/main.typ"@),
            join(root, output_relative(organisation, position, "cl.pdf"@)),
            1,
            |k: Seq<char>| cl_input(app, profile, k),
        );
    }
}


/// The general cover letter of a locale (`general_cl_spec`) is the cover
/// letter that `cl_spec` makes from the locale's general record, the
/// general profile and the output `cvl/cl/output/<locale>/cl.pdf`: the same
/// fields and the same inputs.
pub proof fn general_cover_letter_is_cl_spec(
    g: DocumentSpec,
    c: DocumentSpec,
    w: Workspace,
    entries: Seq<(String, Option<String>)>,
    locale: Seq<char>,
)
    requires
        general_cl_described(g, w, entries, locale, false),
        cl_spec_fields(
            c,
            w,
            locale,
            typst_of(w, entries, general_application(locale)),
            typst_of(w, entries, general_profile()),
            join(w.root_view(), "cvl/cl/output/"@ + locale + "/cl.pdf"@),
        ),
    ensures
        g.name@ == c.name@,
        g.kind == c.kind,
        g.source@ == c.source@,
        g.output@ == c.output@,
        g.expected_pages == c.expected_pages,
        forall|k: Seq<char>| #[trigger] input_value(g.inputs@, k) == input_value(c.inputs@, k),
{
    let app = typst_of(w, entries, general_application(locale));
    let profile = typst_of(w, entries, general_profile());
    lemma_cl_inputs(c.inputs@, app, profile);
    assert forall|k: Seq<char>| #[trigger] input_value(g.inputs@, k) == input_value(c.inputs@, k) by {
        assert(input_value(g.inputs@, k) == reported(false, k, cl_input(app, profile, k)));
    }
}

/// The general CV of a locale in `pages` pages (`general_cv_spec`) is the
/// CV that `cv_spec` makes from the locale's general record, the general
/// profile and the output of the page preset: the same fields and inputs.
pub proof fn general_cv_is_cv_spec(
    g: DocumentSpec,
    c: DocumentSpec,
    w: Workspace,
    entries: Seq<(String, Option<String>)>,
    locale: Seq<char>,
    pages: usize,
)
    requires
        general_cv_described(g, w, entries, locale, pages, false),
        cv_spec_fields(
            c,
            w,
            locale,
            pages as nat,
            typst_of(w, entries, general_application(locale)),
            typst_of(w, entries, general_profile()),
            join(w.root_view(), "cvl/cv/output/"@ + locale + "/"@ + preset_name(pages)->0 + "/cv.pdf"@),
        ),
    ensures
        g.name@ == c.name@,
        g.kind == c.kind,
        g.source@ == c.source@,
        g.output@ == c.output@,
        g.expected_pages == c.expected_pages,
        forall|k: Seq<char>| #[trigger] input_value(g.inputs@, k) == input_value(c.inputs@, k),
{
    let app = typst_of(w, entries, general_application(locale));
    let profile = typst_of(w, entries, general_profile());
    lemma_cv_inputs(c.inputs@, app, pages as nat, profile);
    assert forall|k: Seq<char>| #[trigger] input_value(g.inputs@, k) == input_value(c.inputs@, k) by {
        assert(input_value(g.inputs@, k) == reported(false, k, cv_input(app, pages as nat, profile, k)));
    }
}


proof fn lemma_cv_fields_described(
    c: DocumentSpec,
    w: Workspace,
    entries: Seq<(String, Option<String>)>,
    locale: Seq<char>,
    pages: usize,
)
    requires
        cv_spec_fields(
            c,
            w,
            locale,
            pages as nat,
            typst_of(w, entries, general_application(locale)),
            typst_of(w, entries, general_profile()),
            join(w.root_view(), "cvl/cv/output/"@ + locale + "/"@ + preset_name(pages)->0 + "/cv.pdf"@),
        ),
    ensures
        general_cv_described(c, w, entries, locale, pages, false),
{
    let app = typst_of(w, entries, general_application(locale));
    let profile = typst_of(w, entries, general_profile());
    lemma_cv_inputs(c.inputs@, app, pages as nat, profile);
}

proof fn lemma_cl_fields_described(
    c: DocumentSpec,
    w: Workspace,
    entries: Seq<(String, Option<String>)>,
    locale: Seq<char>,
)
    requires
        cl_spec_fields(
            c,
            w,
            locale,
            typst_of(w, entries, general_application(locale)),
            typst_of(w, entries, general_profile()),
            join(w.root_view(), "cvl/cl/output/"@ + locale + "/cl.pdf"@),
        ),
    ensures
        general_cl_described(c, w, entries, locale, false),
{
    let app = typst_of(w, entries, general_application(locale));
    let profile = typst_of(w, entries, general_profile());
    lemma_cl_inputs(c.inputs@, app, profile);
}


/// Two specifications of the same general CV (as `general_cv_spec` makes
/// it and as `render_general` lists it) agree in every field and input, so
/// `render_general` renders, in order, the outputs of `general_cv_spec`
/// and `general_cl_spec` for `de-ch` and then `en-ch`.
pub proof fn general_documents_are_determined(
    a: DocumentSpec,
    b: DocumentSpec,
    c: DocumentSpec,
    d: DocumentSpec,
    w: Workspace,
    entries: Seq<(String, Option<String>)>,
    locale: Seq<char>,
    pages: usize,
)
    requires
        general_cv_described(a, w, entries, locale, pages, false),
        general_cv_described(b, w, entries, locale, pages, false),
        general_cl_described(c, w, entries, locale, false),
        general_cl_described(d, w, entries, locale, false),
    ensures
        a.name@ == b.name@ && a.kind == b.kind && a.source@ == b.source@ && a.output@ == b.output@
            && a.expected_pages == b.expected_pages,
        forall|k: Seq<char>| #[trigger] input_value(a.inputs@, k) == input_value(b.inputs@, k),
        c.name@ == d.name@ && c.kind == d.kind && c.source@ == d.source@ && c.output@ == d.output@
            && c.expected_pages == d.expected_pages,
        forall|k: Seq<char>| #[trigger] input_value(c.inputs@, k) == input_value(d.inputs@, k),
{
    let app = typst_of(w, entries, general_application(locale));
    let profile = typst_of(w, entries, general_profile());
    assert forall|k: Seq<char>| #[trigger] input_value(a.inputs@, k) == input_value(b.inputs@, k) by {
        assert(input_value(a.inputs@, k) == reported(false, k, cv_input(app, pages as nat, profile, k)));
        assert(input_value(b.inputs@, k) == reported(false, k, cv_input(app, pages as nat, profile, k)));
    }
    assert forall|k: Seq<char>| #[trigger] input_value(c.inputs@, k) == input_value(d.inputs@, k) by {
        assert(input_value(c.inputs@, k) == reported(false, k, cl_input(app, profile, k)));
        assert(input_value(d.inputs@, k) == reported(false, k, cl_input(app, profile, k)));
    }
}

} // verus!
