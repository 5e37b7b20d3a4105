//! Line measurement: which documents are measured, and what a measured
//! document must report.
//!
//! Measured documents are compiled with the input `line-contracts` set to
//! `report`, so that the templates emit one metric per measured line.
use vstd::prelude::*;

use crate::application::{contracts_defined, json_at, opt_view, value_at, Ptr};
use crate::json::{as_items, as_text, as_u64, field, items_view, lemma_items_view, Json, JsonV};
use crate::render::DocumentKind;
use crate::text::{all_digits, decimal, digits_value, is_digit, is_prefix, push_decimal, push_str, string_of};
use crate::render::{
    first_opportunity_error, general_cl, general_cl_described, general_cv,
    general_cv_described, general_ready, input_value, opportunity_described, opportunity_ready,
    opportunity_specs, reported, DocumentSpec, RenderError, Resolutions,
};
use crate::schema::{regex_compiles, regex_is_match, regex_match, strings_view};
use crate::workspace::Workspace;

verus! {

/// Sets the input `line-contracts` to `report`.
pub fn report_line_contracts(spec: &mut DocumentSpec)
    requires
        old(spec).well_formed(),
    ensures
        final(spec).well_formed(),
        final(spec).name == old(spec).name,
        final(spec).kind == old(spec).kind,
        final(spec).source == old(spec).source,
        final(spec).output == old(spec).output,
        final(spec).expected_pages == old(spec).expected_pages,
        forall|k: Seq<char>|
            #[trigger] input_value(final(spec).inputs@, k) == reported(
                true,
                k,
                input_value(old(spec).inputs@, k),
            ),
{
    spec.set_input("line-contracts", "report");
}

/// The general documents that `check` measures, in order: for `de-ch`, then
/// `en-ch`, the four-page CV and the cover letter, each reporting its lines.
pub fn general_specs(workspace: &Workspace, resolved: &Resolutions) -> (r: Result<
    Vec<DocumentSpec>,
    RenderError,
>)
    ensures
        r is Ok <==> general_ready(*workspace, resolved.entries@, "de-ch"@) && general_ready(
            *workspace,
            resolved.entries@,
            "en-ch"@,
        ),
        r matches Ok(specs) ==> {
            let w = *workspace;
            let e = resolved.entries@;
            &&& specs@.len() == 4
            &&& general_cv_described(specs@[0], w, e, "de-ch"@, 4, true)
            &&& general_cl_described(specs@[1], w, e, "de-ch"@, true)
            &&& general_cv_described(specs@[2], w, e, "en-ch"@, 4, true)
            &&& general_cl_described(specs@[3], w, e, "en-ch"@, true)
        },
{
    let mut specs: Vec<DocumentSpec> = Vec::new();
    let mut cv = general_cv(workspace, "de-ch", 4, resolved)?;
    report_line_contracts(&mut cv);
    specs.push(cv);
    let mut cl = general_cl(workspace, "de-ch", resolved)?;
    report_line_contracts(&mut cl);
    specs.push(cl);
    let mut cv = general_cv(workspace, "en-ch", 4, resolved)?;
    report_line_contracts(&mut cv);
    specs.push(cv);
    let mut cl = general_cl(workspace, "en-ch", resolved)?;
    report_line_contracts(&mut cl);
    specs.push(cl);
    Ok(specs)
}

/// The documents of an opportunity that `measure` measures: those of
/// `opportunity_specs`, each reporting its lines.
pub fn keyed_specs(
    workspace: &Workspace,
    organisation: &str,
    position: &str,
    document: &Json,
    manifest: Option<&Json>,
    resolved: &Resolutions,
) -> (r: Result<Vec<DocumentSpec>, RenderError>)
    requires
        contracts_defined(opt_view(manifest), document@, true),
    ensures
        r is Ok <==> opportunity_ready(
            *workspace,
            resolved.entries@,
            organisation@,
            position@,
            document@,
            opt_view(manifest),
        ),
        r matches Err(e) ==> first_opportunity_error(
            e,
            organisation@,
            position@,
            document@,
            opt_view(manifest),
        ),
        r matches Ok(specs) ==> opportunity_described(
            specs@,
            *workspace,
            resolved.entries@,
            organisation@,
            position@,
            document@,
            true,
        ),
{
    let mut specs = opportunity_specs(workspace, organisation, position, document, manifest, resolved)?;
    let ghost before = specs@;
    let mut result: Vec<DocumentSpec> = Vec::new();
    while specs.len() > 0
        invariant
            result@.len() + specs@.len() == before.len(),
            specs@ == before.subrange(result@.len() as int, before.len() as int),
            forall|i: int| 0 <= i < before.len() ==> (#[trigger] before[i]).well_formed(),
            forall|i: int|
                0 <= i < result@.len() ==> {
                    let a = before[i];
                    let b = #[trigger] result@[i];
                    &&& b.well_formed()
                    &&& b.name == a.name
                    &&& b.kind == a.kind
                    &&& b.source == a.source
                    &&& b.output == a.output
                    &&& b.expected_pages == a.expected_pages
                    &&& forall|k: Seq<char>|
                        #[trigger] input_value(b.inputs@, k) == reported(
                            true,
                            k,
                            input_value(a.inputs@, k),
                        )
                },
        decreases specs@.len(),
    {
        let mut spec = specs.remove(0);
        report_line_contracts(&mut spec);
        result.push(spec);
    }
    Ok(result)
}


/// Why a measured metric set is refused.
#[derive(Debug)]
pub enum MeasureError {
    /// A metric lacks the text field `field`.
    MissingField(String),
    /// The CV (named) does not report exactly five Summary lines.
    SummaryLines(String),
    /// The CV (named) reports no line of a required kind.
    NoLines { document: String, kind: String },
    /// `ccvl.json` could not be read.
    ManifestUnreadable,
    /// `ccvl.json` has no cover-letter contract.
    MissingCoverContract,
    /// A body metric of the letter (named) has a malformed id.
    MalformedBodyId(String),
    /// A body metric id of the letter (named) holds a paragraph number too large for `usize`.
    ParagraphNumber(String),
    /// A body metric of the letter (named) names a paragraph outside 1–6.
    UnknownParagraph(String),
    /// The cover-letter contract has no paragraph contracts.
    MissingParagraphContracts,
    /// A paragraph (from 1) of the letter uses a line count outside its bounds.
    ParagraphLines { document: String, paragraph: usize, minimum: u64, maximum: u64, actual: usize },
    /// The letter's body line count is outside 25–28.
    BodyLines { document: String, found: usize },
    /// The letter does not report five highlights.
    Highlights(String),
    /// The letter does not report one vertical-gap and one highlight-position metric.
    Layout(String),
    /// The letter's metric set holds other metrics.
    UnexpectedSet(String),
    /// The cover-letter contract has no paragraph regions.
    MissingRegions,
    /// A paragraph region lists no paragraphs.
    MissingRegionParagraphs,
    /// A paragraph region has no preferred totals.
    MissingPreferredTotals,
}

/// The mathematical form of a measurement error.
pub enum MeasureFault {
    MissingField(Seq<char>),
    SummaryLines(Seq<char>),
    NoLines(Seq<char>, Seq<char>),
    ManifestUnreadable,
    MissingCoverContract,
    MalformedBodyId(Seq<char>),
    ParagraphNumber(Seq<char>),
    UnknownParagraph(Seq<char>),
    MissingParagraphContracts,
    ParagraphLines(Seq<char>, nat, u64, u64, nat),
    BodyLines(Seq<char>, nat),
    Highlights(Seq<char>),
    Layout(Seq<char>),
    UnexpectedSet(Seq<char>),
    MissingRegions,
    MissingRegionParagraphs,
    MissingPreferredTotals,
}

impl View for MeasureError {
    type V = MeasureFault;

    open spec fn view(&self) -> MeasureFault {
        match self {
            MeasureError::MissingField(f) => MeasureFault::MissingField(f@),
            MeasureError::SummaryLines(d) => MeasureFault::SummaryLines(d@),
            MeasureError::NoLines { document, kind } => MeasureFault::NoLines(document@, kind@),
            MeasureError::ManifestUnreadable => MeasureFault::ManifestUnreadable,
            MeasureError::MissingCoverContract => MeasureFault::MissingCoverContract,
            MeasureError::MalformedBodyId(d) => MeasureFault::MalformedBodyId(d@),
            MeasureError::ParagraphNumber(d) => MeasureFault::ParagraphNumber(d@),
            MeasureError::UnknownParagraph(d) => MeasureFault::UnknownParagraph(d@),
            MeasureError::MissingParagraphContracts => MeasureFault::MissingParagraphContracts,
            MeasureError::ParagraphLines { document, paragraph, minimum, maximum, actual } =>
                MeasureFault::ParagraphLines(
                document@,
                *paragraph as nat,
                *minimum,
                *maximum,
                *actual as nat,
            ),
            MeasureError::BodyLines { document, found } => MeasureFault::BodyLines(
                document@,
                *found as nat,
            ),
            MeasureError::Highlights(d) => MeasureFault::Highlights(d@),
            MeasureError::Layout(d) => MeasureFault::Layout(d@),
            MeasureError::UnexpectedSet(d) => MeasureFault::UnexpectedSet(d@),
            MeasureError::MissingRegions => MeasureFault::MissingRegions,
            MeasureError::MissingRegionParagraphs => MeasureFault::MissingRegionParagraphs,
            MeasureError::MissingPreferredTotals => MeasureFault::MissingPreferredTotals,
        }
    }
}

/// The text field `f` of a metric.
pub open spec fn text_field(m: JsonV, f: Seq<char>) -> Option<Seq<char>> {
    match field(m, f) {
        Some(v) => as_text(v),
        None => None,
    }
}

/// The text field `f` of a metric.
fn text_of<'a>(m: &'a Json, f: &str) -> (r: Option<&'a str>)
    ensures
        r matches Some(t) ==> text_field(m@, f@) == Some(t@),
        r is None ==> text_field(m@, f@) is None,
{
    match m.get(f) {
        Some(v) => v.as_str(),
        None => None,
    }
}

/// Every metric has a text `kind`.
pub open spec fn all_kinds(metrics: Seq<JsonV>) -> bool {
    forall|i: int| 0 <= i < metrics.len() ==> (#[trigger] text_field(metrics[i], "kind"@)) is Some
}

/// How many metrics are of kind `kind`.
pub open spec fn kind_count(metrics: Seq<JsonV>, kind: Seq<char>) -> nat
    decreases metrics.len(),
{
    if metrics.len() == 0 {
        0
    } else {
        kind_count(metrics.drop_last(), kind) + if text_field(metrics.last(), "kind"@) == Some(kind) {
            1nat
        } else {
            0nat
        }
    }
}

/// The pattern of a body metric id: `cl.paragraph.`, a run of Unicode
/// decimal digits (the paragraph), a dot and another such run (the line).
pub open spec fn body_id_pattern() -> Seq<char> {
    "^cl\\.paragraph\\.(\\d+)\\.(\\d+)$"@
}

/// The first index at or after `k` that does not hold an ASCII digit.
pub open spec fn ascii_run_end(s: Seq<char>, k: int) -> int
    decreases s.len() - k,
{
    if k < 0 || k >= s.len() || !is_digit(s[k]) {
        k
    } else {
        ascii_run_end(s, k + 1)
    }
}

/// What a body metric id names.
pub enum BodyId {
    Malformed,
    TooLarge,
    Paragraph(nat),
}

/// The paragraph number that a body metric id names. The id must match
/// `body_id_pattern` (else, or where the pattern does not compile, it is
/// malformed); its paragraph, the digits up to the next dot, is then read
/// as a `usize`, which takes ASCII digits only: a paragraph with another
/// decimal digit, or one above `usize::MAX`, cannot be read (`TooLarge`).
pub open spec fn body_id(id: Seq<char>) -> BodyId {
    if !(regex_compiles(body_id_pattern()) && regex_is_match(body_id_pattern(), id)) {
        BodyId::Malformed
    } else {
        let i = ascii_run_end(id, 13);
        if 13 < i < id.len() && id[i] == '.' && digits_value(id.subrange(13, i)) <= usize::MAX {
            BodyId::Paragraph(digits_value(id.subrange(13, i)))
        } else {
            BodyId::TooLarge
        }
    }
}

/// The paragraph number in a body metric id, as an exec value.
pub enum ParagraphId {
    Malformed,
    TooLarge,
    Paragraph(usize),
}

/// The character at `i` is a decimal digit.
fn digit_at(s: &str, i: usize) -> (r: bool)
    requires
        i < s@.len(),
    ensures
        r == is_digit(s@[i as int]),
{
    let c = s.get_char(i);
    '0' <= c && c <= '9'
}

/// Reads a body metric id `cl.paragraph.<digits>.<digits>`.
#[verifier::loop_isolation(false)]
pub fn parse_body_id(id: &str) -> (r: ParagraphId)
    ensures
        match body_id(id@) {
            BodyId::Malformed => r is Malformed,
            BodyId::TooLarge => r is TooLarge,
            BodyId::Paragraph(p) => r matches ParagraphId::Paragraph(q) && q == p,
        },
{
    match regex_match("^cl\\.paragraph\\.(\\d+)\\.(\\d+)$", id) {
        Some(true) => {},
        _ => return ParagraphId::Malformed,
    }
    let n = id.unicode_len();
    if n <= 13 {
        return ParagraphId::TooLarge;
    }
    let mut i: usize = 13;
    let mut value: Option<usize> = Some(0);
    assert(id@.subrange(13, 13) =~= Seq::<char>::empty());
    while i < n && digit_at(id, i)
        invariant
            n == id@.len(),
            13 <= i <= n,
            ascii_run_end(id@, i as int) == ascii_run_end(id@, 13),
            match value {
                Some(v) => v == digits_value(id@.subrange(13, i as int)),
                None => digits_value(id@.subrange(13, i as int)) > usize::MAX,
            },
        decreases n - i,
    {
        let c = id.get_char(i);
        let d = (c as u32 - '0' as u32) as usize;
        proof {
            let p = id@.subrange(13, i + 1);
            assert(p.drop_last() =~= id@.subrange(13, i as int));
            assert(p.last() == c);
        }
        value = match value {
            Some(v) => if v > (usize::MAX - d) / 10 {
                None
            } else {
                Some(v * 10 + d)
            },
            None => None,
        };
        i = i + 1;
    }
    assert(ascii_run_end(id@, i as int) == i);
    if i == 13 || i >= n || id.get_char(i) != '.' {
        return ParagraphId::TooLarge;
    }
    match value {
        Some(v) => ParagraphId::Paragraph(v),
        None => ParagraphId::TooLarge,
    }
}

/// A metric of the letter's body.
pub open spec fn is_body(m: JsonV) -> bool {
    text_field(m, "kind"@) == Some("cl-body"@)
}

/// Why the paragraph line counts could not be read.
pub enum CountFault {
    MissingId,
    Malformed,
    TooLarge,
    Unknown,
}

/// The lines that the body metrics among the first `k` metrics give each of
/// the six paragraphs, or why an id cannot be read.
pub open spec fn body_counts(metrics: Seq<JsonV>, k: int) -> Result<Seq<nat>, CountFault>
    decreases k,
{
    if k <= 0 {
        Ok(seq![0nat, 0nat, 0nat, 0nat, 0nat, 0nat])
    } else {
        match body_counts(metrics, k - 1) {
            Err(f) => Err(f),
            Ok(c) => if !is_body(metrics[k - 1]) {
                Ok(c)
            } else {
                match text_field(metrics[k - 1], "id"@) {
                    None => Err(CountFault::MissingId),
                    Some(id) => match body_id(id) {
                        BodyId::Malformed => Err(CountFault::Malformed),
                        BodyId::TooLarge => Err(CountFault::TooLarge),
                        BodyId::Paragraph(p) => if 1 <= p <= 6 {
                            Ok(c.update(p - 1, c[p - 1] + 1))
                        } else {
                            Err(CountFault::Unknown)
                        },
                    },
                }
            },
        }
    }
}

proof fn lemma_counts_len(metrics: Seq<JsonV>, k: int)
    ensures
        body_counts(metrics, k) matches Ok(c) ==> c.len() == 6,
    decreases k,
{
    if k > 0 {
        lemma_counts_len(metrics, k - 1);
    }
}

proof fn lemma_counts_settled(metrics: Seq<JsonV>, k: int, n: int)
    requires
        0 <= k <= n,
        body_counts(metrics, k) is Err,
    ensures
        body_counts(metrics, n) == body_counts(metrics, k),
    decreases n - k,
{
    if n > k {
        lemma_counts_settled(metrics, k, n - 1);
    }
}

/// The error that a count fault gives for the document `name`.
pub open spec fn count_error(name: Seq<char>, f: CountFault) -> MeasureFault {
    match f {
        CountFault::MissingId => MeasureFault::MissingField("id"@),
        CountFault::Malformed => MeasureFault::MalformedBodyId(name),
        CountFault::TooLarge => MeasureFault::ParagraphNumber(name),
        CountFault::Unknown => MeasureFault::UnknownParagraph(name),
    }
}

/// `paragraph_counts`: the lines of each of the six paragraphs, read from
/// the ids `cl.paragraph.<paragraph>.<line>` of the body metrics.
pub fn paragraph_counts(spec: &DocumentSpec, metrics: &Vec<Json>) -> (r: Result<Vec<usize>, MeasureError>)
    ensures
        match body_counts(items_view(metrics@), metrics@.len() as int) {
            Ok(c) => (r matches Ok(v) && v@.len() == 6 && forall|i: int| 0 <= i < 6 ==> v@[i] == c[i]),
            Err(f) => (r matches Err(e) && e@ == count_error(spec.name@, f)),
        },
{
    proof {
        lemma_items_view(metrics@);
        reveal_strlit("cl-body");
    }
    let ghost mv = items_view(metrics@);
    let mut counts: Vec<usize> = vec![0, 0, 0, 0, 0, 0];
    let mut i: usize = 0;
    while i < metrics.len()
        invariant
            i <= metrics@.len(),
            mv == items_view(metrics@),
            mv.len() == metrics@.len(),
            forall|t: int| 0 <= t < metrics@.len() ==> #[trigger] mv[t] == metrics@[t]@,
            body_counts(mv, i as int) matches Ok(c) && c.len() == 6 && counts@.len() == 6 && (forall|t: int|
                0 <= t < 6 ==> counts@[t] == c[t]) && (forall|t: int| 0 <= t < 6 ==> c[t] <= i),
        decreases metrics@.len() - i,
    {
        let m = &metrics[i];
        assert(mv[i as int] == m@);
        let body = match text_of(m, "kind") {
            Some(k) => crate::text::same_text(k, "cl-body"),
            None => false,
        };
        if body {
            let id = match text_of(m, "id") {
                Some(t) => t,
                None => {
                    proof {
                        lemma_counts_settled(mv, i + 1, mv.len() as int);
                    }
                    return Err(MeasureError::MissingField(string_of("id")));
                },
            };
            match parse_body_id(id) {
                ParagraphId::Malformed => {
                    proof {
                        lemma_counts_settled(mv, i + 1, mv.len() as int);
                    }
                    return Err(MeasureError::MalformedBodyId(string_of(spec.name.as_str())));
                },
                ParagraphId::TooLarge => {
                    proof {
                        lemma_counts_settled(mv, i + 1, mv.len() as int);
                    }
                    return Err(MeasureError::ParagraphNumber(string_of(spec.name.as_str())));
                },
                ParagraphId::Paragraph(p) => {
                    if !(1 <= p && p <= 6) {
                        proof {
                            lemma_counts_settled(mv, i + 1, mv.len() as int);
                        }
                        return Err(MeasureError::UnknownParagraph(string_of(spec.name.as_str())));
                    }
                    let old = counts[p - 1];
                    proof {
                        let c = body_counts(mv, i as int)->Ok_0;
                        assert(body_counts(mv, i + 1) == Ok::<Seq<nat>, CountFault>(
                            c.update(p - 1, c[p - 1] + 1),
                        ));
                    }
                    counts.set(p - 1, old + 1);
                },
            }
        }
        i = i + 1;
    }
    Ok(counts)
}


/// A bound (`minimum` or `maximum`) of a paragraph's line contract, 0 when absent.
pub open spec fn line_bound(contract: JsonV, which: Seq<char>) -> u64 {
    match field(contract, "lines"@) {
        Some(lines) => match field(lines, which) {
            Some(v) => match as_u64(v) {
                Some(n) => n,
                None => 0,
            },
            None => 0,
        },
        None => 0,
    }
}

/// The first of the first `k` paragraphs whose line count breaks its contract.
pub open spec fn paragraph_lines_fault(
    name: Seq<char>,
    counts: Seq<nat>,
    contracts: Seq<JsonV>,
    k: int,
) -> Option<MeasureFault>
    decreases k,
{
    if k <= 0 {
        None
    } else {
        match paragraph_lines_fault(name, counts, contracts, k - 1) {
            Some(f) => Some(f),
            None => {
                let min = line_bound(contracts[k - 1], "minimum"@);
                let max = line_bound(contracts[k - 1], "maximum"@);
                if min <= counts[k - 1] <= max {
                    None
                } else {
                    Some(MeasureFault::ParagraphLines(name, k as nat, min, max, counts[k - 1]))
                }
            },
        }
    }
}

/// Why the metric set of the letter `name` is refused, given the
/// cover-letter contract.
pub open spec fn letter_fault(name: Seq<char>, metrics: Seq<JsonV>, contract: JsonV) -> Option<MeasureFault> {
    match body_counts(metrics, metrics.len() as int) {
        Err(f) => Some(count_error(name, f)),
        Ok(counts) => match field(contract, "paragraphs"@) {
            None => Some(MeasureFault::MissingParagraphContracts),
            Some(p) => match as_items(p) {
                None => Some(MeasureFault::MissingParagraphContracts),
                Some(contracts) => {
                    let k = if contracts.len() < 6 {
                        contracts.len() as int
                    } else {
                        6int
                    };
                    let body = kind_count(metrics, "cl-body"@);
                    match paragraph_lines_fault(name, counts, contracts, k) {
                        Some(f) => Some(f),
                        None => if !(25 <= body <= 28) {
                            Some(MeasureFault::BodyLines(name, body))
                        } else if kind_count(metrics, "cl-highlight"@) != 5 {
                            Some(MeasureFault::Highlights(name))
                        } else if kind_count(metrics, "cl-vertical-gap"@) != 1 || kind_count(
                            metrics,
                            "cl-highlight-center"@,
                        ) != 1 {
                            Some(MeasureFault::Layout(name))
                        } else if metrics.len() != body + 7 {
                            Some(MeasureFault::UnexpectedSet(name))
                        } else {
                            None
                        },
                    }
                },
            },
        },
    }
}

/// Why a document's metric set is refused (`None`: it is complete). A CV
/// reports exactly five Summary lines and some heading, subheading and
/// bullet lines; a cover letter reports its paragraphs within their
/// contracts, 25–28 body lines, five highlights, one vertical gap and one
/// highlight position, and nothing else. `manifest` is `ccvl.json` (`None`
/// when it could not be read), which only a cover letter consults.
pub open spec fn metric_set_fault(
    name: Seq<char>,
    kind: DocumentKind,
    metrics: Seq<JsonV>,
    manifest: Option<JsonV>,
) -> Option<MeasureFault> {
    if !all_kinds(metrics) {
        Some(MeasureFault::MissingField("kind"@))
    } else {
        match kind {
            DocumentKind::Cv => if kind_count(metrics, "cv-summary"@) != 5 {
                Some(MeasureFault::SummaryLines(name))
            } else if kind_count(metrics, "cv-heading"@) == 0 {
                Some(MeasureFault::NoLines(name, "cv-heading"@))
            } else if kind_count(metrics, "cv-subheading"@) == 0 {
                Some(MeasureFault::NoLines(name, "cv-subheading"@))
            } else if kind_count(metrics, "cv-bullet"@) == 0 {
                Some(MeasureFault::NoLines(name, "cv-bullet"@))
            } else {
                None
            },
            DocumentKind::CoverLetter => match manifest {
                None => Some(MeasureFault::ManifestUnreadable),
                Some(m) => match json_at(m, Ptr::CoverLetter) {
                    None => Some(MeasureFault::MissingCoverContract),
                    Some(contract) => letter_fault(name, metrics, contract),
                },
            },
        }
    }
}

/// The number of metrics of kind `kind`.
fn count_kind(metrics: &Vec<Json>, kind: &str) -> (r: usize)
    ensures
        r == kind_count(items_view(metrics@), kind@),
{
    proof {
        lemma_items_view(metrics@);
    }
    let ghost mv = items_view(metrics@);
    let mut n: usize = 0;
    let mut i: usize = 0;
    while i < metrics.len()
        invariant
            i <= metrics@.len(),
            mv == items_view(metrics@),
            mv.len() == metrics@.len(),
            forall|t: int| 0 <= t < metrics@.len() ==> #[trigger] mv[t] == metrics@[t]@,
            n == kind_count(mv.subrange(0, i as int), kind@),
            n <= i,
        decreases metrics@.len() - i,
    {
        proof {
            assert(mv.subrange(0, i + 1).drop_last() =~= mv.subrange(0, i as int));
            assert(mv.subrange(0, i + 1).last() == metrics@[i as int]@);
        }
        let same = match text_of(&metrics[i], "kind") {
            Some(k) => crate::text::same_text(k, kind),
            None => false,
        };
        if same {
            n = n + 1;
        }
        i = i + 1;
    }
    assert(mv.subrange(0, metrics@.len() as int) =~= mv);
    n
}

/// The first of the first `k` paragraphs whose line count breaks its contract.
#[verifier::loop_isolation(false)]
fn check_paragraph_lines(
    name: &str,
    counts: &Vec<usize>,
    contracts: &Vec<Json>,
    k: usize,
) -> (r: Result<(), MeasureError>)
    requires
        k <= counts@.len(),
        k <= contracts@.len(),
    ensures
        match paragraph_lines_fault(
            name@,
            Seq::new(counts@.len(), |i: int| counts@[i] as nat),
            items_view(contracts@),
            k as int,
        ) {
            None => r is Ok,
            Some(f) => (r matches Err(e) && e@ == f),
        },
{
    proof {
        lemma_items_view(contracts@);
    }
    let ghost cs = Seq::new(counts@.len(), |i: int| counts@[i] as nat);
    let ghost pv = items_view(contracts@);
    let mut i: usize = 0;
    while i < k
        invariant
            i <= k,
            paragraph_lines_fault(name@, cs, pv, i as int) is None,
        decreases k - i,
    {
        let c = &contracts[i];
        assert(pv[i as int] == c@);
        let lines = c.get("lines");
        let minimum: u64 = match lines {
            Some(l) => match l.get("minimum") {
                Some(v) => match v.as_u64() {
                    Some(n) => n,
                    None => 0,
                },
                None => 0,
            },
            None => 0,
        };
        let maximum: u64 = match lines {
            Some(l) => match l.get("maximum") {
                Some(v) => match v.as_u64() {
                    Some(n) => n,
                    None => 0,
                },
                None => 0,
            },
            None => 0,
        };
        let actual = counts[i];
        if !(minimum as u128 <= actual as u128 && actual as u128 <= maximum as u128) {
            proof {
                lemma_lines_settled(name@, cs, pv, i + 1, k as int);
            }
            return Err(
                MeasureError::ParagraphLines {
                    document: string_of(name),
                    paragraph: i + 1,
                    minimum,
                    maximum,
                    actual,
                },
            );
        }
        i = i + 1;
    }
    Ok(())
}

proof fn lemma_lines_settled(name: Seq<char>, counts: Seq<nat>, contracts: Seq<JsonV>, k: int, n: int)
    requires
        0 <= k <= n,
        paragraph_lines_fault(name, counts, contracts, k) is Some,
    ensures
        paragraph_lines_fault(name, counts, contracts, n) == paragraph_lines_fault(name, counts, contracts, k),
    decreases n - k,
{
    if n > k {
        lemma_lines_settled(name, counts, contracts, k, n - 1);
    }
}

/// Checks that a compiled document reported the metric set it must; see
/// `metric_set_fault`.
pub fn validate_metric_set(spec: &DocumentSpec, metrics: &Vec<Json>, manifest: Option<&Json>) -> (r: Result<
    (),
    MeasureError,
>)
    ensures
        match metric_set_fault(spec.name@, spec.kind, items_view(metrics@), opt_view(manifest)) {
            None => r is Ok,
            Some(f) => (r matches Err(e) && e@ == f),
        },
{
    proof {
        lemma_items_view(metrics@);
    }
    let ghost mv = items_view(metrics@);
    let mut i: usize = 0;
    while i < metrics.len()
        invariant
            i <= metrics@.len(),
            mv == items_view(metrics@),
            mv.len() == metrics@.len(),
            forall|t: int| 0 <= t < metrics@.len() ==> #[trigger] mv[t] == metrics@[t]@,
            forall|t: int| 0 <= t < i ==> (#[trigger] text_field(mv[t], "kind"@)) is Some,
        decreases metrics@.len() - i,
    {
        if text_of(&metrics[i], "kind").is_none() {
            assert(mv[i as int] == metrics@[i as int]@);
            assert(!all_kinds(mv));
            return Err(MeasureError::MissingField(string_of("kind")));
        }
        i = i + 1;
    }
    let name = spec.name.as_str();
    match spec.kind {
        DocumentKind::Cv => {
            if count_kind(metrics, "cv-summary") != 5 {
                return Err(MeasureError::SummaryLines(string_of(name)));
            }
            if count_kind(metrics, "cv-heading") == 0 {
                return Err(MeasureError::NoLines { document: string_of(name), kind: string_of("cv-heading") });
            }
            if count_kind(metrics, "cv-subheading") == 0 {
                return Err(
                    MeasureError::NoLines { document: string_of(name), kind: string_of("cv-subheading") },
                );
            }
            if count_kind(metrics, "cv-bullet") == 0 {
                return Err(MeasureError::NoLines { document: string_of(name), kind: string_of("cv-bullet") });
            }
            Ok(())
        },
        DocumentKind::CoverLetter => {
            let m = match manifest {
                Some(m) => m,
                None => {
                    return Err(MeasureError::ManifestUnreadable);
                },
            };
            let contract = match value_at(m, Ptr::CoverLetter) {
                Some(c) => c,
                None => {
                    return Err(MeasureError::MissingCoverContract);
                },
            };
            let counts = match paragraph_counts(spec, metrics) {
                Ok(c) => c,
                Err(e) => {
                    return Err(e);
                },
            };
            let contracts = match contract.get("paragraphs") {
                Some(p) => match p.as_array() {
                    Some(items) => items,
                    None => {
                        return Err(MeasureError::MissingParagraphContracts);
                    },
                },
                None => {
                    return Err(MeasureError::MissingParagraphContracts);
                },
            };
            let k = if contracts.len() < 6 {
                contracts.len()
            } else {
                6
            };
            proof {
                lemma_items_view(contracts@);
                lemma_counts_len(mv, mv.len() as int);
                let c = body_counts(mv, mv.len() as int)->Ok_0;
                assert(Seq::new(counts@.len(), |i: int| counts@[i] as nat) =~= c);
            }
            match check_paragraph_lines(name, &counts, contracts, k) {
                Ok(()) => {},
                Err(e) => {
                    return Err(e);
                },
            }
            let body = count_kind(metrics, "cl-body");
            if !(25 <= body && body <= 28) {
                return Err(MeasureError::BodyLines { document: string_of(name), found: body });
            }
            if count_kind(metrics, "cl-highlight") != 5 {
                return Err(MeasureError::Highlights(string_of(name)));
            }
            if count_kind(metrics, "cl-vertical-gap") != 1 || count_kind(metrics, "cl-highlight-center")
                != 1 {
                return Err(MeasureError::Layout(string_of(name)));
            }
            if metrics.len() != body + 7 {
                return Err(MeasureError::UnexpectedSet(string_of(name)));
            }
            Ok(())
        },
    }
}


/// An accepted line count that the letter's contract does not prefer.
#[derive(Debug)]
pub enum Preference {
    /// Paragraphs `first`–`last` use `total` lines, not one of `preferred`.
    Region { first: u64, last: u64, total: usize, preferred: Vec<u64> },
    /// The closing paragraph uses this many lines, not 3.
    Closing(usize),
}

/// The mathematical form of a preference warning.
pub enum PreferenceV {
    Region(u64, u64, nat, Seq<u64>),
    Closing(nat),
}

impl View for Preference {
    type V = PreferenceV;

    open spec fn view(&self) -> PreferenceV {
        match self {
            Preference::Region { first, last, total, preferred } => PreferenceV::Region(
                *first,
                *last,
                *total as nat,
                preferred@,
            ),
            Preference::Closing(n) => PreferenceV::Closing(*n as nat),
        }
    }
}

/// The views of a list of warnings.
pub open spec fn preferences_view(ws: Seq<Preference>) -> Seq<PreferenceV> {
    Seq::new(ws.len(), |i: int| ws[i]@)
}

/// What checking the preferences gives: no verdict (a region names a
/// paragraph that the document lacks, or misses its preferred total and
/// names no paragraph), a refusal, or the warnings.
pub enum Preferences {
    Unanswered,
    Refused(MeasureFault),
    Warnings(Seq<PreferenceV>),
}

/// The integers among `items`, in order.
pub open spec fn u64s(items: Seq<JsonV>) -> Seq<u64>
    decreases items.len(),
{
    if items.len() == 0 {
        Seq::empty()
    } else {
        match as_u64(items.last()) {
            Some(n) => u64s(items.drop_last()).push(n),
            None => u64s(items.drop_last()),
        }
    }
}

/// The lines of the paragraphs `numbers` (from 1), `None` where a number is
/// outside 1–6 or the sum exceeds `usize`.
pub open spec fn region_total(numbers: Seq<u64>, counts: Seq<nat>) -> Option<nat>
    decreases numbers.len(),
{
    if numbers.len() == 0 {
        Some(0)
    } else {
        match region_total(numbers.drop_last(), counts) {
            None => None,
            Some(t) => {
                let n = numbers.last();
                if 1 <= n <= 6 && t + counts[n - 1] <= usize::MAX {
                    Some(t + counts[n - 1])
                } else {
                    None
                }
            },
        }
    }
}

/// The warnings of the first `k` paragraph regions.
pub open spec fn region_preferences(regions: Seq<JsonV>, counts: Seq<nat>, k: int) -> Preferences
    decreases k,
{
    if k <= 0 {
        Preferences::Warnings(Seq::empty())
    } else {
        match region_preferences(regions, counts, k - 1) {
            Preferences::Warnings(ws) => {
                let region = regions[k - 1];
                match field(region, "paragraphs"@) {
                    None => Preferences::Refused(MeasureFault::MissingRegionParagraphs),
                    Some(p) => match as_items(p) {
                        None => Preferences::Refused(MeasureFault::MissingRegionParagraphs),
                        Some(ps) => {
                            let numbers = u64s(ps);
                            match region_total(numbers, counts) {
                                None => Preferences::Unanswered,
                                Some(total) => match field(region, "preferred_totals"@) {
                                    None => Preferences::Refused(MeasureFault::MissingPreferredTotals),
                                    Some(t) => match as_items(t) {
                                        None => Preferences::Refused(
                                            MeasureFault::MissingPreferredTotals,
                                        ),
                                        Some(ts) => {
                                            let preferred = u64s(ts);
                                            if exists|i: int|
                                                0 <= i < preferred.len() && preferred[i] == total {
                                                Preferences::Warnings(ws)
                                            } else if numbers.len() == 0 {
                                                Preferences::Unanswered
                                            } else {
                                                Preferences::Warnings(
                                                    ws.push(
                                                        PreferenceV::Region(
                                                            numbers[0],
                                                            numbers.last(),
                                                            total,
                                                            preferred,
                                                        ),
                                                    ),
                                                )
                                            }
                                        },
                                    },
                                },
                            }
                        },
                    },
                }
            },
            other => other,
        }
    }
}

/// The preference warnings of a document: for a cover letter, each region
/// whose total is not among its preferred totals, then a closing paragraph
/// that does not use 3 lines; other documents have none.
pub open spec fn preferences(
    name: Seq<char>,
    kind: DocumentKind,
    metrics: Seq<JsonV>,
    manifest: Option<JsonV>,
) -> Preferences {
    if kind != DocumentKind::CoverLetter {
        Preferences::Warnings(Seq::empty())
    } else {
        match body_counts(metrics, metrics.len() as int) {
            Err(f) => Preferences::Refused(count_error(name, f)),
            Ok(counts) => match manifest {
                None => Preferences::Refused(MeasureFault::ManifestUnreadable),
                Some(m) => match json_at(m, Ptr::CoverLetter) {
                    None => Preferences::Refused(MeasureFault::MissingCoverContract),
                    Some(c) => match field(c, "paragraph_regions"@) {
                        None => Preferences::Refused(MeasureFault::MissingRegions),
                        Some(r) => match as_items(r) {
                            None => Preferences::Refused(MeasureFault::MissingRegions),
                            Some(regions) => match region_preferences(
                                regions,
                                counts,
                                regions.len() as int,
                            ) {
                                Preferences::Warnings(ws) => Preferences::Warnings(
                                    if counts[5] != 3 {
                                        ws.push(PreferenceV::Closing(counts[5]))
                                    } else {
                                        ws
                                    },
                                ),
                                other => other,
                            },
                        },
                    },
                },
            },
        }
    }
}

/// Whether a result agrees with the preferences (`None` where they give no verdict).
pub open spec fn preferences_agree(r: Option<Result<Vec<Preference>, MeasureError>>, p: Preferences) -> bool {
    match p {
        Preferences::Unanswered => r is None,
        Preferences::Refused(f) => (r matches Some(Err(e)) && e@ == f),
        Preferences::Warnings(ws) => (r matches Some(Ok(v)) && preferences_view(v@) == ws),
    }
}

/// The integers among `items`.
fn integers_of(items: &Vec<Json>) -> (r: Vec<u64>)
    ensures
        r@ == u64s(items_view(items@)),
{
    proof {
        lemma_items_view(items@);
    }
    let ghost iv = items_view(items@);
    let mut out: Vec<u64> = Vec::new();
    let mut i: usize = 0;
    while i < items.len()
        invariant
            i <= items@.len(),
            iv == items_view(items@),
            iv.len() == items@.len(),
            forall|t: int| 0 <= t < items@.len() ==> #[trigger] iv[t] == items@[t]@,
            out@ == u64s(iv.subrange(0, i as int)),
        decreases items@.len() - i,
    {
        proof {
            assert(iv.subrange(0, i + 1).drop_last() =~= iv.subrange(0, i as int));
            assert(iv.subrange(0, i + 1).last() == items@[i as int]@);
        }
        if let Some(n) = items[i].as_u64() {
            out.push(n);
        }
        i = i + 1;
    }
    assert(iv.subrange(0, items@.len() as int) =~= iv);
    out
}

/// The lines of the paragraphs `numbers`; `None` where a number is outside
/// 1–6 or the sum exceeds `usize`.
fn total_of(numbers: &Vec<u64>, counts: &Vec<usize>) -> (r: Option<usize>)
    requires
        counts@.len() == 6,
    ensures
        match region_total(numbers@, Seq::new(6, |i: int| counts@[i] as nat)) {
            Some(t) => r == Some(t as usize),
            None => r is None,
        },
{
    let ghost cs = Seq::new(6, |i: int| counts@[i] as nat);
    let mut total: usize = 0;
    let mut i: usize = 0;
    while i < numbers.len()
        invariant
            i <= numbers@.len(),
            counts@.len() == 6,
            cs == Seq::new(6, |i: int| counts@[i] as nat),
            region_total(numbers@.subrange(0, i as int), cs) == Some(total as nat),
        decreases numbers@.len() - i,
    {
        proof {
            assert(numbers@.subrange(0, i + 1).drop_last() =~= numbers@.subrange(0, i as int));
        }
        let n = numbers[i];
        if !(1 <= n && n <= 6) {
            proof {
                lemma_total_settled(numbers@, cs, i + 1);
            }
            return None;
        }
        let c = counts[(n - 1) as usize];
        if total > usize::MAX - c {
            proof {
                lemma_total_settled(numbers@, cs, i + 1);
            }
            return None;
        }
        total = total + c;
        i = i + 1;
    }
    assert(numbers@.subrange(0, numbers@.len() as int) =~= numbers@);
    Some(total)
}

proof fn lemma_total_settled(numbers: Seq<u64>, counts: Seq<nat>, k: int)
    requires
        0 <= k <= numbers.len(),
        region_total(numbers.subrange(0, k), counts) is None,
    ensures
        region_total(numbers, counts) is None,
    decreases numbers.len() - k,
{
    if k < numbers.len() {
        assert(numbers.subrange(0, k + 1).drop_last() =~= numbers.subrange(0, k));
        lemma_total_settled(numbers, counts, k + 1);
    } else {
        assert(numbers.subrange(0, k) =~= numbers);
    }
}

proof fn lemma_region_settled(regions: Seq<JsonV>, counts: Seq<nat>, k: int, n: int)
    requires
        0 <= k <= n,
        !(region_preferences(regions, counts, k) is Warnings),
    ensures
        region_preferences(regions, counts, n) == region_preferences(regions, counts, k),
    decreases n - k,
{
    if n > k {
        lemma_region_settled(regions, counts, k, n - 1);
    }
}

/// `preference_warnings`: accepted line counts that the cover-letter contract
/// does not prefer. `None` where a region names a paragraph outside 1–6, its
/// total exceeds `usize`, or an unpreferred region names no paragraph.
#[verifier::loop_isolation(false)]
pub fn preference_warnings(spec: &DocumentSpec, metrics: &Vec<Json>, manifest: Option<&Json>) -> (r: Option<
    Result<Vec<Preference>, MeasureError>,
>)
    ensures
        preferences_agree(r, preferences(spec.name@, spec.kind, items_view(metrics@), opt_view(manifest))),
{
    proof {
        lemma_items_view(metrics@);
    }
    let ghost mv = items_view(metrics@);
    match spec.kind {
        DocumentKind::CoverLetter => {},
        DocumentKind::Cv => {
            let none: Vec<Preference> = Vec::new();
            assert(preferences_view(none@) =~= Seq::<PreferenceV>::empty());
            return Some(Ok(none));
        },
    }
    let counts = match paragraph_counts(spec, metrics) {
        Ok(c) => c,
        Err(e) => {
            return Some(Err(e));
        },
    };
    proof {
        lemma_counts_len(mv, mv.len() as int);
    }
    let ghost cs = Seq::new(6, |i: int| counts@[i] as nat);
    assert(cs =~= body_counts(mv, mv.len() as int)->Ok_0);
    let m = match manifest {
        Some(m) => m,
        None => {
            return Some(Err(MeasureError::ManifestUnreadable));
        },
    };
    let contract = match value_at(m, Ptr::CoverLetter) {
        Some(c) => c,
        None => {
            return Some(Err(MeasureError::MissingCoverContract));
        },
    };
    let regions = match contract.get("paragraph_regions") {
        Some(r) => match r.as_array() {
            Some(items) => items,
            None => {
                return Some(Err(MeasureError::MissingRegions));
            },
        },
        None => {
            return Some(Err(MeasureError::MissingRegions));
        },
    };
    proof {
        lemma_items_view(regions@);
    }
    let ghost rv = items_view(regions@);
    let mut warnings: Vec<Preference> = Vec::new();
    let mut i: usize = 0;
    while i < regions.len()
        invariant
            i <= regions@.len(),
            rv == items_view(regions@),
            rv.len() == regions@.len(),
            forall|t: int| 0 <= t < regions@.len() ==> #[trigger] rv[t] == regions@[t]@,
            region_preferences(rv, cs, i as int) matches Preferences::Warnings(ws) && ws
                == preferences_view(warnings@),
        decreases regions@.len() - i,
    {
        let region = &regions[i];
        assert(rv[i as int] == region@);
        let numbers = match region.get("paragraphs") {
            Some(p) => match p.as_array() {
                Some(items) => integers_of(items),
                None => {
                    proof {
                        lemma_region_settled(rv, cs, i + 1, rv.len() as int);
                    }
                    return Some(Err(MeasureError::MissingRegionParagraphs));
                },
            },
            None => {
                proof {
                    lemma_region_settled(rv, cs, i + 1, rv.len() as int);
                }
                return Some(Err(MeasureError::MissingRegionParagraphs));
            },
        };
        let total = match total_of(&numbers, &counts) {
            Some(t) => t,
            None => {
                proof {
                    lemma_region_settled(rv, cs, i + 1, rv.len() as int);
                }
                return None;
            },
        };
        let preferred = match region.get("preferred_totals") {
            Some(t) => match t.as_array() {
                Some(items) => integers_of(items),
                None => {
                    proof {
                        lemma_region_settled(rv, cs, i + 1, rv.len() as int);
                    }
                    return Some(Err(MeasureError::MissingPreferredTotals));
                },
            },
            None => {
                proof {
                    lemma_region_settled(rv, cs, i + 1, rv.len() as int);
                }
                return Some(Err(MeasureError::MissingPreferredTotals));
            },
        };
        let mut found = false;
        let mut j: usize = 0;
        while j < preferred.len()
            invariant
                j <= preferred@.len(),
                found <==> exists|t: int| 0 <= t < j && preferred@[t] == total,
            decreases preferred@.len() - j,
        {
            if preferred[j] as u128 == total as u128 {
                found = true;
            }
            j = j + 1;
        }
        if !found {
            if numbers.len() == 0 {
                proof {
                    lemma_region_settled(rv, cs, i + 1, rv.len() as int);
                }
                return None;
            }
            let first = numbers[0];
            let last = numbers[numbers.len() - 1];
            let ghost before = warnings@;
            warnings.push(Preference::Region { first, last, total, preferred });
            assert(preferences_view(warnings@) =~= preferences_view(before).push(warnings@.last()@));
        }
        i = i + 1;
    }
    assert(cs[5] == counts@[5] as nat);
    if counts[5] != 3 {
        let ghost before = warnings@;
        warnings.push(Preference::Closing(counts[5]));
        assert(preferences_view(warnings@) =~= preferences_view(before).push(warnings@.last()@));
    }
    Some(Ok(warnings))
}


/// The preferred totals, joined by ` or `.
pub open spec fn joined_or(values: Seq<u64>) -> Seq<char>
    decreases values.len(),
{
    if values.len() == 0 {
        Seq::empty()
    } else if values.len() == 1 {
        decimal(values[0] as nat)
    } else {
        joined_or(values.drop_last()) + " or "@ + decimal(values.last() as nat)
    }
}

/// The text of a warning about the document `document`.
pub open spec fn preference_text(document: Seq<char>, p: PreferenceV) -> Seq<char> {
    match p {
        PreferenceV::Region(first, last, total, preferred) => document + ": paragraphs "@ + decimal(
            first as nat,
        ) + "\u{2013}"@ + decimal(last as nat) + " use "@ + decimal(total) + " lines; accepted, but "@
            + joined_or(preferred) + " is preferred"@,
        PreferenceV::Closing(n) => document + ": paragraph 6 uses "@ + decimal(n)
            + " lines; accepted, but 3 is preferred to mirror paragraph 1"@,
    }
}

impl Preference {
    /// The warning as the tool prints it for the document `document`.
    pub fn message(&self, document: &str) -> (r: String)
        ensures
            r@ == preference_text(document@, self@),
    {
        let mut out = string_of(document);
        match self {
            Preference::Region { first, last, total, preferred } => {
                push_str(&mut out, ": paragraphs ");
                push_decimal(&mut out, *first as u128);
                push_str(&mut out, "\u{2013}");
                push_decimal(&mut out, *last as u128);
                push_str(&mut out, " use ");
                push_decimal(&mut out, *total as u128);
                push_str(&mut out, " lines; accepted, but ");
                let ghost start = out@;
                let mut i: usize = 0;
                while i < preferred.len()
                    invariant
                        i <= preferred@.len(),
                        out@ == start + joined_or(preferred@.subrange(0, i as int)),
                    decreases preferred@.len() - i,
                {
                    proof {
                        assert(preferred@.subrange(0, i + 1).drop_last() =~= preferred@.subrange(
                            0,
                            i as int,
                        ));
                    }
                    if i > 0 {
                        push_str(&mut out, " or ");
                    }
                    push_decimal(&mut out, preferred[i] as u128);
                    proof {
                        if i == 0 {
                            assert(preferred@.subrange(0, 0) =~= Seq::<u64>::empty());
                        }
                    }
                    i = i + 1;
                    assert(out@ =~= start + joined_or(preferred@.subrange(0, i as int)));
                }
                assert(preferred@.subrange(0, preferred@.len() as int) =~= preferred@);
                push_str(&mut out, " is preferred");
                assert(out@ =~= preference_text(document@, self@));
            },
            Preference::Closing(n) => {
                push_str(&mut out, ": paragraph 6 uses ");
                push_decimal(&mut out, *n as u128);
                push_str(&mut out, " lines; accepted, but 3 is preferred to mirror paragraph 1");
                assert(out@ =~= preference_text(document@, self@));
            },
        }
        out
    }
}

/// The pieces of `s` between white space characters (some empty).
pub open spec fn white_pieces(s: Seq<char>) -> Seq<Seq<char>>
    decreases s.len(),
{
    if s.len() == 0 {
        seq![Seq::<char>::empty()]
    } else {
        let t = white_pieces(s.drop_last());
        if crate::text::is_white(s.last()) {
            t.push(Seq::<char>::empty())
        } else {
            t.update(t.len() - 1, t.last().push(s.last()))
        }
    }
}

/// The white-space separated words of `s`, as `split_whitespace` gives them.
pub open spec fn words(s: Seq<char>) -> Seq<Seq<char>> {
    crate::application::nonempty(white_pieces(s))
}

/// Words joined by single spaces.
pub open spec fn spaced(ws: Seq<Seq<char>>) -> Seq<char>
    decreases ws.len(),
{
    if ws.len() == 0 {
        Seq::empty()
    } else if ws.len() == 1 {
        ws[0]
    } else {
        spaced(ws.drop_last()) + " "@ + ws.last()
    }
}

/// A metric's text for a report line: its words joined by single spaces,
/// cut to 119 characters and an ellipsis where it is longer than 120.
pub open spec fn compacted(s: Seq<char>) -> Seq<char> {
    let c = spaced(words(s));
    if c.len() <= 120 {
        c
    } else {
        c.take(119).push('\u{2026}')
    }
}

proof fn lemma_white_pieces_len(s: Seq<char>)
    ensures
        white_pieces(s).len() >= 1,
    decreases s.len(),
{
    if s.len() > 0 {
        lemma_white_pieces_len(s.drop_last());
    }
}

/// The words of `s`.
fn words_of(s: &str) -> (r: Vec<String>)
    ensures
        strings_view(r@) == words(s@),
{
    let n = s.unicode_len();
    let mut out: Vec<String> = Vec::new();
    let mut current = String::new();
    let mut i: usize = 0;
    assert(s@.subrange(0, 0) =~= Seq::<char>::empty());
    assert(strings_view(out@) =~= Seq::<Seq<char>>::empty());
    while i < n
        invariant
            n == s@.len(),
            i <= n,
            white_pieces(s@.subrange(0, i as int)).len() >= 1,
            strings_view(out@) == crate::application::nonempty(
                white_pieces(s@.subrange(0, i as int)).drop_last(),
            ),
            current@ == white_pieces(s@.subrange(0, i as int)).last(),
        decreases n - i,
    {
        let ghost t = white_pieces(s@.subrange(0, i as int));
        let c = s.get_char(i);
        proof {
            assert(s@.subrange(0, i + 1).drop_last() =~= s@.subrange(0, i as int));
            assert(s@.subrange(0, i + 1).last() == c);
        }
        if crate::text::white(c) {
            let ghost before = out@;
            if current.unicode_len() > 0 {
                let piece = string_of(current.as_str());
                out.push(piece);
                assert(strings_view(out@) =~= strings_view(before).push(current@));
            }
            current = String::new();
            proof {
                let t2 = white_pieces(s@.subrange(0, i + 1));
                assert(t2 == t.push(Seq::<char>::empty()));
                assert(t2.drop_last() =~= t);
                assert(t == t.drop_last().push(t.last()));
            }
        } else {
            crate::text::push_char(&mut current, c);
            proof {
                let t2 = white_pieces(s@.subrange(0, i + 1));
                assert(t2.drop_last() =~= t.drop_last());
            }
        }
        i = i + 1;
    }
    assert(s@.subrange(0, n as int) =~= s@);
    let ghost t = white_pieces(s@);
    let ghost before = out@;
    assert(t == t.drop_last().push(t.last()));
    if current.unicode_len() > 0 {
        out.push(current);
        assert(strings_view(out@) =~= strings_view(before).push(t.last()));
    }
    out
}

/// A metric's text for a report line (see `compacted`); it is never longer
/// than 120 characters.
pub fn compact_text(s: &str) -> (r: String)
    ensures
        r@ == compacted(s@),
        r@.len() <= 120,
{
    let ws = words_of(s);
    let ghost wv = strings_view(ws@);
    let mut c = String::new();
    let mut i: usize = 0;
    assert(c@ =~= spaced(wv.take(0)));
    while i < ws.len()
        invariant
            i <= ws@.len(),
            wv == strings_view(ws@),
            c@ == spaced(wv.take(i as int)),
        decreases ws@.len() - i,
    {
        proof {
            assert(wv.take(i + 1).drop_last() =~= wv.take(i as int));
            assert(wv.take(i + 1).last() == ws@[i as int]@);
            if i == 0 {
                assert(wv.take(1)[0] == ws@[0]@);
            }
        }
        if i > 0 {
            push_str(&mut c, " ");
        }
        push_str(&mut c, ws[i].as_str());
        i = i + 1;
        assert(c@ =~= spaced(wv.take(i as int)));
    }
    assert(wv.take(i as int) =~= wv);
    let m = c.unicode_len();
    if m <= 120 {
        return c;
    }
    let mut out = String::new();
    let mut k: usize = 0;
    while k < 119
        invariant
            m == c@.len(),
            m > 120,
            k <= 119,
            out@ == c@.take(k as int),
        decreases 119 - k,
    {
        crate::text::push_char(&mut out, c.get_char(k));
        k = k + 1;
        assert(out@ =~= c@.take(k as int));
    }
    crate::text::push_char(&mut out, '\u{2026}');
    out
}

} // verus!
