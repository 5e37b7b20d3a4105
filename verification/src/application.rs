//! Line contracts of application records.
//!
//! An application record fixes the CV page count, exactly five Summary lines
//! and, when its cover letter is enabled, the paragraphs and highlights of
//! the letter. Every rendered line declares `min_fill <= target_fill <=
//! max_fill` within 1–100; cover-letter lines may not weaken the floors that
//! the workspace manifest (`ccvl.json`) declares, and the paragraph line
//! counts must respect the per-paragraph, per-region and total budgets.
use vstd::prelude::*;

use crate::json::{
    as_bool, as_entries, as_items, as_text, as_u64, entries_view, field, items_view, pointer, Json,
    JsonV,
};
use crate::schema::{
    agrees, check_schema, schema_outcome, strings_view, Outcome, SchemaError, ref_fuel,
};
use crate::text::{blank, decimal, push_decimal, push_str, string_of, trim};
use crate::workspace::{join, Workspace};

verus! {

broadcast use {crate::json::lemma_items_view, crate::json::lemma_entries_view};

/// A JSON pointer that the contracts read.
#[derive(Clone, Copy, Debug, PartialEq, Eq, Structural)]
pub enum Ptr {
    MinFill,
    TargetFill,
    MaxFill,
    Minimum,
    Target,
    Maximum,
    Summary,
    TailoredCl,
    Paragraphs,
    Lines,
    ParagraphRegions,
    HighlightCount,
    Pages,
    CoverLetter,
    BodyFloor,
    BodyLines,
    HighlightFloor,
    JobLanguage,
}

/// The text of a pointer.
pub open spec fn ptr_text(p: Ptr) -> Seq<char> {
    match p {
        Ptr::MinFill => "/min_fill"@,
        Ptr::TargetFill => "/target_fill"@,
        Ptr::MaxFill => "/max_fill"@,
        Ptr::Minimum => "/minimum"@,
        Ptr::Target => "/target"@,
        Ptr::Maximum => "/maximum"@,
        Ptr::Summary => "/tailored_cv/summary"@,
        Ptr::TailoredCl => "/tailored_cl"@,
        Ptr::Paragraphs => "/paragraphs"@,
        Ptr::Lines => "/lines"@,
        Ptr::ParagraphRegions => "/paragraph_regions"@,
        Ptr::HighlightCount => "/highlights/count"@,
        Ptr::Pages => "/tailored_cv/pages"@,
        Ptr::CoverLetter => "/documents/cover_letter"@,
        Ptr::BodyFloor => "/line_fill/body"@,
        Ptr::BodyLines => "/body_lines"@,
        Ptr::HighlightFloor => "/line_fill/highlight"@,
        Ptr::JobLanguage => "/job/language"@,
    }
}

/// The text of a pointer.
pub fn ptr_str(p: Ptr) -> (r: &'static str)
    ensures
        r@ == ptr_text(p),
{
    proof {
        reveal_strlit("/min_fill");
        reveal_strlit("/target_fill");
        reveal_strlit("/max_fill");
        reveal_strlit("/minimum");
        reveal_strlit("/target");
        reveal_strlit("/maximum");
        reveal_strlit("/tailored_cv/summary");
        reveal_strlit("/tailored_cl");
        reveal_strlit("/paragraphs");
        reveal_strlit("/lines");
        reveal_strlit("/paragraph_regions");
        reveal_strlit("/highlights/count");
        reveal_strlit("/tailored_cv/pages");
        reveal_strlit("/documents/cover_letter");
        reveal_strlit("/line_fill/body");
        reveal_strlit("/body_lines");
        reveal_strlit("/line_fill/highlight");
        reveal_strlit("/job/language");
    }
    match p {
        Ptr::MinFill => "/min_fill",
        Ptr::TargetFill => "/target_fill",
        Ptr::MaxFill => "/max_fill",
        Ptr::Minimum => "/minimum",
        Ptr::Target => "/target",
        Ptr::Maximum => "/maximum",
        Ptr::Summary => "/tailored_cv/summary",
        Ptr::TailoredCl => "/tailored_cl",
        Ptr::Paragraphs => "/paragraphs",
        Ptr::Lines => "/lines",
        Ptr::ParagraphRegions => "/paragraph_regions",
        Ptr::HighlightCount => "/highlights/count",
        Ptr::Pages => "/tailored_cv/pages",
        Ptr::CoverLetter => "/documents/cover_letter",
        Ptr::BodyFloor => "/line_fill/body",
        Ptr::BodyLines => "/body_lines",
        Ptr::HighlightFloor => "/line_fill/highlight",
        Ptr::JobLanguage => "/job/language",
    }
}

/// Where in a record a checked line or count sits.
#[derive(Clone, Copy, Debug, PartialEq, Eq, Structural)]
pub enum Site {
    /// Summary line `i` (from 0).
    Summary(usize),
    /// Line `j` of paragraph `i` (both from 0).
    ParagraphLine(usize, usize),
    /// Highlight `i` (from 0).
    Highlight(usize),
    /// The total of the paragraph lines.
    BodyLines,
    /// The paragraphs `first..=last` (from 1) of a region.
    Region(u64, u64),
}

/// Why a record breaks its line contracts.
#[derive(Clone, Copy, Debug, PartialEq, Eq, Structural)]
pub enum Fault {
    MissingInteger(Ptr),
    MissingArray(Ptr),
    MissingObject(Ptr),
    PagesMissing,
    BadPages,
    SummaryCount,
    EnabledNotBool,
    HiddenContent,
    IncompleteCover,
    ManifestUnavailable,
    NoCoverContract,
    ParagraphsNotArray,
    ParagraphCount { expected: usize, found: usize },
    MissingBodyFloor,
    MissingBounds,
    ParagraphLines { index: usize, min: u64, max: u64, found: usize },
    MissingText,
    EmptyText(Site),
    UnorderedFill(Site),
    FillRange(Site),
    WeakFloor(Site),
    MissingBodyContract,
    Count { site: Site, min: u64, max: u64, actual: u128 },
    InvalidParagraphNumber,
    EmptyRegion,
    HighlightsNotArray,
    HighlightCount { expected: u64, found: usize },
    MissingHighlightFloor,
}

/// A refused record: where it was read from and why.
#[derive(Debug)]
pub struct ContractError {
    pub location: String,
    pub fault: Fault,
}

/// The integer at a pointer.
pub open spec fn u64_at(v: JsonV, p: Ptr) -> Option<u64> {
    match pointer(v, ptr_text(p)) {
        Some(w) => as_u64(w),
        None => None,
    }
}

/// The array at a pointer.
pub open spec fn array_at(v: JsonV, p: Ptr) -> Option<Seq<JsonV>> {
    match pointer(v, ptr_text(p)) {
        Some(w) => as_items(w),
        None => None,
    }
}

/// The integer at a pointer.
pub fn int_at(v: &Json, p: Ptr) -> (r: Result<u64, Fault>)
    ensures
        r matches Ok(n) ==> u64_at(v@, p) == Some(n),
        r matches Err(f) ==> u64_at(v@, p) is None && f == Fault::MissingInteger(p),
{
    match v.pointer(ptr_str(p)) {
        Some(w) => match w.as_u64() {
            Some(n) => Ok(n),
            None => Err(Fault::MissingInteger(p)),
        },
        None => Err(Fault::MissingInteger(p)),
    }
}

/// The array at a pointer.
pub fn items_at(v: &Json, p: Ptr) -> (r: Result<&Vec<Json>, Fault>)
    ensures
        r matches Ok(items) ==> array_at(v@, p) == Some(items_view(items@)),
        r matches Err(f) ==> array_at(v@, p) is None && f == Fault::MissingArray(p),
{
    match v.pointer(ptr_str(p)) {
        Some(w) => match w.as_array() {
            Some(items) => Ok(items),
            None => Err(Fault::MissingArray(p)),
        },
        None => Err(Fault::MissingArray(p)),
    }
}

/// The first problem of one rendered line: its text must be present (and
/// not blank when text is required), and its fill bounds ordered within 1–100.
pub open spec fn line_fault(line: JsonV, require_text: bool, site: Site) -> Option<Fault> {
    match field(line, "text"@) {
        Some(t) => match as_text(t) {
            Some(text) => if require_text && trim(text).len() == 0 {
                Some(Fault::EmptyText(site))
            } else {
                match (u64_at(line, Ptr::MinFill), u64_at(line, Ptr::TargetFill), u64_at(
                    line,
                    Ptr::MaxFill,
                )) {
                    (None, _, _) => Some(Fault::MissingInteger(Ptr::MinFill)),
                    (Some(_), None, _) => Some(Fault::MissingInteger(Ptr::TargetFill)),
                    (Some(_), Some(_), None) => Some(Fault::MissingInteger(Ptr::MaxFill)),
                    (Some(lo), Some(mid), Some(hi)) => if !(lo <= mid && mid <= hi) {
                        Some(Fault::UnorderedFill(site))
                    } else if !(lo >= 1 && hi <= 100) {
                        Some(Fault::FillRange(site))
                    } else {
                        None
                    },
                }
            },
            None => Some(Fault::MissingText),
        },
        None => Some(Fault::MissingText),
    }
}

/// Checks one rendered line.
pub fn validate_line(line: &Json, site: Site, require_text: bool) -> (r: Result<(), Fault>)
    ensures
        r is Ok <==> line_fault(line@, require_text, site) is None,
        r matches Err(f) ==> line_fault(line@, require_text, site) == Some(f),
{
    proof {
        reveal_strlit("text");
    }
    let text = match line.get("text") {
        Some(t) => match t.as_str() {
            Some(s) => s,
            None => return Err(Fault::MissingText),
        },
        None => return Err(Fault::MissingText),
    };
    if require_text && blank(text) {
        return Err(Fault::EmptyText(site));
    }
    let minimum = int_at(line, Ptr::MinFill)?;
    let target = int_at(line, Ptr::TargetFill)?;
    let maximum = int_at(line, Ptr::MaxFill)?;
    if !(minimum <= target && target <= maximum) {
        return Err(Fault::UnorderedFill(site));
    }
    if !(minimum >= 1 && maximum <= 100) {
        return Err(Fault::FillRange(site));
    }
    Ok(())
}

/// The first problem of a line against a fill floor: its minimum, target and
/// maximum may not be weaker than the floor's.
pub open spec fn floor_fault(line: JsonV, floor: JsonV, site: Site) -> Option<Fault> {
    match (u64_at(line, Ptr::MinFill), u64_at(floor, Ptr::Minimum)) {
        (None, _) => Some(Fault::MissingInteger(Ptr::MinFill)),
        (Some(_), None) => Some(Fault::MissingInteger(Ptr::Minimum)),
        (Some(a), Some(b)) => if !(a >= b) {
            Some(Fault::WeakFloor(site))
        } else {
            match (u64_at(line, Ptr::TargetFill), u64_at(floor, Ptr::Target)) {
                (None, _) => Some(Fault::MissingInteger(Ptr::TargetFill)),
                (Some(_), None) => Some(Fault::MissingInteger(Ptr::Target)),
                (Some(c), Some(d)) => if !(c >= d) {
                    Some(Fault::WeakFloor(site))
                } else {
                    match (u64_at(line, Ptr::MaxFill), u64_at(floor, Ptr::Maximum)) {
                        (None, _) => Some(Fault::MissingInteger(Ptr::MaxFill)),
                        (Some(_), None) => Some(Fault::MissingInteger(Ptr::Maximum)),
                        (Some(e), Some(f)) => if !(e <= f) {
                            Some(Fault::WeakFloor(site))
                        } else {
                            None
                        },
                    }
                },
            }
        },
    }
}

/// Checks a line against a fill floor.
pub fn validate_floor(line: &Json, floor: &Json, site: Site) -> (r: Result<(), Fault>)
    ensures
        r is Ok <==> floor_fault(line@, floor@, site) is None,
        r matches Err(f) ==> floor_fault(line@, floor@, site) == Some(f),
{
    let a = int_at(line, Ptr::MinFill)?;
    let b = int_at(floor, Ptr::Minimum)?;
    if !(a >= b) {
        return Err(Fault::WeakFloor(site));
    }
    let c = int_at(line, Ptr::TargetFill)?;
    let d = int_at(floor, Ptr::Target)?;
    if !(c >= d) {
        return Err(Fault::WeakFloor(site));
    }
    let e = int_at(line, Ptr::MaxFill)?;
    let f = int_at(floor, Ptr::Maximum)?;
    if !(e <= f) {
        return Err(Fault::WeakFloor(site));
    }
    Ok(())
}

/// The first problem of a count against `minimum`/`maximum` bounds.
pub open spec fn count_fault(actual: u128, bounds: JsonV, site: Site) -> Option<Fault> {
    match (u64_at(bounds, Ptr::Minimum), u64_at(bounds, Ptr::Maximum)) {
        (None, _) => Some(Fault::MissingInteger(Ptr::Minimum)),
        (Some(_), None) => Some(Fault::MissingInteger(Ptr::Maximum)),
        (Some(lo), Some(hi)) => if lo <= actual && actual <= hi {
            None
        } else {
            Some(Fault::Count { site, min: lo, max: hi, actual })
        },
    }
}

/// Checks a count against `minimum`/`maximum` bounds.
pub fn validate_count(actual: u128, bounds: &Json, site: Site) -> (r: Result<(), Fault>)
    ensures
        r is Ok <==> count_fault(actual, bounds@, site) is None,
        r matches Err(f) ==> count_fault(actual, bounds@, site) == Some(f),
{
    let minimum = int_at(bounds, Ptr::Minimum)?;
    let maximum = int_at(bounds, Ptr::Maximum)?;
    if minimum as u128 <= actual && actual <= maximum as u128 {
        Ok(())
    } else {
        Err(Fault::Count { site, min: minimum, max: maximum, actual })
    }
}

/// The value at a pointer.
pub open spec fn json_at(v: JsonV, p: Ptr) -> Option<JsonV> {
    pointer(v, ptr_text(p))
}

/// The value at a pointer.
pub fn value_at(v: &Json, p: Ptr) -> (r: Option<&Json>)
    ensures
        r matches Some(w) ==> json_at(v@, p) == Some(w@),
        r is None ==> json_at(v@, p) is None,
{
    v.pointer(ptr_str(p))
}

/// The first faulty line among the first `k` Summary lines.
pub open spec fn summary_fault(lines: Seq<JsonV>, k: int, require_text: bool) -> Option<Fault>
    decreases k,
{
    if k <= 0 {
        None
    } else {
        match summary_fault(lines, k - 1, require_text) {
            Some(f) => Some(f),
            None => line_fault(lines[k - 1], require_text, Site::Summary((k - 1) as usize)),
        }
    }
}

/// The first problem of the CV part: the page count and the five Summary lines.
pub open spec fn cv_fault(application: JsonV, require_text: bool) -> Option<Fault> {
    match u64_at(application, Ptr::Pages) {
        None => Some(Fault::PagesMissing),
        Some(pages) => if !(pages == 2 || pages == 3 || pages == 4) {
            Some(Fault::BadPages)
        } else {
            match array_at(application, Ptr::Summary) {
                None => Some(Fault::MissingArray(Ptr::Summary)),
                Some(summary) => if summary.len() != 5 {
                    Some(Fault::SummaryCount)
                } else {
                    summary_fault(summary, 5, require_text)
                },
            }
        },
    }
}

/// The first problem among the first `k` lines of paragraph `i`.
pub open spec fn paragraph_lines_fault(
    lines: Seq<JsonV>,
    floor: JsonV,
    require_text: bool,
    i: int,
    k: int,
) -> Option<Fault>
    decreases k,
{
    if k <= 0 {
        None
    } else {
        match paragraph_lines_fault(lines, floor, require_text, i, k - 1) {
            Some(f) => Some(f),
            None => {
                let site = Site::ParagraphLine(i as usize, (k - 1) as usize);
                match line_fault(lines[k - 1], require_text, site) {
                    Some(f) => Some(f),
                    None => floor_fault(lines[k - 1], floor, site),
                }
            },
        }
    }
}

/// The first problem of paragraph `i` against its declared line bounds.
pub open spec fn paragraph_fault(
    paragraph: JsonV,
    declared: JsonV,
    floor: JsonV,
    require_text: bool,
    i: int,
) -> Option<Fault> {
    match array_at(paragraph, Ptr::Lines) {
        None => Some(Fault::MissingArray(Ptr::Lines)),
        Some(lines) => match field(declared, "lines"@) {
            None => Some(Fault::MissingBounds),
            Some(bounds) => match (u64_at(bounds, Ptr::Minimum), u64_at(bounds, Ptr::Maximum)) {
                (None, _) => Some(Fault::MissingInteger(Ptr::Minimum)),
                (Some(_), None) => Some(Fault::MissingInteger(Ptr::Maximum)),
                (Some(lo), Some(hi)) => if !(lo <= lines.len() && lines.len() <= hi) {
                    Some(
                        Fault::ParagraphLines {
                            index: i as usize,
                            min: lo,
                            max: hi,
                            found: lines.len() as usize,
                        },
                    )
                } else {
                    paragraph_lines_fault(lines, floor, require_text, i, lines.len() as int)
                },
            },
        },
    }
}

/// The first problem among the first `k` paragraphs.
pub open spec fn paragraphs_fault(
    paragraphs: Seq<JsonV>,
    declared: Seq<JsonV>,
    floor: JsonV,
    require_text: bool,
    k: int,
) -> Option<Fault>
    decreases k,
{
    if k <= 0 {
        None
    } else {
        match paragraphs_fault(paragraphs, declared, floor, require_text, k - 1) {
            Some(f) => Some(f),
            None => paragraph_fault(paragraphs[k - 1], declared[k - 1], floor, require_text, k - 1),
        }
    }
}

/// The number of lines of each paragraph.
pub open spec fn line_counts(paragraphs: Seq<JsonV>) -> Seq<int> {
    Seq::new(
        paragraphs.len(),
        |i: int|
            match array_at(paragraphs[i], Ptr::Lines) {
                Some(lines) => lines.len() as int,
                None => 0,
            },
    )
}

/// The sum of `c[a..b]`.
pub open spec fn sum_range(c: Seq<int>, a: int, b: int) -> int
    decreases b - a,
{
    if b <= a {
        0
    } else {
        sum_range(c, a, b - 1) + c[b - 1]
    }
}

/// The paragraph numbers of a region, when all of them are integers.
pub open spec fn region_numbers(region: JsonV) -> Option<Seq<u64>> {
    match array_at(region, Ptr::Paragraphs) {
        Some(nums) => if forall|i: int| 0 <= i < nums.len() ==> as_u64(#[trigger] nums[i]) is Some {
            Some(Seq::new(nums.len(), |i: int| as_u64(nums[i])->0))
        } else {
            None
        },
        None => None,
    }
}

/// The first problem of a region: its paragraph numbers must be integers,
/// and the lines of paragraphs `first..=last` must respect its bounds.
pub open spec fn region_fault(region: JsonV, counts: Seq<int>) -> Option<Fault> {
    match array_at(region, Ptr::Paragraphs) {
        None => Some(Fault::MissingArray(Ptr::Paragraphs)),
        Some(nums) => match region_numbers(region) {
            None => Some(Fault::InvalidParagraphNumber),
            Some(n) => if n.len() == 0 {
                Some(Fault::EmptyRegion)
            } else {
                count_fault(
                    sum_range(counts, n[0] - 1, n.last() as int) as u128,
                    region,
                    Site::Region(n[0], n.last()),
                )
            },
        },
    }
}

/// The first problem among the first `k` regions.
pub open spec fn regions_fault(regions: Seq<JsonV>, counts: Seq<int>, k: int) -> Option<Fault>
    decreases k,
{
    if k <= 0 {
        None
    } else {
        match regions_fault(regions, counts, k - 1) {
            Some(f) => Some(f),
            None => region_fault(regions[k - 1], counts),
        }
    }
}

/// The first problem among the first `k` highlights.
pub open spec fn highlights_fault(lines: Seq<JsonV>, floor: JsonV, require_text: bool, k: int) -> Option<
    Fault,
>
    decreases k,
{
    if k <= 0 {
        None
    } else {
        match highlights_fault(lines, floor, require_text, k - 1) {
            Some(f) => Some(f),
            None => {
                let site = Site::Highlight((k - 1) as usize);
                match line_fault(lines[k - 1], require_text, site) {
                    Some(f) => Some(f),
                    None => floor_fault(lines[k - 1], floor, site),
                }
            },
        }
    }
}

/// The first problem of an enabled cover letter after its paragraph budgets:
/// the regions, then the highlights.
pub open spec fn tail_fault(
    cover: JsonV,
    contract: JsonV,
    counts: Seq<int>,
    require_text: bool,
) -> Option<Fault> {
    match array_at(contract, Ptr::ParagraphRegions) {
        None => Some(Fault::MissingArray(Ptr::ParagraphRegions)),
        Some(regions) => match regions_fault(regions, counts, regions.len() as int) {
            Some(f) => Some(f),
            None => match field(cover, "highlights"@) {
                None => Some(Fault::HighlightsNotArray),
                Some(h) => match as_items(h) {
                    None => Some(Fault::HighlightsNotArray),
                    Some(highlights) => match u64_at(contract, Ptr::HighlightCount) {
                        None => Some(Fault::MissingInteger(Ptr::HighlightCount)),
                        Some(expected) => if highlights.len() != expected {
                            Some(
                                Fault::HighlightCount {
                                    expected,
                                    found: highlights.len() as usize,
                                },
                            )
                        } else {
                            match json_at(contract, Ptr::HighlightFloor) {
                                None => Some(Fault::MissingHighlightFloor),
                                Some(floor) => highlights_fault(
                                    highlights,
                                    floor,
                                    require_text,
                                    highlights.len() as int,
                                ),
                            }
                        },
                    },
                },
            },
        },
    }
}

/// The first problem of an enabled cover letter's paragraphs and total.
pub open spec fn body_fault(
    cover: JsonV,
    contract: JsonV,
    declared: Seq<JsonV>,
    paragraphs: Seq<JsonV>,
    require_text: bool,
) -> Option<Fault> {
    if paragraphs.len() != declared.len() {
        Some(
            Fault::ParagraphCount {
                expected: declared.len() as usize,
                found: paragraphs.len() as usize,
            },
        )
    } else {
        match json_at(contract, Ptr::BodyFloor) {
            None => Some(Fault::MissingBodyFloor),
            Some(floor) => match paragraphs_fault(
                paragraphs,
                declared,
                floor,
                require_text,
                paragraphs.len() as int,
            ) {
                Some(f) => Some(f),
                None => match json_at(contract, Ptr::BodyLines) {
                    None => Some(Fault::MissingBodyContract),
                    Some(body) => {
                        let counts = line_counts(paragraphs);
                        match count_fault(
                            sum_range(counts, 0, counts.len() as int) as u128,
                            body,
                            Site::BodyLines,
                        ) {
                            Some(f) => Some(f),
                            None => tail_fault(cover, contract, counts, require_text),
                        }
                    },
                },
            },
        }
    }
}

/// The first problem of the cover-letter part.
pub open spec fn cover_fault(manifest: Option<JsonV>, application: JsonV, require_text: bool) -> Option<
    Fault,
> {
    match json_at(application, Ptr::TailoredCl) {
        None => Some(Fault::MissingObject(Ptr::TailoredCl)),
        Some(cover) => match as_entries(cover) {
            None => Some(Fault::MissingObject(Ptr::TailoredCl)),
            Some(entries) => match field(cover, "enabled"@) {
                None => Some(Fault::EnabledNotBool),
                Some(e) => match as_bool(e) {
                    None => Some(Fault::EnabledNotBool),
                    Some(false) => if entries.len() != 1 {
                        Some(Fault::HiddenContent)
                    } else {
                        None
                    },
                    Some(true) => if !(entries.len() == 3 && field(cover, "paragraphs"@) is Some
                        && field(cover, "highlights"@) is Some) {
                        Some(Fault::IncompleteCover)
                    } else {
                        match manifest {
                            None => Some(Fault::ManifestUnavailable),
                            Some(m) => match json_at(m, Ptr::CoverLetter) {
                                None => Some(Fault::NoCoverContract),
                                Some(contract) => match array_at(contract, Ptr::Paragraphs) {
                                    None => Some(Fault::MissingArray(Ptr::Paragraphs)),
                                    Some(declared) => match as_items(
                                        field(cover, "paragraphs"@)->0,
                                    ) {
                                        None => Some(Fault::ParagraphsNotArray),
                                        Some(paragraphs) => body_fault(
                                            cover,
                                            contract,
                                            declared,
                                            paragraphs,
                                            require_text,
                                        ),
                                    },
                                },
                            },
                        }
                    },
                },
            },
        },
    }
}

/// The first problem of an application record against its line contracts.
pub open spec fn contracts_fault(manifest: Option<JsonV>, application: JsonV, require_text: bool) -> Option<
    Fault,
> {
    match cv_fault(application, require_text) {
        Some(f) => Some(f),
        None => cover_fault(manifest, application, require_text),
    }
}

/// The region checks read only paragraphs that exist: every region that is
/// reached (all earlier regions passed) and whose numbers are integers names
/// a non-empty range `first..=last` within the `n` paragraphs, with
/// `first - 1 <= last`.
pub open spec fn regions_safe(regions: Seq<JsonV>, counts: Seq<int>, n: int) -> bool {
    forall|k: int|
        0 <= k < regions.len() && regions_fault(regions, counts, k) is None ==> match region_numbers(
            #[trigger] regions[k],
        ) {
            Some(nums) => nums.len() > 0 ==> 1 <= nums[0] && nums[0] - 1 <= nums.last() && nums.last()
                <= n,
            None => true,
        }
}

proof fn lemma_counts_len(paragraphs: Seq<JsonV>)
    ensures
        line_counts(paragraphs).len() == paragraphs.len(),
{
}

/// Checks the first `k` Summary lines.
fn check_summary(lines: &Vec<Json>, require_text: bool) -> (r: Result<(), Fault>)
    ensures
        r is Ok <==> summary_fault(items_view(lines@), lines@.len() as int, require_text) is None,
        r matches Err(f) ==> summary_fault(items_view(lines@), lines@.len() as int, require_text)
            == Some(f),
{
    let ghost v = items_view(lines@);
    let mut i: usize = 0;
    while i < lines.len()
        invariant
            i <= lines@.len(),
            v == items_view(lines@),
            v.len() == lines@.len(),
            forall|j: int| 0 <= j < lines@.len() ==> #[trigger] v[j] == lines@[j]@,
            summary_fault(v, i as int, require_text) is None,
        decreases lines@.len() - i,
    {
        match validate_line(&lines[i], Site::Summary(i), require_text) {
            Ok(()) => {},
            Err(f) => {
                proof {
                    lemma_summary_stop(v, i as int + 1, lines@.len() as int, require_text);
                }
                return Err(f);
            },
        }
        i = i + 1;
    }
    Ok(())
}

proof fn lemma_summary_stop(v: Seq<JsonV>, k: int, n: int, require_text: bool)
    requires
        0 < k <= n,
        summary_fault(v, k, require_text) is Some,
    ensures
        summary_fault(v, n, require_text) == summary_fault(v, k, require_text),
    decreases n - k,
{
    if k < n {
        lemma_summary_stop(v, k + 1, n, require_text);
    }
}

proof fn lemma_lines_stop(v: Seq<JsonV>, floor: JsonV, req: bool, i: int, k: int, n: int)
    requires
        0 < k <= n,
        paragraph_lines_fault(v, floor, req, i, k) is Some,
    ensures
        paragraph_lines_fault(v, floor, req, i, n) == paragraph_lines_fault(v, floor, req, i, k),
    decreases n - k,
{
    if k < n {
        lemma_lines_stop(v, floor, req, i, k + 1, n);
    }
}

proof fn lemma_paragraphs_stop(
    v: Seq<JsonV>,
    d: Seq<JsonV>,
    floor: JsonV,
    req: bool,
    k: int,
    n: int,
)
    requires
        0 < k <= n,
        paragraphs_fault(v, d, floor, req, k) is Some,
    ensures
        paragraphs_fault(v, d, floor, req, n) == paragraphs_fault(v, d, floor, req, k),
    decreases n - k,
{
    if k < n {
        lemma_paragraphs_stop(v, d, floor, req, k + 1, n);
    }
}

proof fn lemma_regions_stop(v: Seq<JsonV>, counts: Seq<int>, k: int, n: int)
    requires
        0 < k <= n,
        regions_fault(v, counts, k) is Some,
    ensures
        regions_fault(v, counts, n) == regions_fault(v, counts, k),
    decreases n - k,
{
    if k < n {
        lemma_regions_stop(v, counts, k + 1, n);
    }
}

proof fn lemma_highlights_stop(v: Seq<JsonV>, floor: JsonV, req: bool, k: int, n: int)
    requires
        0 < k <= n,
        highlights_fault(v, floor, req, k) is Some,
    ensures
        highlights_fault(v, floor, req, n) == highlights_fault(v, floor, req, k),
    decreases n - k,
{
    if k < n {
        lemma_highlights_stop(v, floor, req, k + 1, n);
    }
}

/// Checks the lines of paragraph `i` and gives their number.
fn check_paragraph(
    paragraph: &Json,
    declared: &Json,
    floor: &Json,
    require_text: bool,
    i: usize,
) -> (r: Result<u64, Fault>)
    ensures
        r is Ok <==> paragraph_fault(paragraph@, declared@, floor@, require_text, i as int) is None,
        r matches Err(f) ==> paragraph_fault(paragraph@, declared@, floor@, require_text, i as int)
            == Some(f),
        r matches Ok(n) ==> array_at(paragraph@, Ptr::Lines) matches Some(lines) && n == lines.len(),
{
    proof {
        reveal_strlit("lines");
    }
    let lines = match items_at(paragraph, Ptr::Lines) {
        Ok(lines) => lines,
        Err(f) => return Err(f),
    };
    let bounds = match declared.get("lines") {
        Some(b) => b,
        None => return Err(Fault::MissingBounds),
    };
    let minimum = int_at(bounds, Ptr::Minimum)?;
    let maximum = int_at(bounds, Ptr::Maximum)?;
    let count = lines.len() as u64;
    if !(minimum <= count && count <= maximum) {
        return Err(Fault::ParagraphLines { index: i, min: minimum, max: maximum, found: lines.len() });
    }
    let ghost v = items_view(lines@);
    assert(paragraph_fault(paragraph@, declared@, floor@, require_text, i as int)
        == paragraph_lines_fault(v, floor@, require_text, i as int, v.len() as int));
    let mut j: usize = 0;
    while j < lines.len()
        invariant
            j <= lines@.len(),
            paragraph_fault(paragraph@, declared@, floor@, require_text, i as int)
                == paragraph_lines_fault(v, floor@, require_text, i as int, v.len() as int),
            array_at(paragraph@, Ptr::Lines) == Some(v),
            count == lines@.len(),
            v == items_view(lines@),
            v.len() == lines@.len(),
            forall|t: int| 0 <= t < lines@.len() ==> #[trigger] v[t] == lines@[t]@,
            paragraph_lines_fault(v, floor@, require_text, i as int, j as int) is None,
        decreases lines@.len() - j,
    {
        let site = Site::ParagraphLine(i, j);
        let checked = match validate_line(&lines[j], site, require_text) {
            Ok(()) => validate_floor(&lines[j], floor, site),
            Err(f) => Err(f),
        };
        match checked {
            Ok(()) => {},
            Err(f) => {
                proof {
                    lemma_lines_stop(v, floor@, require_text, i as int, j as int + 1, lines@.len() as int);
                }
                return Err(f);
            },
        }
        j = j + 1;
    }
    Ok(count)
}

/// Checks the paragraphs against their declared bounds and gives their line
/// counts.
fn check_paragraphs(
    paragraphs: &Vec<Json>,
    declared: &Vec<Json>,
    floor: &Json,
    require_text: bool,
) -> (r: Result<Vec<u64>, Fault>)
    requires
        paragraphs@.len() == declared@.len(),
    ensures
        r is Ok <==> paragraphs_fault(
            items_view(paragraphs@),
            items_view(declared@),
            floor@,
            require_text,
            paragraphs@.len() as int,
        ) is None,
        r matches Err(f) ==> paragraphs_fault(
            items_view(paragraphs@),
            items_view(declared@),
            floor@,
            require_text,
            paragraphs@.len() as int,
        ) == Some(f),
        r matches Ok(c) ==> c@.len() == paragraphs@.len() && forall|i: int|
            0 <= i < c@.len() ==> #[trigger] c@[i] == line_counts(items_view(paragraphs@))[i],
{
    let ghost v = items_view(paragraphs@);
    let ghost d = items_view(declared@);
    proof {
        crate::json::lemma_items_view(paragraphs@);
        crate::json::lemma_items_view(declared@);
    }
    let mut counts: Vec<u64> = Vec::new();
    let mut i: usize = 0;
    while i < paragraphs.len()
        invariant
            i <= paragraphs@.len(),
            paragraphs@.len() == declared@.len(),
            v == items_view(paragraphs@),
            d == items_view(declared@),
            v.len() == paragraphs@.len(),
            d.len() == declared@.len(),
            forall|t: int| 0 <= t < paragraphs@.len() ==> #[trigger] v[t] == paragraphs@[t]@,
            forall|t: int| 0 <= t < declared@.len() ==> #[trigger] d[t] == declared@[t]@,
            paragraphs_fault(v, d, floor@, require_text, i as int) is None,
            counts@.len() == i,
            forall|t: int| 0 <= t < i ==> #[trigger] counts@[t] == line_counts(v)[t],
        decreases paragraphs@.len() - i,
    {
        match check_paragraph(&paragraphs[i], &declared[i], floor, require_text, i) {
            Ok(n) => {
                counts.push(n);
                assert(counts@[i as int] == line_counts(v)[i as int]);
            },
            Err(f) => {
                proof {
                    lemma_paragraphs_stop(v, d, floor@, require_text, i as int + 1, paragraphs@.len() as int);
                }
                return Err(f);
            },
        }
        i = i + 1;
    }
    Ok(counts)
}

/// The sum of `c[a..b]`, for `a <= b <= c.len()`.
fn sum_of(c: &Vec<u64>, a: usize, b: usize) -> (r: u128)
    requires
        a <= b <= c@.len(),
    ensures
        r as int == sum_range(c@.map_values(|x: u64| x as int), a as int, b as int),
{
    let ghost cv = c@.map_values(|x: u64| x as int);
    let mut total: u128 = 0;
    let mut i: usize = a;
    while i < b
        invariant
            a <= i <= b <= c@.len(),
            cv == c@.map_values(|x: u64| x as int),
            total as int == sum_range(cv, a as int, i as int),
            total <= (i - a) * 0xffff_ffff_ffff_ffffu128,
        decreases b - i,
    {
        assert(cv[i as int] == c@[i as int] as int);
        assert((i - a) * 0xffff_ffff_ffff_ffffu128 + 0xffff_ffff_ffff_ffffu128 == (i + 1 - a)
            * 0xffff_ffff_ffff_ffffu128) by (nonlinear_arith);
        assert((i + 1 - a) * 0xffff_ffff_ffff_ffffu128 <= 0xffff_ffff_ffff_ffffu128
            * 0xffff_ffff_ffff_ffffu128) by (nonlinear_arith)
            requires
                i + 1 - a <= 0xffff_ffff_ffff_ffffu128,
        ;
        total = total + c[i] as u128;
        i = i + 1;
    }
    total
}

/// The paragraph numbers of a region, when all of them are integers.
fn region_numbers_of(region: &Json) -> (r: Result<Vec<u64>, Fault>)
    ensures
        r matches Ok(nums) ==> region_numbers(region@) == Some(nums@),
        r matches Err(f) ==> region_numbers(region@) is None && (f == Fault::MissingArray(
            Ptr::Paragraphs,
        ) <==> array_at(region@, Ptr::Paragraphs) is None) && (f == Fault::InvalidParagraphNumber
            <==> array_at(region@, Ptr::Paragraphs) is Some),
{
    let items = items_at(region, Ptr::Paragraphs)?;
    let ghost v = items_view(items@);
    proof {
        crate::json::lemma_items_view(items@);
    }
    let mut nums: Vec<u64> = Vec::new();
    let mut i: usize = 0;
    while i < items.len()
        invariant
            i <= items@.len(),
            v == items_view(items@),
            v.len() == items@.len(),
            forall|t: int| 0 <= t < items@.len() ==> #[trigger] v[t] == items@[t]@,
            nums@.len() == i,
            array_at(region@, Ptr::Paragraphs) == Some(v),
            forall|t: int| 0 <= t < i ==> as_u64(#[trigger] v[t]) == Some(nums@[t]),
        decreases items@.len() - i,
    {
        match items[i].as_u64() {
            Some(n) => {
                nums.push(n);
            },
            None => {
                assert(as_u64(v[i as int]) is None);
                return Err(Fault::InvalidParagraphNumber);
            },
        }
        i = i + 1;
    }
    assert(nums@ =~= Seq::new(v.len(), |t: int| as_u64(v[t])->0));
    Ok(nums)
}

/// Checks the regions in order; `None` when a reached region names
/// paragraphs outside `1..=counts.len()`.
fn check_regions(regions: &Vec<Json>, counts: &Vec<u64>) -> (r: Option<Result<(), Fault>>)
    ensures
        r is None <==> !regions_safe(
            items_view(regions@),
            counts@.map_values(|x: u64| x as int),
            counts@.len() as int,
        ),
        r matches Some(res) ==> (res is Ok <==> regions_fault(
            items_view(regions@),
            counts@.map_values(|x: u64| x as int),
            regions@.len() as int,
        ) is None),
        r matches Some(res) ==> (res matches Err(f) ==> regions_fault(
            items_view(regions@),
            counts@.map_values(|x: u64| x as int),
            regions@.len() as int,
        ) == Some(f)),
{
    let ghost v = items_view(regions@);
    let ghost cv = counts@.map_values(|x: u64| x as int);
    let ghost n = counts@.len() as int;
    proof {
        crate::json::lemma_items_view(regions@);
    }
    let mut k: usize = 0;
    while k < regions.len()
        invariant
            k <= regions@.len(),
            v == items_view(regions@),
            cv == counts@.map_values(|x: u64| x as int),
            n == counts@.len(),
            v.len() == regions@.len(),
            forall|t: int| 0 <= t < regions@.len() ==> #[trigger] v[t] == regions@[t]@,
            regions_fault(v, cv, k as int) is None,
            forall|t: int|
                0 <= t < k && regions_fault(v, cv, t) is None ==> match region_numbers(
                    #[trigger] v[t],
                ) {
                    Some(nums) => nums.len() > 0 ==> 1 <= nums[0] && nums[0] - 1 <= nums.last()
                        && nums.last() <= n,
                    None => true,
                },
        decreases regions@.len() - k,
    {
        let region = &regions[k];
        let checked: Result<(), Fault> = match region_numbers_of(region) {
            Err(f) => Err(f),
            Ok(nums) => {
                if nums.len() == 0 {
                    Err(Fault::EmptyRegion)
                } else {
                    let first = nums[0];
                    let last = nums[nums.len() - 1];
                    if !(1 <= first && first - 1 <= last && last <= counts.len() as u64) {
                        proof {
                            assert(!regions_safe(v, cv, n)) by {
                                assert(regions_fault(v, cv, k as int) is None);
                                assert(region_numbers(v[k as int]) == Some(nums@));
                            }
                        }
                        return None;
                    }
                    let total = sum_of(counts, (first - 1) as usize, last as usize);
                    validate_count(total, region, Site::Region(first, last))
                }
            },
        };
        match checked {
            Ok(()) => {},
            Err(f) => {
                proof {
                    lemma_regions_stop(v, cv, k as int + 1, regions@.len() as int);
                    assert forall|t: int|
                        0 <= t < regions@.len() && regions_fault(v, cv, t) is None implies match region_numbers(
                            #[trigger] v[t],
                        ) {
                            Some(nums) => nums.len() > 0 ==> 1 <= nums[0] && nums[0] - 1 <= nums.last()
                                && nums.last() <= n,
                            None => true,
                        } by {
                        if t > k {
                            lemma_regions_stop(v, cv, k as int + 1, t);
                        }
                    }
                }
                return Some(Err(f));
            },
        }
        k = k + 1;
    }
    Some(Ok(()))
}

/// Checks the highlights against the highlight floor.
fn check_highlights(lines: &Vec<Json>, floor: &Json, require_text: bool) -> (r: Result<(), Fault>)
    ensures
        r is Ok <==> highlights_fault(items_view(lines@), floor@, require_text, lines@.len() as int)
            is None,
        r matches Err(f) ==> highlights_fault(
            items_view(lines@),
            floor@,
            require_text,
            lines@.len() as int,
        ) == Some(f),
{
    let ghost v = items_view(lines@);
    proof {
        crate::json::lemma_items_view(lines@);
    }
    let mut i: usize = 0;
    while i < lines.len()
        invariant
            i <= lines@.len(),
            v == items_view(lines@),
            v.len() == lines@.len(),
            forall|j: int| 0 <= j < lines@.len() ==> #[trigger] v[j] == lines@[j]@,
            highlights_fault(v, floor@, require_text, i as int) is None,
        decreases lines@.len() - i,
    {
        let site = Site::Highlight(i);
        let checked = match validate_line(&lines[i], site, require_text) {
            Ok(()) => validate_floor(&lines[i], floor, site),
            Err(f) => Err(f),
        };
        match checked {
            Ok(()) => {},
            Err(f) => {
                proof {
                    lemma_highlights_stop(v, floor@, require_text, i as int + 1, lines@.len() as int);
                }
                return Err(f);
            },
        }
        i = i + 1;
    }
    Ok(())
}

/// The regions and paragraph line counts, when the checks of a record reach
/// its regions (every earlier check passed).
pub open spec fn regions_point(manifest: Option<JsonV>, application: JsonV, require_text: bool) -> Option<
    (Seq<JsonV>, Seq<int>),
> {
    if cv_fault(application, require_text) is Some {
        None
    } else {
        match json_at(application, Ptr::TailoredCl) {
            Some(cover) => match (as_entries(cover), field(cover, "enabled"@)) {
                (Some(entries), Some(e)) => if as_bool(e) == Some(true) && entries.len() == 3 && field(
                    cover,
                    "paragraphs"@,
                ) is Some && field(cover, "highlights"@) is Some {
                    match manifest {
                        Some(m) => match json_at(m, Ptr::CoverLetter) {
                            Some(contract) => match (
                                array_at(contract, Ptr::Paragraphs),
                                as_items(field(cover, "paragraphs"@)->0),
                                json_at(contract, Ptr::BodyFloor),
                                json_at(contract, Ptr::BodyLines),
                                array_at(contract, Ptr::ParagraphRegions),
                            ) {
                                (
                                    Some(declared),
                                    Some(paragraphs),
                                    Some(floor),
                                    Some(body),
                                    Some(regions),
                                ) => {
                                    let counts = line_counts(paragraphs);
                                    if paragraphs.len() == declared.len() && paragraphs_fault(
                                        paragraphs,
                                        declared,
                                        floor,
                                        require_text,
                                        paragraphs.len() as int,
                                    ) is None && count_fault(
                                        sum_range(counts, 0, counts.len() as int) as u128,
                                        body,
                                        Site::BodyLines,
                                    ) is None {
                                        Some((regions, counts))
                                    } else {
                                        None
                                    }
                                },
                                _ => None,
                            },
                            None => None,
                        },
                        None => None,
                    }
                } else {
                    None
                },
                _ => None,
            },
            None => None,
        }
    }
}

/// The checks of a record read only paragraphs that exist.
pub open spec fn contracts_defined(manifest: Option<JsonV>, application: JsonV, require_text: bool) -> bool {
    regions_point(manifest, application, require_text) matches Some((regions, counts))
        ==> regions_safe(regions, counts, counts.len() as int)
}

/// The view of an optional document.
pub open spec fn opt_view(m: Option<&Json>) -> Option<JsonV> {
    match m {
        Some(j) => Some(j@),
        None => None,
    }
}

/// Checks the CV part of a record.
fn check_cv(application: &Json, require_text: bool) -> (r: Result<(), Fault>)
    ensures
        r is Ok <==> cv_fault(application@, require_text) is None,
        r matches Err(f) ==> cv_fault(application@, require_text) == Some(f),
{
    let pages = match int_at(application, Ptr::Pages) {
        Ok(p) => p,
        Err(_) => return Err(Fault::PagesMissing),
    };
    if !(pages == 2 || pages == 3 || pages == 4) {
        return Err(Fault::BadPages);
    }
    let summary = items_at(application, Ptr::Summary)?;
    if summary.len() != 5 {
        return Err(Fault::SummaryCount);
    }
    check_summary(summary, require_text)
}

proof fn lemma_sum_counts(c: Seq<u64>, p: Seq<JsonV>)
    requires
        c.len() == p.len(),
        forall|i: int| 0 <= i < c.len() ==> #[trigger] c[i] == line_counts(p)[i],
    ensures
        c.map_values(|x: u64| x as int) =~= line_counts(p),
{
}

/// Checks the cover-letter part of a record; `None` when a region would
/// name paragraphs that do not exist.
fn check_cover(manifest: Option<&Json>, application: &Json, require_text: bool) -> (r: Option<
    Result<(), Fault>,
>)
    requires
        cv_fault(application@, require_text) is None,
    ensures
        r is None <==> !contracts_defined(opt_view(manifest), application@, require_text),
        r matches Some(res) ==> (res is Ok <==> cover_fault(
            opt_view(manifest),
            application@,
            require_text,
        ) is None),
        r matches Some(res) ==> (res matches Err(f) ==> cover_fault(
            opt_view(manifest),
            application@,
            require_text,
        ) == Some(f)),
{
    proof {
        reveal_strlit("enabled");
        reveal_strlit("paragraphs");
        reveal_strlit("highlights");
    }
    let cover = match value_at(application, Ptr::TailoredCl) {
        Some(c) => c,
        None => return Some(Err(Fault::MissingObject(Ptr::TailoredCl))),
    };
    let entries = match cover.as_object() {
        Some(e) => e,
        None => return Some(Err(Fault::MissingObject(Ptr::TailoredCl))),
    };
    let enabled = match cover.get("enabled") {
        Some(e) => match e.as_bool() {
            Some(b) => b,
            None => return Some(Err(Fault::EnabledNotBool)),
        },
        None => return Some(Err(Fault::EnabledNotBool)),
    };
    if !enabled {
        if entries.len() != 1 {
            return Some(Err(Fault::HiddenContent));
        }
        return Some(Ok(()));
    }
    let paragraphs_value = cover.get("paragraphs");
    let highlights_value = cover.get("highlights");
    if !(entries.len() == 3 && paragraphs_value.is_some() && highlights_value.is_some()) {
        return Some(Err(Fault::IncompleteCover));
    }
    let manifest = match manifest {
        Some(m) => m,
        None => return Some(Err(Fault::ManifestUnavailable)),
    };
    let contract = match value_at(manifest, Ptr::CoverLetter) {
        Some(c) => c,
        None => return Some(Err(Fault::NoCoverContract)),
    };
    let declared = match items_at(contract, Ptr::Paragraphs) {
        Ok(d) => d,
        Err(f) => return Some(Err(f)),
    };
    let paragraphs = match paragraphs_value {
        Some(p) => match p.as_array() {
            Some(items) => items,
            None => return Some(Err(Fault::ParagraphsNotArray)),
        },
        None => return Some(Err(Fault::ParagraphsNotArray)),
    };
    proof {
        crate::json::lemma_items_view(paragraphs@);
        crate::json::lemma_items_view(declared@);
    }
    if paragraphs.len() != declared.len() {
        return Some(
            Err(Fault::ParagraphCount { expected: declared.len(), found: paragraphs.len() }),
        );
    }
    let floor = match value_at(contract, Ptr::BodyFloor) {
        Some(f) => f,
        None => return Some(Err(Fault::MissingBodyFloor)),
    };
    let counts = match check_paragraphs(paragraphs, declared, floor, require_text) {
        Ok(c) => c,
        Err(f) => return Some(Err(f)),
    };
    let ghost pv = items_view(paragraphs@);
    proof {
        lemma_sum_counts(counts@, pv);
    }
    let total = sum_of(&counts, 0, counts.len());
    let body = match value_at(contract, Ptr::BodyLines) {
        Some(b) => b,
        None => return Some(Err(Fault::MissingBodyContract)),
    };
    match validate_count(total, body, Site::BodyLines) {
        Ok(()) => {},
        Err(f) => return Some(Err(f)),
    }
    let regions = match items_at(contract, Ptr::ParagraphRegions) {
        Ok(r) => r,
        Err(f) => return Some(Err(f)),
    };
    assert(regions_point(opt_view(Some(manifest)), application@, require_text) == Some(
        (items_view(regions@), line_counts(pv)),
    ));
    match check_regions(regions, &counts) {
        None => return None,
        Some(Err(f)) => return Some(Err(f)),
        Some(Ok(())) => {},
    }
    let highlights = match highlights_value {
        Some(h) => match h.as_array() {
            Some(items) => items,
            None => return Some(Err(Fault::HighlightsNotArray)),
        },
        None => return Some(Err(Fault::HighlightsNotArray)),
    };
    let expected = match int_at(contract, Ptr::HighlightCount) {
        Ok(n) => n,
        Err(f) => return Some(Err(f)),
    };
    proof {
        crate::json::lemma_items_view(highlights@);
    }
    if highlights.len() as u64 != expected {
        return Some(Err(Fault::HighlightCount { expected, found: highlights.len() }));
    }
    let highlight_floor = match value_at(contract, Ptr::HighlightFloor) {
        Some(f) => f,
        None => return Some(Err(Fault::MissingHighlightFloor)),
    };
    match check_highlights(highlights, highlight_floor, require_text) {
        Ok(()) => Some(Ok(())),
        Err(f) => Some(Err(f)),
    }
}

/// Checks a record against its line contracts, reporting `None` where the
/// region checks would name paragraphs that do not exist. `manifest` is the
/// workspace manifest (`None` when it could not be read); `location` names
/// the record in messages.
pub fn checked_line_contracts(
    manifest: Option<&Json>,
    application: &Json,
    location: &str,
    require_text: bool,
) -> (r: Option<Result<(), ContractError>>)
    ensures
        r is None <==> !contracts_defined(opt_view(manifest), application@, require_text),
        r matches Some(res) ==> (res is Ok <==> contracts_fault(
            opt_view(manifest),
            application@,
            require_text,
        ) is None),
        r matches Some(res) ==> (res matches Err(e) ==> contracts_fault(
            opt_view(manifest),
            application@,
            require_text,
        ) == Some(e.fault) && e.location@ == location@),
{
    match check_cv(application, require_text) {
        Ok(()) => {},
        Err(f) => {
            return Some(Err(ContractError { location: crate::text::string_of(location), fault: f }));
        },
    }
    match check_cover(manifest, application, require_text) {
        None => None,
        Some(Ok(())) => Some(Ok(())),
        Some(Err(f)) => Some(
            Err(ContractError { location: crate::text::string_of(location), fault: f }),
        ),
    }
}

/// Checks a record against its line contracts: the page count, five Summary
/// lines, and either a disabled cover letter without hidden content or an
/// enabled one whose paragraphs, regions, total and highlights meet the
/// manifest's cover-letter contract.
pub fn validate_line_contracts(
    manifest: Option<&Json>,
    application: &Json,
    location: &str,
    require_text: bool,
) -> (r: Result<(), ContractError>)
    requires
        contracts_defined(opt_view(manifest), application@, require_text),
    ensures
        r is Ok <==> contracts_fault(opt_view(manifest), application@, require_text) is None,
        r matches Err(e) ==> contracts_fault(opt_view(manifest), application@, require_text)
            == Some(e.fault) && e.location@ == location@,
{
    match checked_line_contracts(manifest, application, location, require_text) {
        Some(r) => r,
        None => vstd::pervasive::unreached(),
    }
}

/// Where a site is, in the terms of messages.
pub open spec fn site_text(location: Seq<char>, site: Site) -> Seq<char> {
    match site {
        Site::Summary(i) => location + ".tailored_cv.summary["@ + decimal((i + 1) as nat) + "]"@,
        Site::ParagraphLine(i, j) => location + ".tailored_cl.paragraphs["@ + decimal((i + 1) as nat)
            + "].lines["@ + decimal((j + 1) as nat) + "]"@,
        Site::Highlight(i) => location + ".tailored_cl.highlights["@ + decimal((i + 1) as nat) + "]"@,
        Site::BodyLines => location + ".tailored_cl.paragraphs"@,
        Site::Region(a, b) => location + ".tailored_cl.paragraphs["@ + decimal(a as nat) + ":"@
            + decimal(b as nat) + "]"@,
    }
}

/// What a count is called in messages.
pub open spec fn count_label(site: Site) -> Seq<char> {
    match site {
        Site::Region(_, _) => "shared lines"@,
        _ => "body lines"@,
    }
}

/// The message that explains a fault of the record read from `location`.
pub open spec fn fault_message(location: Seq<char>, fault: Fault) -> Seq<char> {
    match fault {
        Fault::MissingInteger(p) => "missing integer at "@ + ptr_text(p),
        Fault::MissingArray(p) => "missing array at "@ + ptr_text(p),
        Fault::MissingObject(p) => "missing object at "@ + ptr_text(p),
        Fault::PagesMissing => "tailored_cv.pages is missing"@,
        Fault::BadPages => location + ".tailored_cv.pages: expected 2, 3, or 4"@,
        Fault::SummaryCount => location + ".tailored_cv.summary: expected exactly five lines"@,
        Fault::EnabledNotBool => "tailored_cl.enabled is not a boolean"@,
        Fault::HiddenContent => location
            + ".tailored_cl: a disabled cover letter may not retain hidden content"@,
        Fault::IncompleteCover => location
            + ".tailored_cl: an enabled cover letter requires paragraphs and highlights"@,
        Fault::ManifestUnavailable => "cannot read the workspace manifest ccvl.json"@,
        Fault::NoCoverContract => "ccvl.json has no cover-letter contract"@,
        Fault::ParagraphsNotArray => "tailored_cl.paragraphs is not an array"@,
        Fault::ParagraphCount { expected, found } => location + ".tailored_cl.paragraphs: expected "@
            + decimal(expected as nat) + " paragraphs, found "@ + decimal(found as nat),
        Fault::MissingBodyFloor => "missing body line-fill contract"@,
        Fault::MissingBounds => "missing paragraph bounds"@,
        Fault::ParagraphLines { index, min, max, found } => location
            + ".tailored_cl.paragraphs["@ + decimal((index + 1) as nat) + "]: expected "@ + decimal(
            min as nat,
        ) + "\u{2013}"@ + decimal(max as nat) + " lines, found "@ + decimal(found as nat),
        Fault::MissingText => "line text is missing"@,
        Fault::EmptyText(site) => site_text(location, site)
            + ".text: a rendered line cannot be empty"@,
        Fault::UnorderedFill(site) => site_text(location, site)
            + ": expected min_fill <= target_fill <= max_fill"@,
        Fault::FillRange(site) => site_text(location, site)
            + ": fill bounds must remain within 1\u{2013}100"@,
        Fault::WeakFloor(site) => site_text(location, site)
            + ": line contract weakens the required fill floor or target"@,
        Fault::MissingBodyContract => "missing body line contract"@,
        Fault::Count { site, min, max, actual } => site_text(location, site) + ": expected "@
            + decimal(min as nat) + "\u{2013}"@ + decimal(max as nat) + " "@ + count_label(site)
            + ", found "@ + decimal(actual as nat),
        Fault::InvalidParagraphNumber => "invalid paragraph number"@,
        Fault::EmptyRegion => "empty paragraph region"@,
        Fault::HighlightsNotArray => "tailored_cl.highlights is not an array"@,
        Fault::HighlightCount { expected, found } => location
            + ".tailored_cl.highlights: expected "@ + decimal(expected as nat) + " items, found "@
            + decimal(found as nat),
        Fault::MissingHighlightFloor => "missing highlight line-fill contract"@,
    }
}

/// Appends the text of a site.
fn push_site(s: &mut String, location: &str, site: Site)
    ensures
        final(s)@ == old(s)@ + site_text(location@, site),
{
    proof {
        reveal_strlit(".tailored_cv.summary[");
        reveal_strlit("]");
        reveal_strlit(".tailored_cl.paragraphs[");
        reveal_strlit("].lines[");
        reveal_strlit(".tailored_cl.highlights[");
        reveal_strlit(".tailored_cl.paragraphs");
        reveal_strlit(":");
    }
    let ghost start = s@;
    push_str(s, location);
    match site {
        Site::Summary(i) => {
            push_str(s, ".tailored_cv.summary[");
            push_decimal(s, i as u128 + 1);
            push_str(s, "]");
        },
        Site::ParagraphLine(i, j) => {
            push_str(s, ".tailored_cl.paragraphs[");
            push_decimal(s, i as u128 + 1);
            push_str(s, "].lines[");
            push_decimal(s, j as u128 + 1);
            push_str(s, "]");
        },
        Site::Highlight(i) => {
            push_str(s, ".tailored_cl.highlights[");
            push_decimal(s, i as u128 + 1);
            push_str(s, "]");
        },
        Site::BodyLines => {
            push_str(s, ".tailored_cl.paragraphs");
        },
        Site::Region(a, b) => {
            push_str(s, ".tailored_cl.paragraphs[");
            push_decimal(s, a as u128);
            push_str(s, ":");
            push_decimal(s, b as u128);
            push_str(s, "]");
        },
    }
    assert(s@ =~= start + site_text(location@, site));
}

impl ContractError {
    /// The message that explains the error.
    pub fn message(&self) -> (r: String)
        ensures
            r@ == fault_message(self.location@, self.fault),
    {
        let location = self.location.as_str();
        let mut s = String::new();
        let ghost e = Seq::<char>::empty();
        proof {
            reveal_strlit("missing integer at ");
            reveal_strlit("missing array at ");
            reveal_strlit("missing object at ");
            reveal_strlit(".tailored_cl.paragraphs: expected ");
            reveal_strlit(" paragraphs, found ");
            reveal_strlit(".tailored_cl.paragraphs[");
            reveal_strlit("]: expected ");
            reveal_strlit("\u{2013}");
            reveal_strlit(" lines, found ");
            reveal_strlit(": expected ");
            reveal_strlit(" ");
            reveal_strlit("shared lines");
            reveal_strlit("body lines");
            reveal_strlit(", found ");
            reveal_strlit(".tailored_cl.highlights: expected ");
            reveal_strlit(" items, found ");
        }
        match self.fault {
            Fault::MissingInteger(p) => {
                push_str(&mut s, "missing integer at ");
                push_str(&mut s, ptr_str(p));
            },
            Fault::MissingArray(p) => {
                push_str(&mut s, "missing array at ");
                push_str(&mut s, ptr_str(p));
            },
            Fault::MissingObject(p) => {
                push_str(&mut s, "missing object at ");
                push_str(&mut s, ptr_str(p));
            },
            Fault::PagesMissing => push_str(&mut s, "tailored_cv.pages is missing"),
            Fault::BadPages => {
                push_str(&mut s, location);
                push_str(&mut s, ".tailored_cv.pages: expected 2, 3, or 4");
            },
            Fault::SummaryCount => {
                push_str(&mut s, location);
                push_str(&mut s, ".tailored_cv.summary: expected exactly five lines");
            },
            Fault::EnabledNotBool => push_str(&mut s, "tailored_cl.enabled is not a boolean"),
            Fault::HiddenContent => {
                push_str(&mut s, location);
                push_str(&mut s, ".tailored_cl: a disabled cover letter may not retain hidden content");
            },
            Fault::IncompleteCover => {
                push_str(&mut s, location);
                push_str(
                    &mut s,
                    ".tailored_cl: an enabled cover letter requires paragraphs and highlights",
                );
            },
            Fault::ManifestUnavailable => push_str(
                &mut s,
                "cannot read the workspace manifest ccvl.json",
            ),
            Fault::NoCoverContract => push_str(&mut s, "ccvl.json has no cover-letter contract"),
            Fault::ParagraphsNotArray => push_str(&mut s, "tailored_cl.paragraphs is not an array"),
            Fault::ParagraphCount { expected, found } => {
                push_str(&mut s, location);
                push_str(&mut s, ".tailored_cl.paragraphs: expected ");
                push_decimal(&mut s, expected as u128);
                push_str(&mut s, " paragraphs, found ");
                push_decimal(&mut s, found as u128);
            },
            Fault::MissingBodyFloor => push_str(&mut s, "missing body line-fill contract"),
            Fault::MissingBounds => push_str(&mut s, "missing paragraph bounds"),
            Fault::ParagraphLines { index, min, max, found } => {
                push_str(&mut s, location);
                push_str(&mut s, ".tailored_cl.paragraphs[");
                push_decimal(&mut s, index as u128 + 1);
                push_str(&mut s, "]: expected ");
                push_decimal(&mut s, min as u128);
                push_str(&mut s, "\u{2013}");
                push_decimal(&mut s, max as u128);
                push_str(&mut s, " lines, found ");
                push_decimal(&mut s, found as u128);
            },
            Fault::MissingText => push_str(&mut s, "line text is missing"),
            Fault::EmptyText(site) => {
                push_site(&mut s, location, site);
                push_str(&mut s, ".text: a rendered line cannot be empty");
            },
            Fault::UnorderedFill(site) => {
                push_site(&mut s, location, site);
                push_str(&mut s, ": expected min_fill <= target_fill <= max_fill");
            },
            Fault::FillRange(site) => {
                push_site(&mut s, location, site);
                push_str(&mut s, ": fill bounds must remain within 1\u{2013}100");
            },
            Fault::WeakFloor(site) => {
                push_site(&mut s, location, site);
                push_str(&mut s, ": line contract weakens the required fill floor or target");
            },
            Fault::MissingBodyContract => push_str(&mut s, "missing body line contract"),
            Fault::Count { site, min, max, actual } => {
                push_site(&mut s, location, site);
                push_str(&mut s, ": expected ");
                push_decimal(&mut s, min as u128);
                push_str(&mut s, "\u{2013}");
                push_decimal(&mut s, max as u128);
                push_str(&mut s, " ");
                match site {
                    Site::Region(_, _) => push_str(&mut s, "shared lines"),
                    _ => push_str(&mut s, "body lines"),
                }
                push_str(&mut s, ", found ");
                push_decimal(&mut s, actual);
            },
            Fault::InvalidParagraphNumber => push_str(&mut s, "invalid paragraph number"),
            Fault::EmptyRegion => push_str(&mut s, "empty paragraph region"),
            Fault::HighlightsNotArray => push_str(&mut s, "tailored_cl.highlights is not an array"),
            Fault::HighlightCount { expected, found } => {
                push_str(&mut s, location);
                push_str(&mut s, ".tailored_cl.highlights: expected ");
                push_decimal(&mut s, expected as u128);
                push_str(&mut s, " items, found ");
                push_decimal(&mut s, found as u128);
            },
            Fault::MissingHighlightFloor => push_str(&mut s, "missing highlight line-fill contract"),
        }
        assert(s@ =~= fault_message(self.location@, self.fault));
        s
    }
}


/// Two checks in turn: the second counts only when the first passes.
pub open spec fn then_outcome(first: Outcome, second: Outcome) -> Outcome {
    match first {
        Outcome::Pass => second,
        other => other,
    }
}

/// The outcome of checking the document read from `relative` against `schema`.
pub open spec fn file_outcome(w: Workspace, relative: Seq<char>, document: JsonV, schema: JsonV) -> Outcome {
    schema_outcome(document, schema, schema, join(w.root_view(), relative), ref_fuel(document, schema))
}

/// Checks the document read from `relative` against the schema document
/// `schema`, reporting the file's path as the location.
fn validate_file(workspace: &Workspace, relative: &str, document: &Json, schema: &Json) -> (r: Option<
    Result<(), SchemaError>,
>)
    ensures
        agrees(r, file_outcome(*workspace, relative@, document@, schema@)),
{
    let location = workspace.path(relative);
    check_schema(document, schema, schema, location.as_str())
}

/// Checks two documents in turn against one schema.
fn validate_pair(
    workspace: &Workspace,
    schema: &Json,
    first_relative: &str,
    first: &Json,
    second_relative: &str,
    second: &Json,
) -> (r: Option<Result<(), SchemaError>>)
    ensures
        agrees(
            r,
            then_outcome(
                file_outcome(*workspace, first_relative@, first@, schema@),
                file_outcome(*workspace, second_relative@, second@, schema@),
            ),
        ),
{
    match validate_file(workspace, first_relative, first, schema) {
        Some(Ok(())) => validate_file(workspace, second_relative, second, schema),
        other => other,
    }
}

/// `validate_profiles`: the profile template and the general profile
/// conform to the profile schema (`None` where the schema's references
/// nest without end).
pub fn validate_profiles(workspace: &Workspace, schema: &Json, template: &Json, general: &Json) -> (r: Option<
    Result<(), SchemaError>,
>)
    ensures
        agrees(
            r,
            then_outcome(
                file_outcome(*workspace, "templates/profile.json"@, template@, schema@),
                file_outcome(*workspace, "cvl/general/profile.json"@, general@, schema@),
            ),
        ),
{
    validate_pair(workspace, schema, "templates/profile.json", template, "cvl/general/profile.json", general)
}

/// `validate_station_files`: the stations template and the general
/// stations conform to the stations schema (`None` where the schema's
/// references nest without end).
pub fn validate_station_files(
    workspace: &Workspace,
    schema: &Json,
    template: &Json,
    general: &Json,
) -> (r: Option<Result<(), SchemaError>>)
    ensures
        agrees(
            r,
            then_outcome(
                file_outcome(*workspace, "templates/stations.json"@, template@, schema@),
                file_outcome(*workspace, "cvl/general/stations.json"@, general@, schema@),
            ),
        ),
{
    validate_pair(
        workspace,
        schema,
        "templates/stations.json",
        template,
        "cvl/general/stations.json",
        general,
    )
}

/// The components of a relative path: its `/`-separated parts, empty ones
/// dropped.
pub open spec fn components(rel: Seq<char>) -> Seq<Seq<char>> {
    nonempty(crate::json::tokens(rel))
}

/// The non-empty texts among `ts`, in order.
pub open spec fn nonempty(ts: Seq<Seq<char>>) -> Seq<Seq<char>>
    decreases ts.len(),
{
    if ts.len() == 0 {
        Seq::empty()
    } else if ts.last().len() == 0 {
        nonempty(ts.drop_last())
    } else {
        nonempty(ts.drop_last()).push(ts.last())
    }
}

/// `a` directly followed by `b` occurs among the parts.
pub open spec fn has_pair(parts: Seq<Seq<char>>, a: Seq<char>, b: Seq<char>) -> bool {
    exists|i: int| 0 <= i < parts.len() - 1 && #[trigger] parts[i] == a && parts[i + 1] == b
}

/// The language that a general record in `rel` must declare, if any.
pub open spec fn required_language(rel: Seq<char>) -> Option<Seq<char>> {
    if has_pair(components(rel), "general"@, "de-ch"@) {
        Some("de-CH"@)
    } else if has_pair(components(rel), "general"@, "en-ch"@) {
        Some("en-CH"@)
    } else {
        None
    }
}

/// The `job.language` of a record, if it is a string.
pub open spec fn declared_language(document: JsonV) -> Option<Seq<char>> {
    match json_at(document, Ptr::JobLanguage) {
        Some(v) => as_text(v),
        None => None,
    }
}

/// Why an application record is refused.
#[derive(Debug)]
pub enum ApplicationError {
    Schema(SchemaError),
    Contract(ContractError),
    /// The general record at `relative` does not declare `expected`.
    Language { relative: String, expected: String },
}

proof fn lemma_tokens_nonempty(b: Seq<char>)
    ensures
        crate::json::tokens(b).len() >= 1,
    decreases b.len(),
{
    if b.len() > 0 {
        lemma_tokens_nonempty(b.drop_last());
    }
}

/// The components of a relative path.
pub(crate) fn path_components(rel: &str) -> (r: Vec<String>)
    ensures
        strings_view(r@) == components(rel@),
{
    let n = rel.unicode_len();
    let mut out: Vec<String> = Vec::new();
    let mut current = String::new();
    let mut i: usize = 0;
    assert(rel@.subrange(0, 0) =~= Seq::<char>::empty());
    assert(strings_view(out@) =~= Seq::<Seq<char>>::empty());
    while i < n
        invariant
            n == rel@.len(),
            i <= n,
            crate::json::tokens(rel@.subrange(0, i as int)).len() >= 1,
            strings_view(out@) == nonempty(crate::json::tokens(rel@.subrange(0, i as int)).drop_last()),
            current@ == crate::json::tokens(rel@.subrange(0, i as int)).last(),
        decreases n - i,
    {
        let ghost t = crate::json::tokens(rel@.subrange(0, i as int));
        let c = rel.get_char(i);
        proof {
            assert(rel@.subrange(0, i + 1).drop_last() =~= rel@.subrange(0, i as int));
            assert(rel@.subrange(0, i + 1).last() == c);
        }
        if c == '/' {
            let ghost before = out@;
            if current.unicode_len() > 0 {
                let piece = string_of(current.as_str());
                out.push(piece);
                assert(strings_view(out@) =~= strings_view(before).push(current@));
            }
            current = String::new();
            proof {
                let t2 = crate::json::tokens(rel@.subrange(0, i + 1));
                assert(t2 == t.push(Seq::<char>::empty()));
                assert(t2.drop_last() =~= t);
                assert(t == t.drop_last().push(t.last()));
            }
        } else {
            crate::text::push_char(&mut current, c);
            proof {
                let t2 = crate::json::tokens(rel@.subrange(0, i + 1));
                assert(t2.drop_last() =~= t.drop_last());
            }
        }
        i = i + 1;
    }
    assert(rel@.subrange(0, n as int) =~= rel@);
    let ghost t = crate::json::tokens(rel@);
    let ghost before = out@;
    assert(t == t.drop_last().push(t.last()));
    if current.unicode_len() > 0 {
        out.push(current);
        assert(strings_view(out@) =~= strings_view(before).push(t.last()));
    }
    out
}

/// Whether `a` directly followed by `b` occurs among the parts.
fn pair_in(parts: &Vec<String>, a: &str, b: &str) -> (r: bool)
    ensures
        r == has_pair(strings_view(parts@), a@, b@),
{
    let ghost pv = strings_view(parts@);
    if parts.len() < 2 {
        return false;
    }
    let mut i: usize = 0;
    while i < parts.len() - 1
        invariant
            pv == strings_view(parts@),
            parts@.len() >= 2,
            i + 1 <= parts@.len(),
            forall|t: int| 0 <= t < i ==> !(#[trigger] pv[t] == a@ && pv[t + 1] == b@),
        decreases parts@.len() - i,
    {
        if crate::text::same_text(parts[i].as_str(), a) && crate::text::same_text(parts[i + 1].as_str(), b) {
            assert(pv[i as int] == a@ && pv[i + 1] == b@);
            return true;
        }
        i = i + 1;
    }
    false
}

/// What a record's location demands of its language.
pub fn required_language_of(relative: &str) -> (r: Option<&'static str>)
    ensures
        r matches Some(l) ==> required_language(relative@) == Some(l@),
        r is None ==> required_language(relative@) is None,
{
    let parts = path_components(relative);
    if pair_in(&parts, "general", "de-ch") {
        Some("de-CH")
    } else if pair_in(&parts, "general", "en-ch") {
        Some("en-CH")
    } else {
        None
    }
}

/// The first problem of an application record read from `relative` (its
/// path inside the workspace): its schema (the file's path is the
/// location), then its line contracts (the template's lines need no text),
/// then, for a general record of a locale, its declared language. `None`
/// where the schema's references nest without end or the contracts would
/// read a paragraph that does not exist.
pub open spec fn application_outcome(
    w: Workspace,
    relative: Seq<char>,
    document: JsonV,
    schema: JsonV,
    manifest: Option<JsonV>,
) -> Option<Option<ApplicationFault>> {
    let require_text = relative != "templates/application.json"@;
    match file_outcome(w, relative, document, schema) {
        Outcome::Diverge => None,
        Outcome::Fail(f) => Some(Some(ApplicationFault::Schema(f))),
        Outcome::Pass => if !contracts_defined(manifest, document, require_text) {
            None
        } else {
            match contracts_fault(manifest, document, require_text) {
                Some(f) => Some(Some(ApplicationFault::Contract(f))),
                None => match required_language(relative) {
                    Some(l) => if declared_language(document) != Some(l) {
                        Some(Some(ApplicationFault::Language(l)))
                    } else {
                        Some(None)
                    },
                    None => Some(None),
                },
            }
        },
    }
}

/// The mathematical form of an application error.
pub enum ApplicationFault {
    Schema(crate::schema::SchemaFault),
    Contract(Fault),
    Language(Seq<char>),
}

/// Checks one application record (see `application_outcome`).
pub fn validate_application(
    workspace: &Workspace,
    relative: &str,
    document: &Json,
    schema: &Json,
    manifest: Option<&Json>,
) -> (r: Option<Result<(), ApplicationError>>)
    ensures
        match application_outcome(*workspace, relative@, document@, schema@, opt_view(manifest)) {
            None => r is None,
            Some(None) => r == Some(Ok::<(), ApplicationError>(())),
            Some(Some(ApplicationFault::Schema(f))) => (r matches Some(
                Err(ApplicationError::Schema(e)),
            ) && e@ == f),
            Some(Some(ApplicationFault::Contract(f))) => (r matches Some(
                Err(ApplicationError::Contract(e)),
            ) && e.fault == f && e.location@ == relative@),
            Some(Some(ApplicationFault::Language(l))) => (r matches Some(
                Err(ApplicationError::Language { relative: p, expected: x }),
            ) && p@ == relative@ && x@ == l),
        },
{
    match validate_file(workspace, relative, document, schema) {
        None => {
            return None;
        },
        Some(Err(e)) => {
            return Some(Err(ApplicationError::Schema(e)));
        },
        Some(Ok(())) => {},
    }
    let require_text = !crate::text::same_text(relative, "templates/application.json");
    match checked_line_contracts(manifest, document, relative, require_text) {
        None => {
            return None;
        },
        Some(Err(e)) => {
            return Some(Err(ApplicationError::Contract(e)));
        },
        Some(Ok(())) => {},
    }
    match required_language_of(relative) {
        Some(l) => {
            let declared = match value_at(document, Ptr::JobLanguage) {
                Some(v) => v.as_str(),
                None => None,
            };
            let matches = match declared {
                Some(d) => crate::text::same_text(d, l),
                None => false,
            };
            if !matches {
                return Some(
                    Err(
                        ApplicationError::Language {
                            relative: string_of(relative),
                            expected: string_of(l),
                        },
                    ),
                );
            }
            Some(Ok(()))
        },
        None => Some(Ok(())),
    }
}


proof fn lemma_paragraphs_one_by_one(
    paragraphs: Seq<JsonV>,
    declared: Seq<JsonV>,
    floor: JsonV,
    require_text: bool,
    n: int,
)
    requires
        0 <= n,
    ensures
        paragraphs_fault(paragraphs, declared, floor, require_text, n) is None <==> forall|k: int|
            0 <= k < n ==> (#[trigger] paragraph_fault(paragraphs[k], declared[k], floor, require_text, k))
                is None,
    decreases n,
{
    if n > 0 {
        lemma_paragraphs_one_by_one(paragraphs, declared, floor, require_text, n - 1);
    }
}

proof fn lemma_regions_one_by_one(regions: Seq<JsonV>, counts: Seq<int>, m: int)
    requires
        0 <= m,
    ensures
        regions_fault(regions, counts, m) is None <==> forall|k: int|
            0 <= k < m ==> (#[trigger] region_fault(regions[k], counts)) is None,
    decreases m,
{
    if m > 0 {
        lemma_regions_one_by_one(regions, counts, m - 1);
    }
}

/// The line budgets of a cover letter are kept one by one: the paragraphs
/// pass exactly when each paragraph keeps its declared bounds (with lines
/// that pass), and the regions pass exactly when each region's shared total
/// (the lines of its paragraphs `first..=last`) lies within its bounds.
pub proof fn line_budgets_are_kept_one_by_one(
    paragraphs: Seq<JsonV>,
    declared: Seq<JsonV>,
    floor: JsonV,
    require_text: bool,
    regions: Seq<JsonV>,
    counts: Seq<int>,
)
    requires
        forall|k: int| 0 <= k < counts.len() ==> #[trigger] counts[k] >= 0,
        forall|k: int| 0 <= k < counts.len() ==> #[trigger] counts[k] <= u64::MAX,
        counts.len() <= u64::MAX,
    ensures
        paragraphs_fault(paragraphs, declared, floor, require_text, paragraphs.len() as int) is None
            <==> forall|k: int|
            0 <= k < paragraphs.len() ==> (#[trigger] paragraph_fault(
                paragraphs[k],
                declared[k],
                floor,
                require_text,
                k,
            )) is None,
        forall|k: int|
            0 <= k < paragraphs.len() ==> match (
                array_at(paragraphs[k], Ptr::Lines),
                field(declared[k], "lines"@),
            ) {
                (Some(lines), Some(b)) => (u64_at(b, Ptr::Minimum) matches Some(lo) && u64_at(
                    b,
                    Ptr::Maximum,
                ) matches Some(hi) && paragraph_lines_fault(
                    lines,
                    floor,
                    require_text,
                    k,
                    lines.len() as int,
                ) is None) ==> ((#[trigger] paragraph_fault(
                    paragraphs[k],
                    declared[k],
                    floor,
                    require_text,
                    k,
                )) is None <==> u64_at(b, Ptr::Minimum)->0 <= lines.len() <= u64_at(
                    b,
                    Ptr::Maximum,
                )->0),
                _ => true,
            },
        regions_fault(regions, counts, regions.len() as int) is None <==> forall|k: int|
            0 <= k < regions.len() ==> (#[trigger] region_fault(regions[k], counts)) is None,
        forall|k: int|
            0 <= k < regions.len() ==> match region_numbers(regions[k]) {
                Some(nums) => (nums.len() > 0 && 1 <= nums[0] && nums[0] - 1 <= nums.last()
                    && nums.last() <= counts.len() && u64_at(regions[k], Ptr::Minimum) is Some
                    && u64_at(regions[k], Ptr::Maximum) is Some) ==> ((#[trigger] region_fault(
                    regions[k],
                    counts,
                )) is None <==> u64_at(regions[k], Ptr::Minimum)->0 <= sum_range(
                    counts,
                    nums[0] - 1,
                    nums.last() as int,
                ) <= u64_at(regions[k], Ptr::Maximum)->0),
                None => true,
            },
{
    lemma_paragraphs_one_by_one(paragraphs, declared, floor, require_text, paragraphs.len() as int);
    lemma_regions_one_by_one(regions, counts, regions.len() as int);
    assert forall|k: int| 0 <= k < regions.len() implies match region_numbers(regions[k]) {
        Some(nums) => (nums.len() > 0 && 1 <= nums[0] && nums[0] - 1 <= nums.last() && nums.last()
            <= counts.len() && u64_at(regions[k], Ptr::Minimum) is Some && u64_at(
            regions[k],
            Ptr::Maximum,
        ) is Some) ==> ((#[trigger] region_fault(regions[k], counts)) is None <==> u64_at(
            regions[k],
            Ptr::Minimum,
        )->0 <= sum_range(counts, nums[0] - 1, nums.last() as int) <= u64_at(
            regions[k],
            Ptr::Maximum,
        )->0),
        None => true,
    } by {
        match region_numbers(regions[k]) {
            Some(nums) => {
                if nums.len() > 0 && 1 <= nums[0] && nums[0] - 1 <= nums.last() && nums.last()
                    <= counts.len() {
                    let a = nums[0] - 1;
                    let b = nums.last() as int;
                    lemma_sum_bounds(counts, a, b);
                    assert(array_at(regions[k], Ptr::Paragraphs) is Some);
                }
            },
            None => {},
        }
    }
}

proof fn lemma_sum_bounds(c: Seq<int>, a: int, b: int)
    requires
        0 <= a <= b <= c.len(),
        c.len() <= u64::MAX,
        forall|k: int| 0 <= k < c.len() ==> #[trigger] c[k] >= 0,
        forall|k: int| 0 <= k < c.len() ==> #[trigger] c[k] <= u64::MAX,
    ensures
        0 <= sum_range(c, a, b) <= (b - a) * u64::MAX,
    decreases b - a,
{
    if b > a {
        lemma_sum_bounds(c, a, b - 1);
        assert((b - 1 - a) * u64::MAX + u64::MAX == (b - a) * u64::MAX) by (nonlinear_arith);
    }
}


/// The CV part of a record passes only with exactly five Summary lines:
/// whatever else the record holds, a Summary of any other length is
/// refused, with `SummaryCount` once the page count is valid.
pub proof fn summary_has_exactly_five_lines(manifest: Option<JsonV>, application: JsonV, require_text: bool)
    ensures
        cv_fault(application, require_text) is None ==> (array_at(application, Ptr::Summary) matches Some(
            summary,
        ) && summary.len() == 5),
        contracts_fault(manifest, application, require_text) is None ==> (array_at(
            application,
            Ptr::Summary,
        ) matches Some(summary) && summary.len() == 5),
        cv_fault(application, require_text) is None ==> (u64_at(application, Ptr::Pages) is Some && 2
            <= u64_at(application, Ptr::Pages)->0 <= 4),
        (u64_at(application, Ptr::Pages) is Some && 2 <= u64_at(application, Ptr::Pages)->0 <= 4
            && array_at(application, Ptr::Summary) is Some && array_at(application, Ptr::Summary)->0.len()
            != 5) ==> cv_fault(application, require_text) == Some(Fault::SummaryCount),
{
}

} // verus!
