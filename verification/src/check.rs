//! The full repository check: its steps, the workspace manifest
//! (`ccvl.json`) that it holds fixed, and the bundled fonts.
use vstd::prelude::*;

use crate::json::{
    as_entries, entries_view, field, json_eq, lemma_entries_view, lemma_items_view, items_view,
    pointer, Json, JsonV,
};
use crate::pdf::{pdf_model, verify_bytes, verify_outcome, PdfError, PdfFault, VerifiedPdf};
use crate::render::DocumentSpec;
use crate::text::{push_str, string_of};

verus! {

/// A step of the full check, in the order in which the check runs them.
#[derive(Clone, Copy, Debug, PartialEq, Eq, Structural)]
pub enum CheckStep {
    Manifest,
    Profiles,
    StationFiles,
    Applications,
    Skills,
    Repository,
    Format,
    Stations,
    Fonts,
    Measure,
    RenderAndVerify,
}

/// What the runner of the check reports.
pub enum CheckEvent {
    /// The check begins.
    Start,
    /// A step other than the measurement passed.
    Passed(CheckStep),
    /// The measurement ran and gave these failures.
    Measured(Vec<String>),
}

/// What the runner of the check does next.
#[derive(Debug)]
pub enum CheckAction {
    /// Perform this step.
    Perform(CheckStep),
    /// Stop: the check failed with this message.
    Fail(String),
    /// Stop: the check passed.
    Finish,
}

/// The position of a step in the check.
pub open spec fn step_index(s: CheckStep) -> nat {
    match s {
        CheckStep::Manifest => 0,
        CheckStep::Profiles => 1,
        CheckStep::StationFiles => 2,
        CheckStep::Applications => 3,
        CheckStep::Skills => 4,
        CheckStep::Repository => 5,
        CheckStep::Format => 6,
        CheckStep::Stations => 7,
        CheckStep::Fonts => 8,
        CheckStep::Measure => 9,
        CheckStep::RenderAndVerify => 10,
    }
}

/// The step after `s`; the last step has none.
pub open spec fn next_step(s: CheckStep) -> Option<CheckStep> {
    match s {
        CheckStep::Manifest => Some(CheckStep::Profiles),
        CheckStep::Profiles => Some(CheckStep::StationFiles),
        CheckStep::StationFiles => Some(CheckStep::Applications),
        CheckStep::Applications => Some(CheckStep::Skills),
        CheckStep::Skills => Some(CheckStep::Repository),
        CheckStep::Repository => Some(CheckStep::Format),
        CheckStep::Format => Some(CheckStep::Stations),
        CheckStep::Stations => Some(CheckStep::Fonts),
        CheckStep::Fonts => Some(CheckStep::Measure),
        CheckStep::Measure => Some(CheckStep::RenderAndVerify),
        CheckStep::RenderAndVerify => None,
    }
}

/// The failures of a measurement, joined by `; `.
pub open spec fn joined_failures(failures: Seq<Seq<char>>) -> Seq<char>
    decreases failures.len(),
{
    if failures.len() == 0 {
        Seq::empty()
    } else if failures.len() == 1 {
        failures[0]
    } else {
        joined_failures(failures.drop_last()) + "; "@ + failures.last()
    }
}

/// The views of a list of strings.
pub open spec fn texts(v: Seq<String>) -> Seq<Seq<char>> {
    Seq::new(v.len(), |i: int| v[i]@)
}

/// The decisions of the full check: it starts with the manifest, runs each
/// step after the one that passed, fails when the measurement reports
/// failures, and finishes after rendering and verifying the documents.
pub fn run(event: CheckEvent) -> (r: CheckAction)
    ensures
        event is Start ==> r == CheckAction::Perform(CheckStep::Manifest),
        event matches CheckEvent::Passed(s) ==> match next_step(s) {
            Some(n) => r == CheckAction::Perform(n),
            None => r is Finish,
        },
        performs(event) matches Some(s) ==> r == CheckAction::Perform(s),
        r is Finish <==> event == CheckEvent::Passed(CheckStep::RenderAndVerify),
        event matches CheckEvent::Measured(failures) ==> if failures@.len() == 0 {
            r == CheckAction::Perform(CheckStep::RenderAndVerify)
        } else {
            r matches CheckAction::Fail(m) && m@ == "line measurement failed: "@ + joined_failures(
                texts(failures@),
            )
        },
{
    match event {
        CheckEvent::Start => CheckAction::Perform(CheckStep::Manifest),
        CheckEvent::Passed(s) => match s {
            CheckStep::Manifest => CheckAction::Perform(CheckStep::Profiles),
            CheckStep::Profiles => CheckAction::Perform(CheckStep::StationFiles),
            CheckStep::StationFiles => CheckAction::Perform(CheckStep::Applications),
            CheckStep::Applications => CheckAction::Perform(CheckStep::Skills),
            CheckStep::Skills => CheckAction::Perform(CheckStep::Repository),
            CheckStep::Repository => CheckAction::Perform(CheckStep::Format),
            CheckStep::Format => CheckAction::Perform(CheckStep::Stations),
            CheckStep::Stations => CheckAction::Perform(CheckStep::Fonts),
            CheckStep::Fonts => CheckAction::Perform(CheckStep::Measure),
            CheckStep::Measure => CheckAction::Perform(CheckStep::RenderAndVerify),
            CheckStep::RenderAndVerify => CheckAction::Finish,
        },
        CheckEvent::Measured(failures) => {
            if failures.len() == 0 {
                return CheckAction::Perform(CheckStep::RenderAndVerify);
            }
            let mut message = string_of("line measurement failed: ");
            let ghost start = message@;
            let mut i: usize = 0;
            while i < failures.len()
                invariant
                    i <= failures@.len(),
                    message@ == start + joined_failures(texts(failures@).subrange(0, i as int)),
                decreases failures@.len() - i,
            {
                proof {
                    assert(texts(failures@).subrange(0, i + 1).drop_last() =~= texts(
                        failures@,
                    ).subrange(0, i as int));
                    if i == 0 {
                        assert(texts(failures@).subrange(0, 0) =~= Seq::<Seq<char>>::empty());
                    }
                }
                if i > 0 {
                    push_str(&mut message, "; ");
                }
                push_str(&mut message, failures[i].as_str());
                i = i + 1;
                assert(message@ =~= start + joined_failures(texts(failures@).subrange(0, i as int)));
            }
            assert(texts(failures@).subrange(0, failures@.len() as int) =~= texts(failures@));
            CheckAction::Fail(message)
        },
    }
}

/// The check runs its steps in a fixed order: each action after a passed
/// step performs a later step, so no step runs twice, and the check
/// finishes only after rendering and verifying the documents.
pub proof fn check_steps_advance(s: CheckStep)
    ensures
        next_step(s) matches Some(n) ==> step_index(n) == step_index(s) + 1,
        next_step(s) is None <==> s == CheckStep::RenderAndVerify,
{
}

/// The steps of the full check, in order.
pub open spec fn all_steps() -> Seq<CheckStep> {
    seq![
        CheckStep::Manifest,
        CheckStep::Profiles,
        CheckStep::StationFiles,
        CheckStep::Applications,
        CheckStep::Skills,
        CheckStep::Repository,
        CheckStep::Format,
        CheckStep::Stations,
        CheckStep::Fonts,
        CheckStep::Measure,
        CheckStep::RenderAndVerify,
    ]
}

proof fn lemma_step_positions(steps: Seq<CheckStep>, i: int)
    requires
        0 <= i < steps.len(),
        steps[0] == CheckStep::Manifest,
        forall|t: int| 0 <= t < steps.len() - 1 ==> next_step(#[trigger] steps[t]) == Some(steps[t + 1]),
    ensures
        step_index(steps[i]) == i,
        steps[i] == all_steps()[i],
    decreases i,
{
    if i > 0 {
        lemma_step_positions(steps, i - 1);
        let p = steps[i - 1];
        assert(next_step(p) == Some(steps[i]));
    }
}

/// A whole run of the check: started, then answered after each action by
/// the step that passed (or by a measurement without failures, which moves
/// on to the step after it), a run that finishes has performed every step
/// exactly once and in order, from the manifest to rendering and verifying
/// the documents.
pub proof fn finished_check_ran_every_step(steps: Seq<CheckStep>)
    requires
        steps.len() > 0,
        steps[0] == CheckStep::Manifest,
        forall|t: int| 0 <= t < steps.len() - 1 ==> next_step(#[trigger] steps[t]) == Some(steps[t + 1]),
        next_step(steps.last()) is None,
    ensures
        steps == all_steps(),
{
    lemma_step_positions(steps, steps.len() - 1);
    assert(steps.last() == CheckStep::RenderAndVerify);
    assert(steps.len() == 11);
    assert forall|i: int| 0 <= i < steps.len() implies steps[i] == all_steps()[i] by {
        lemma_step_positions(steps, i);
    }
    assert(steps =~= all_steps());
}

/// The step that the check performs after an event, if it performs one.
pub open spec fn performs(e: CheckEvent) -> Option<CheckStep> {
    match e {
        CheckEvent::Start => Some(CheckStep::Manifest),
        CheckEvent::Passed(s) => next_step(s),
        CheckEvent::Measured(f) => if f@.len() == 0 {
            Some(CheckStep::RenderAndVerify)
        } else {
            None
        },
    }
}

/// The event reports on `step`: the step passed, or, for the measurement,
/// the measurement ran.
pub open spec fn answers(e: CheckEvent, step: CheckStep) -> bool {
    if step == CheckStep::Measure {
        e is Measured
    } else {
        e == CheckEvent::Passed(step)
    }
}

/// The events of a run of the check, each answering the step that the
/// check performed after the one before.
pub open spec fn answered_run(events: Seq<CheckEvent>) -> bool {
    &&& events.len() > 0
    &&& events[0] is Start
    &&& forall|i: int|
        0 <= i < events.len() - 1 ==> (#[trigger] performs(events[i])) is Some && answers(
            events[i + 1],
            performs(events[i])->0,
        )
}

proof fn lemma_run_prefix(events: Seq<CheckEvent>, i: int)
    requires
        answered_run(events),
        0 < i < events.len(),
    ensures
        i <= 11,
        answers(events[i], all_steps()[i - 1]),
    decreases i,
{
    let p = performs(events[i - 1]);
    assert(p is Some && answers(events[i], p->0));
    if i > 1 {
        lemma_run_prefix(events, i - 1);
        let t = all_steps()[i - 2];
        if t == CheckStep::Measure {
            assert(i - 2 == 9);
        } else {
            assert(events[i - 1] == CheckEvent::Passed(t));
        }
    }
}

/// A run of the check that finishes (its last event is that rendering and
/// verifying the documents passed) has passed every step once and in order,
/// from the manifest on, and its line measurement reported no failure: the
/// check ends well only after all of its steps.
pub proof fn finished_check_passed_every_step(events: Seq<CheckEvent>)
    requires
        answered_run(events),
        events.last() == CheckEvent::Passed(CheckStep::RenderAndVerify),
    ensures
        events.len() == 12,
        forall|i: int| 0 <= i < 11 ==> answers(#[trigger] events[i + 1], all_steps()[i]),
        events[10] matches CheckEvent::Measured(f) && f@.len() == 0,
{
    let n = events.len() as int;
    assert(n > 1) by {
        if n == 1 {
            assert(events[0] is Start);
        }
    }
    lemma_run_prefix(events, n - 1);
    let t = all_steps()[n - 2];
    if t == CheckStep::Measure {
        assert(events[n - 1] is Measured);
    }
    assert(t == CheckStep::RenderAndVerify);
    assert(n == 12);
    assert forall|i: int| 0 <= i < 11 implies answers(#[trigger] events[i + 1], all_steps()[i]) by {
        lemma_run_prefix(events, i + 1);
    }
    lemma_run_prefix(events, 10);
    assert(performs(events[10]) is Some);
}

/// The four font files under `cvl/shared/fonts/` whose bytes are checked.
pub fn font_files() -> (r: Vec<&'static str>)
    ensures
        r@.len() == 4,
        r@[0]@ == "Archivo-Bold.ttf"@,
        r@[1]@ == "Archivo-Italic.ttf"@,
        r@[2]@ == "Archivo-Medium.ttf"@,
        r@[3]@ == "Archivo-Regular.ttf"@,
{
    vec!["Archivo-Bold.ttf", "Archivo-Italic.ttf", "Archivo-Medium.ttf", "Archivo-Regular.ttf"]
}

/// The number of fonts that the documents embed.
pub const EMBEDDED_FONTS: usize = 16;

/// The bytes start with a font signature: TrueType (`00 01 00 00` or
/// `true`), OpenType (`OTTO`) or PostScript Type 1 (`typ1`).
pub open spec fn is_font(bytes: Seq<u8>) -> bool {
    bytes.len() >= 4 && {
        let a = bytes[0];
        let b = bytes[1];
        let c = bytes[2];
        let d = bytes[3];
        ||| (a == 0x00u8 && b == 0x01u8 && c == 0x00u8 && d == 0x00u8)
        ||| (a == 0x4fu8 && b == 0x54u8 && c == 0x54u8 && d == 0x4fu8)
        ||| (a == 0x74u8 && b == 0x72u8 && c == 0x75u8 && d == 0x65u8)
        ||| (a == 0x74u8 && b == 0x79u8 && c == 0x70u8 && d == 0x31u8)
    }
}

/// Whether the bytes of a font file start with a font signature.
pub fn valid_font(bytes: &Vec<u8>) -> (r: bool)
    ensures
        r == is_font(bytes@),
{
    if bytes.len() < 4 {
        return false;
    }
    let a = bytes[0];
    let b = bytes[1];
    let c = bytes[2];
    let d = bytes[3];
    (a == 0x00u8 && b == 0x01u8 && c == 0x00u8 && d == 0x00u8) || (a == 0x4fu8 && b == 0x54u8 && c
        == 0x54u8 && d == 0x4fu8) || (a == 0x74u8 && b == 0x72u8 && c == 0x75u8 && d == 0x65u8) || (
    a == 0x74u8 && b == 0x79u8 && c == 0x70u8 && d == 0x31u8)
}

/// Why the bundled fonts are refused.
#[derive(Debug)]
pub enum FontError {
    /// The documents do not embed all sixteen declared fonts.
    EmbeddedCount(usize),
    /// The named bundled font is missing or not a font.
    Invalid(String),
}

/// Checks the fonts: sixteen embedded fonts, and each bundled font file
/// (name and bytes, in the order of `font_files`) starting with a font
/// signature; the first failure is reported.
pub fn validate_embedded_fonts(embedded: usize, files: &Vec<(String, Vec<u8>)>) -> (r: Result<
    (),
    FontError,
>)
    ensures
        embedded != EMBEDDED_FONTS ==> (r matches Err(FontError::EmbeddedCount(n)) && n == embedded),
        r is Ok <==> embedded == EMBEDDED_FONTS && forall|i: int|
            0 <= i < files@.len() ==> is_font(#[trigger] files@[i].1@),
        r matches Err(FontError::Invalid(name)) ==> exists|i: int|
            0 <= i < files@.len() && !is_font(#[trigger] files@[i].1@) && files@[i].0@ == name@ && (
            forall|j: int| 0 <= j < i ==> is_font(#[trigger] files@[j].1@)),
{
    if embedded != EMBEDDED_FONTS {
        return Err(FontError::EmbeddedCount(embedded));
    }
    let mut i: usize = 0;
    while i < files.len()
        invariant
            i <= files@.len(),
            embedded == EMBEDDED_FONTS,
            forall|j: int| 0 <= j < i ==> is_font(#[trigger] files@[j].1@),
        decreases files@.len() - i,
    {
        if !valid_font(&files[i].1) {
            return Err(FontError::Invalid(string_of(files[i].0.as_str())));
        }
        i = i + 1;
    }
    Ok(())
}


/// A JSON object with these keys and values, in this order.
pub open spec fn object_of(keys: Seq<Seq<char>>, values: Seq<JsonV>) -> JsonV {
    JsonV::Object(Seq::new(keys.len(), |i: int| (keys[i], values[i])))
}

/// A JSON string.
pub open spec fn text_v(s: Seq<char>) -> JsonV {
    JsonV::Str(s)
}

/// The workspace groups that the manifest must declare.
pub open spec fn expected_groups() -> JsonV {
    object_of(
        seq!["cvl"@, "opportunities"@, "targets"@],
        seq![
            object_of(
                seq!["de-CH"@, "en-CH"@, "general"@, "profile"@, "root"@, "stations"@],
                seq![
                    text_v("cvl/general/de-ch/application.json"@),
                    text_v("cvl/general/en-ch/application.json"@),
                    text_v("cvl/general"@),
                    text_v("cvl/general/profile.json"@),
                    text_v("cvl"@),
                    text_v("cvl/general/stations.json"@),
                ],
            ),
            object_of(
                seq!["output"@, "path"@, "record"@, "root"@],
                seq![
                    text_v("output"@),
                    text_v("opportunities/<organisation-key>/<position-key>"@),
                    text_v("application.json"@),
                    text_v("opportunities"@),
                ],
            ),
            object_of(seq!["root"@], seq![text_v("targets"@)]),
        ],
    )
}

/// The files that the manifest references and that must exist.
pub open spec fn referenced_files() -> Seq<Seq<char>> {
    seq![
        "schemas/application.schema.json"@,
        "schemas/profile.schema.json"@,
        "schemas/stations.schema.json"@,
        "cvl/general/profile.json"@,
        "cvl/general/stations.json"@,
        "cvl/general/de-ch/application.json"@,
        "cvl/general/en-ch/application.json"@,
        "cvl/README.md"@,
        "targets/README.md"@,
        "opportunities/README.md"@,
        "cvl/cv/de-ch/main.typ"@,
        "cvl/cv/en-ch/main.typ"@,
        "cvl/cl/de-ch/main.typ"@,
        "cvl/cl/en-ch/main.typ"@,
    ]
}

/// The files that the manifest references, in the order they are checked.
pub fn manifest_files() -> (r: Vec<&'static str>)
    ensures
        r@.len() == referenced_files().len(),
        forall|i: int| 0 <= i < r@.len() ==> #[trigger] r@[i]@ == referenced_files()[i],
{
    let r = vec![
        "schemas/application.schema.json",
        "schemas/profile.schema.json",
        "schemas/stations.schema.json",
        "cvl/general/profile.json",
        "cvl/general/stations.json",
        "cvl/general/de-ch/application.json",
        "cvl/general/en-ch/application.json",
        "cvl/README.md",
        "targets/README.md",
        "opportunities/README.md",
        "cvl/cv/de-ch/main.typ",
        "cvl/cv/en-ch/main.typ",
        "cvl/cl/de-ch/main.typ",
        "cvl/cl/en-ch/main.typ",
    ];
    assert(r@.len() == 14);
    r
}

/// Why the manifest is refused.
#[derive(Debug)]
pub enum ManifestError {
    /// Unsupported workspace format or schema version.
    Format,
    /// The workspace groups are not cvl, targets and keyed opportunities.
    Groups,
    /// A referenced file is missing.
    MissingFile(String),
    /// The CV presets are not `[2, 3, 4]`.
    Presets,
    /// The CV Summary is not fixed at five lines.
    SummaryLines,
    /// There is no CV layout contract.
    NoLayout,
    /// The page 1 contract changed.
    Page1,
    /// The page 2 contract changed.
    Page2,
    /// The page 3 contract changed.
    Page3,
    /// The page 4 contract changed.
    Page4,
    /// The evidence or MECE guarantees were weakened.
    Guarantees,
    /// There is no cover-letter contract.
    NoCover,
    /// The cover-letter body contract changed.
    BodyLines,
    /// The cover letter does not need exactly five highlights.
    Highlights,
    /// The widow/orphan rule changed.
    WidowOrphan,
}

/// The mathematical form of a manifest error.
pub enum ManifestFault {
    Format,
    Groups,
    MissingFile(Seq<char>),
    Presets,
    SummaryLines,
    NoLayout,
    Page1,
    Page2,
    Page3,
    Page4,
    Guarantees,
    NoCover,
    BodyLines,
    Highlights,
    WidowOrphan,
}

impl View for ManifestError {
    type V = ManifestFault;

    open spec fn view(&self) -> ManifestFault {
        match self {
            ManifestError::Format => ManifestFault::Format,
            ManifestError::Groups => ManifestFault::Groups,
            ManifestError::MissingFile(f) => ManifestFault::MissingFile(f@),
            ManifestError::Presets => ManifestFault::Presets,
            ManifestError::SummaryLines => ManifestFault::SummaryLines,
            ManifestError::NoLayout => ManifestFault::NoLayout,
            ManifestError::Page1 => ManifestFault::Page1,
            ManifestError::Page2 => ManifestFault::Page2,
            ManifestError::Page3 => ManifestFault::Page3,
            ManifestError::Page4 => ManifestFault::Page4,
            ManifestError::Guarantees => ManifestFault::Guarantees,
            ManifestError::NoCover => ManifestFault::NoCover,
            ManifestError::BodyLines => ManifestFault::BodyLines,
            ManifestError::Highlights => ManifestFault::Highlights,
            ManifestError::WidowOrphan => ManifestFault::WidowOrphan,
        }
    }
}

/// The first of the first `k` referenced files that is not present.
pub open spec fn first_missing(files: Seq<Seq<char>>, present: Seq<Seq<char>>, k: int) -> Option<Seq<char>>
    decreases k,
{
    if k <= 0 {
        None
    } else {
        match first_missing(files, present, k - 1) {
            Some(f) => Some(f),
            None => if present.contains(files[k - 1]) {
                None
            } else {
                Some(files[k - 1])
            },
        }
    }
}

/// A bound contract `{maximum, minimum, target}`.
pub open spec fn bounds_v(minimum: u64, target: u64, maximum: u64) -> JsonV {
    object_of(
        seq!["maximum"@, "minimum"@, "target"@],
        seq![JsonV::UInt(maximum), JsonV::UInt(minimum), JsonV::UInt(target)],
    )
}

/// A page contract of the given entries and bullets per entry.
pub open spec fn page_v(entries: u64, bullets: u64) -> JsonV {
    object_of(seq!["bullets_per_entry"@, "entries"@], seq![JsonV::UInt(bullets), JsonV::UInt(entries)])
}

/// Why the manifest `m` is refused, given the referenced files that are
/// present (`None`: it holds the fixed contract).
pub open spec fn manifest_fault(m: JsonV, present: Seq<Seq<char>>) -> Option<ManifestFault> {
    if !(field(m, "format"@) == Some(text_v("ccvl-workspace"@)) && field(m, "schema_version"@) == Some(
        JsonV::UInt(4),
    )) {
        Some(ManifestFault::Format)
    } else if field(m, "workspace_groups"@) != Some(expected_groups()) {
        Some(ManifestFault::Groups)
    } else if first_missing(referenced_files(), present, 14) is Some {
        Some(ManifestFault::MissingFile(first_missing(referenced_files(), present, 14)->0))
    } else if pointer(m, "/documents/cv/presets"@) != Some(
        JsonV::Array(seq![JsonV::UInt(2), JsonV::UInt(3), JsonV::UInt(4)]),
    ) {
        Some(ManifestFault::Presets)
    } else if pointer(m, "/documents/cv/summary_lines"@) != Some(JsonV::UInt(5)) {
        Some(ManifestFault::SummaryLines)
    } else {
        match pointer(m, "/documents/cv/layout_contract"@) {
            None => Some(ManifestFault::NoLayout),
            Some(layout) => if pointer(layout, "/page_1/entries"@) != Some(bounds_v(6, 7, 8)) {
                Some(ManifestFault::Page1)
            } else if pointer(layout, "/page_2"@) != Some(page_v(10, 2)) {
                Some(ManifestFault::Page2)
            } else if pointer(layout, "/page_3"@) != Some(page_v(10, 2)) {
                Some(ManifestFault::Page3)
            } else if pointer(layout, "/page_4"@) != Some(
                object_of(
                    seq!["bullets_per_entry"@, "entries_per_group"@, "groups"@],
                    seq![JsonV::UInt(3), JsonV::UInt(3), JsonV::UInt(3)],
                ),
            ) {
                Some(ManifestFault::Page4)
            } else if !(field(layout, "verified_only"@) == Some(JsonV::Bool(true)) && field(
                layout,
                "unique_fact_assignment"@,
            ) == Some(JsonV::Bool(true))) {
                Some(ManifestFault::Guarantees)
            } else {
                match pointer(m, "/documents/cover_letter"@) {
                    None => Some(ManifestFault::NoCover),
                    Some(cover) => if pointer(cover, "/body_lines"@) != Some(bounds_v(25, 28, 28)) {
                        Some(ManifestFault::BodyLines)
                    } else if pointer(cover, "/highlights/count"@) != Some(JsonV::UInt(5)) {
                        Some(ManifestFault::Highlights)
                    } else if pointer(cover, "/widow_or_orphan_lines"@) != Some(JsonV::UInt(0)) {
                        Some(ManifestFault::WidowOrphan)
                    } else {
                        None
                    },
                }
            },
        }
    }
}

/// A JSON string.
fn text_json(s: &str) -> (r: Json)
    ensures
        r@ == text_v(s@),
{
    Json::Str(string_of(s))
}

/// A JSON object with these keys and values.
fn object_json(keys: &Vec<&str>, values: Vec<Json>) -> (r: Json)
    requires
        keys@.len() == values@.len(),
    ensures
        r@ == object_of(
            Seq::new(keys@.len(), |i: int| keys@[i]@),
            Seq::new(values@.len(), |i: int| values@[i]@),
        ),
{
    let ghost vs = values@;
    let mut rest = values;
    let mut entries: Vec<(String, Json)> = Vec::new();
    let mut i: usize = 0;
    while i < keys.len()
        invariant
            i <= keys@.len(),
            keys@.len() == vs.len(),
            rest@ == vs.subrange(i as int, vs.len() as int),
            entries@.len() == i,
            forall|t: int| 0 <= t < i ==> (#[trigger] entries@[t]).0@ == keys@[t]@ && entries@[t].1@ == vs[t]@,
        decreases keys@.len() - i,
    {
        let v = rest.remove(0);
        entries.push((string_of(keys[i]), v));
        i = i + 1;
    }
    proof {
        lemma_entries_view(entries@);
    }
    let ghost ks = Seq::new(keys@.len(), |t: int| keys@[t]@);
    let ghost wv = Seq::new(vs.len(), |t: int| vs[t]@);
    let r = Json::Object(entries);
    assert(r@ == JsonV::Object(entries_view(entries@)));
    assert(entries_view(entries@) =~= Seq::new(ks.len(), |t: int| (ks[t], wv[t])));
    r
}

/// The workspace groups that the manifest must declare.
fn groups_json() -> (r: Json)
    ensures
        r@ == expected_groups(),
{
    let k1 = vec!["de-CH", "en-CH", "general", "profile", "root", "stations"];
    let v1 = vec![
        text_json("cvl/general/de-ch/application.json"),
        text_json("cvl/general/en-ch/application.json"),
        text_json("cvl/general"),
        text_json("cvl/general/profile.json"),
        text_json("cvl"),
        text_json("cvl/general/stations.json"),
    ];
    assert(Seq::new(k1@.len(), |i: int| k1@[i]@) =~= seq![
        "de-CH"@,
        "en-CH"@,
        "general"@,
        "profile"@,
        "root"@,
        "stations"@,
    ]);
    assert(Seq::new(v1@.len(), |i: int| v1@[i]@) =~= seq![
        text_v("cvl/general/de-ch/application.json"@),
        text_v("cvl/general/en-ch/application.json"@),
        text_v("cvl/general"@),
        text_v("cvl/general/profile.json"@),
        text_v("cvl"@),
        text_v("cvl/general/stations.json"@),
    ]);
    let cvl = object_json(&k1, v1);
    let k2 = vec!["output", "path", "record", "root"];
    let v2 = vec![
        text_json("output"),
        text_json("opportunities/<organisation-key>/<position-key>"),
        text_json("application.json"),
        text_json("opportunities"),
    ];
    assert(Seq::new(k2@.len(), |i: int| k2@[i]@) =~= seq!["output"@, "path"@, "record"@, "root"@]);
    assert(Seq::new(v2@.len(), |i: int| v2@[i]@) =~= seq![
        text_v("output"@),
        text_v("opportunities/<organisation-key>/<position-key>"@),
        text_v("application.json"@),
        text_v("opportunities"@),
    ]);
    let opportunities = object_json(&k2, v2);
    let k3 = vec!["root"];
    let v3 = vec![text_json("targets")];
    assert(Seq::new(k3@.len(), |i: int| k3@[i]@) =~= seq!["root"@]);
    assert(Seq::new(v3@.len(), |i: int| v3@[i]@) =~= seq![text_v("targets"@)]);
    let targets = object_json(&k3, v3);
    let k0 = vec!["cvl", "opportunities", "targets"];
    let v0 = vec![cvl, opportunities, targets];
    assert(Seq::new(k0@.len(), |i: int| k0@[i]@) =~= seq!["cvl"@, "opportunities"@, "targets"@]);
    assert(Seq::new(v0@.len(), |i: int| v0@[i]@) =~= seq![
        expected_groups()->Object_0[0].1,
        expected_groups()->Object_0[1].1,
        expected_groups()->Object_0[2].1,
    ]);
    object_json(&k0, v0)
}


/// `{maximum, minimum, target}`.
fn bounds_json(minimum: u64, target: u64, maximum: u64) -> (r: Json)
    ensures
        r@ == bounds_v(minimum, target, maximum),
{
    let k = vec!["maximum", "minimum", "target"];
    let v = vec![Json::UInt(maximum), Json::UInt(minimum), Json::UInt(target)];
    assert(Seq::new(k@.len(), |i: int| k@[i]@) =~= seq!["maximum"@, "minimum"@, "target"@]);
    assert(Seq::new(v@.len(), |i: int| v@[i]@) =~= seq![
        JsonV::UInt(maximum),
        JsonV::UInt(minimum),
        JsonV::UInt(target),
    ]);
    object_json(&k, v)
}

/// `{bullets_per_entry, entries}`.
fn page_json(entries: u64, bullets: u64) -> (r: Json)
    ensures
        r@ == page_v(entries, bullets),
{
    let k = vec!["bullets_per_entry", "entries"];
    let v = vec![Json::UInt(bullets), Json::UInt(entries)];
    assert(Seq::new(k@.len(), |i: int| k@[i]@) =~= seq!["bullets_per_entry"@, "entries"@]);
    assert(Seq::new(v@.len(), |i: int| v@[i]@) =~= seq![JsonV::UInt(bullets), JsonV::UInt(entries)]);
    object_json(&k, v)
}

/// Whether the value at a pointer equals `expected`.
fn pointer_is(m: &Json, p: &str, expected: &Json) -> (r: bool)
    ensures
        r == (pointer(m@, p@) == Some(expected@)),
{
    match m.pointer(p) {
        Some(v) => json_eq(v, expected),
        None => false,
    }
}

/// Whether field `key` equals `expected`.
fn field_is(m: &Json, key: &str, expected: &Json) -> (r: bool)
    ensures
        r == (field(m@, key@) == Some(expected@)),
{
    match m.get(key) {
        Some(v) => json_eq(v, expected),
        None => false,
    }
}

/// Whether `name` is among `present`.
fn is_present(present: &Vec<String>, name: &str) -> (r: bool)
    ensures
        r == texts(present@).contains(name@),
{
    let mut i: usize = 0;
    while i < present.len()
        invariant
            i <= present@.len(),
            forall|t: int| 0 <= t < i ==> present@[t]@ != name@,
        decreases present@.len() - i,
    {
        if crate::text::same_text(present[i].as_str(), name) {
            assert(texts(present@)[i as int] == name@);
            return true;
        }
        i = i + 1;
    }
    false
}

/// `validate_manifest`: the workspace manifest `ccvl.json` holds the fixed
/// workspace contract, and the files it references are present (`present`
/// lists those of `manifest_files` that exist).
#[verifier::loop_isolation(false)]
pub fn validate_manifest(manifest: &Json, present: &Vec<String>) -> (r: Result<(), ManifestError>)
    ensures
        match manifest_fault(manifest@, texts(present@)) {
            None => r is Ok,
            Some(f) => (r matches Err(e) && e@ == f),
        },
{
    let format_ok = field_is(manifest, "format", &text_json("ccvl-workspace")) && field_is(
        manifest,
        "schema_version",
        &Json::UInt(4),
    );
    if !format_ok {
        return Err(ManifestError::Format);
    }
    if !field_is(manifest, "workspace_groups", &groups_json()) {
        return Err(ManifestError::Groups);
    }
    let files = manifest_files();
    let mut i: usize = 0;
    while i < files.len()
        invariant
            i <= files@.len(),
            files@.len() == referenced_files().len(),
            forall|t: int| 0 <= t < files@.len() ==> #[trigger] files@[t]@ == referenced_files()[t],
            first_missing(referenced_files(), texts(present@), i as int) is None,
        decreases files@.len() - i,
    {
        if !is_present(present, files[i]) {
            proof {
                lemma_missing_settled(referenced_files(), texts(present@), i + 1, 14);
            }
            return Err(ManifestError::MissingFile(string_of(files[i])));
        }
        i = i + 1;
    }
    let items = vec![Json::UInt(2), Json::UInt(3), Json::UInt(4)];
    proof {
        lemma_items_view(items@);
        assert(items_view(items@) =~= seq![JsonV::UInt(2), JsonV::UInt(3), JsonV::UInt(4)]);
    }
    let presets = Json::Array(items);
    assert(presets@ == JsonV::Array(seq![JsonV::UInt(2), JsonV::UInt(3), JsonV::UInt(4)]));
    if !pointer_is(manifest, "/documents/cv/presets", &presets) {
        return Err(ManifestError::Presets);
    }
    if !pointer_is(manifest, "/documents/cv/summary_lines", &Json::UInt(5)) {
        return Err(ManifestError::SummaryLines);
    }
    let layout = match manifest.pointer("/documents/cv/layout_contract") {
        Some(l) => l,
        None => {
            return Err(ManifestError::NoLayout);
        },
    };
    if !pointer_is(layout, "/page_1/entries", &bounds_json(6, 7, 8)) {
        return Err(ManifestError::Page1);
    }
    if !pointer_is(layout, "/page_2", &page_json(10, 2)) {
        return Err(ManifestError::Page2);
    }
    if !pointer_is(layout, "/page_3", &page_json(10, 2)) {
        return Err(ManifestError::Page3);
    }
    let k4 = vec!["bullets_per_entry", "entries_per_group", "groups"];
    let v4 = vec![Json::UInt(3), Json::UInt(3), Json::UInt(3)];
    assert(Seq::new(k4@.len(), |i: int| k4@[i]@) =~= seq![
        "bullets_per_entry"@,
        "entries_per_group"@,
        "groups"@,
    ]);
    assert(Seq::new(v4@.len(), |i: int| v4@[i]@) =~= seq![
        JsonV::UInt(3),
        JsonV::UInt(3),
        JsonV::UInt(3),
    ]);
    let page_4 = object_json(&k4, v4);
    if !pointer_is(layout, "/page_4", &page_4) {
        return Err(ManifestError::Page4);
    }
    if !(field_is(layout, "verified_only", &Json::Bool(true)) && field_is(
        layout,
        "unique_fact_assignment",
        &Json::Bool(true),
    )) {
        return Err(ManifestError::Guarantees);
    }
    let cover = match manifest.pointer("/documents/cover_letter") {
        Some(c) => c,
        None => {
            return Err(ManifestError::NoCover);
        },
    };
    if !pointer_is(cover, "/body_lines", &bounds_json(25, 28, 28)) {
        return Err(ManifestError::BodyLines);
    }
    if !pointer_is(cover, "/highlights/count", &Json::UInt(5)) {
        return Err(ManifestError::Highlights);
    }
    if !pointer_is(cover, "/widow_or_orphan_lines", &Json::UInt(0)) {
        return Err(ManifestError::WidowOrphan);
    }
    Ok(())
}

proof fn lemma_missing_settled(files: Seq<Seq<char>>, present: Seq<Seq<char>>, k: int, n: int)
    requires
        0 <= k <= n,
        first_missing(files, present, k) is Some,
    ensures
        first_missing(files, present, n) == first_missing(files, present, k),
    decreases n - k,
{
    if n > k {
        lemma_missing_settled(files, present, k, n - 1);
    }
}

// ---------------------------------------------------------------------------
// Rendering and verifying the documents
// ---------------------------------------------------------------------------

/// The text under `key` in the profile, if it is a string.
pub open spec fn text_field(profile: JsonV, key: Seq<char>) -> Option<Seq<char>> {
    match field(profile, key) {
        Some(v) => crate::json::as_text(v),
        None => None,
    }
}

/// The contact texts of the profile, in field order, skipping fields that
/// are missing or not strings.
pub open spec fn present_contacts(profile: JsonV) -> Seq<Seq<char>> {
    let f = |k: Seq<char>| match text_field(profile, k) {
        Some(t) => seq![t],
        None => Seq::empty(),
    };
    f("name"@) + f("email"@) + f("phone_label"@)
}

/// The first contact field that the profile lacks as a string.
pub open spec fn first_missing_contact(profile: JsonV) -> Option<Seq<char>> {
    if text_field(profile, "name"@) is None {
        Some("name"@)
    } else if text_field(profile, "email"@) is None {
        Some("email"@)
    } else if text_field(profile, "phone_label"@) is None {
        Some("phone_label"@)
    } else {
        None
    }
}

/// The text under `key` in the profile, if it is a string.
fn text_at<'a>(profile: &'a Json, key: &str) -> (r: Option<&'a str>)
    ensures
        match text_field(profile@, key@) {
            Some(t) => r matches Some(x) && x@ == t,
            None => r is None,
        },
{
    match profile.get(key) {
        Some(v) => v.as_str(),
        None => None,
    }
}

/// The contact texts that the full check requires of the profile: all
/// three, or the first field that is missing.
pub fn profile_contacts(profile: &Json) -> (r: Result<Vec<String>, String>)
    ensures
        match first_missing_contact(profile@) {
            Some(k) => r matches Err(m) && m@ == k,
            None => r matches Ok(v) && texts(v@) == present_contacts(profile@)
                && v@.len() == 3,
        },
{
    let mut out: Vec<String> = Vec::new();
    match text_at(profile, "name") {
        Some(t) => out.push(string_of(t)),
        None => return Err(string_of("name")),
    }
    match text_at(profile, "email") {
        Some(t) => out.push(string_of(t)),
        None => return Err(string_of("email")),
    }
    match text_at(profile, "phone_label") {
        Some(t) => out.push(string_of(t)),
        None => return Err(string_of("phone_label")),
    }
    assert(texts(out@) =~= present_contacts(profile@));
    Ok(out)
}

/// The contact texts that a single rendered document is checked for: those
/// that the profile has, in field order.
pub fn available_contacts(profile: &Json) -> (r: Vec<String>)
    ensures
        texts(r@) == present_contacts(profile@),
{
    let mut out: Vec<String> = Vec::new();
    let ghost p = profile@;
    match text_at(profile, "name") {
        Some(t) => out.push(string_of(t)),
        None => {},
    }
    let ghost first = texts(out@);
    assert(first =~= match text_field(p, "name"@) {
        Some(t) => seq![t],
        None => Seq::<Seq<char>>::empty(),
    });
    match text_at(profile, "email") {
        Some(t) => out.push(string_of(t)),
        None => {},
    }
    let ghost second = texts(out@);
    assert(second =~= first + match text_field(p, "email"@) {
        Some(t) => seq![t],
        None => Seq::<Seq<char>>::empty(),
    });
    match text_at(profile, "phone_label") {
        Some(t) => out.push(string_of(t)),
        None => {},
    }
    assert(texts(out@) =~= second + match text_field(p, "phone_label"@) {
        Some(t) => seq![t],
        None => Seq::<Seq<char>>::empty(),
    });
    out
}

/// Whether the three CV presets agree on `page`: the first preset's page is
/// compared with the second's and, where they agree, with the third's.
/// `Err(page)` where a compared page is missing.
pub open spec fn page_agrees(
    two: VerifiedPdf,
    three: VerifiedPdf,
    four: VerifiedPdf,
    page: u32,
) -> Result<bool, nat> {
    match (two.page_bytes(page), three.page_bytes(page)) {
        (Some(base), Some(b)) => if b != base {
            Ok(false)
        } else {
            match four.page_bytes(page) {
                Some(c) => Ok(c == base),
                None => Err(page as nat),
            }
        },
        _ => Err(page as nat),
    }
}

/// The first of the pages shared by all CV presets (pages 1 and 2) whose
/// content differs between them, if any.
pub open spec fn changed_shared_page(two: VerifiedPdf, three: VerifiedPdf, four: VerifiedPdf) -> Result<
    Option<u32>,
    nat,
> {
    match page_agrees(two, three, four, 1) {
        Err(p) => Err(p),
        Ok(false) => Ok(Some(1u32)),
        Ok(true) => match page_agrees(two, three, four, 2) {
            Err(p) => Err(p),
            Ok(false) => Ok(Some(2u32)),
            Ok(true) => Ok(None),
        },
    }
}

/// Byte-wise equality.
fn same_bytes(a: &Vec<u8>, b: &Vec<u8>) -> (r: bool)
    ensures
        r == (a@ == b@),
{
    if a.len() != b.len() {
        return false;
    }
    let mut i: usize = 0;
    while i < a.len()
        invariant
            a@.len() == b@.len(),
            i <= a@.len(),
            forall|t: int| 0 <= t < i ==> a@[t] == b@[t],
        decreases a@.len() - i,
    {
        if a[i] != b[i] {
            return false;
        }
        i = i + 1;
    }
    assert(a@ =~= b@);
    true
}

/// Whether the three presets agree on `page`.
fn agrees_on(two: &VerifiedPdf, three: &VerifiedPdf, four: &VerifiedPdf, page: u32) -> (r: Result<
    bool,
    PdfError,
>)
    ensures
        match page_agrees(*two, *three, *four, page) {
            Ok(b) => r == Ok::<bool, PdfError>(b),
            Err(p) => r matches Err(e) && e@ == PdfFault::MissingPage(p),
        },
{
    let base = match two.page_content(page) {
        Ok(v) => v,
        Err(e) => return Err(e),
    };
    let b = match three.page_content(page) {
        Ok(v) => v,
        Err(e) => return Err(e),
    };
    if !same_bytes(&b, &base) {
        return Ok(false);
    }
    let c = match four.page_content(page) {
        Ok(v) => v,
        Err(e) => return Err(e),
    };
    Ok(same_bytes(&c, &base))
}

/// The first page shared by the two-, three- and four-page CV presets whose
/// content differs between them; a missing page is an error.
pub fn changed_page(two: &VerifiedPdf, three: &VerifiedPdf, four: &VerifiedPdf) -> (r: Result<
    Option<u32>,
    PdfError,
>)
    ensures
        match changed_shared_page(*two, *three, *four) {
            Ok(p) => r == Ok::<Option<u32>, PdfError>(p),
            Err(p) => r matches Err(e) && e@ == PdfFault::MissingPage(p),
        },
{
    match agrees_on(two, three, four, 1) {
        Err(e) => Err(e),
        Ok(false) => Ok(Some(1)),
        Ok(true) => match agrees_on(two, three, four, 2) {
            Err(e) => Err(e),
            Ok(false) => Ok(Some(2)),
            Ok(true) => Ok(None),
        },
    }
}

/// `check_one_pdf`: the release checks of one rendered document, held as
/// the bytes of its PDF file. It must parse, have the specification's page
/// count, carry the contact texts that the profile has, and, where it has
/// one page (a cover letter), the rendered signature image.
pub fn check_one_pdf(spec: &DocumentSpec, profile: &Json, bytes: &Vec<u8>, a4: &Vec<bool>) -> (r: Result<
    (),
    PdfError,
>)
    ensures
        pdf_model(bytes@) is None ==> (r matches Err(e) && e@ == PdfFault::Unparsable),
        pdf_model(bytes@) matches Some(doc) ==> match verify_outcome(
            doc,
            spec.expected_pages as nat,
            present_contacts(profile@),
            spec.expected_pages == 1,
            a4@,
        ) {
            Ok(_) => r is Ok,
            Err(f) => r matches Err(e) && e@ == f,
        },
{
    let contacts = available_contacts(profile);
    assert(crate::pdf::texts(contacts@) =~= present_contacts(profile@)) by {
        assert(texts(contacts@) == present_contacts(profile@));
    }
    match verify_bytes(bytes, spec.expected_pages, &contacts, spec.expected_pages == 1, a4) {
        Ok(_) => Ok(()),
        Err(e) => Err(e),
    }
}

} // verus!
