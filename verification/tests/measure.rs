use ccvl::json::Json;
use ccvl::measure::{
    compact_text,
    paragraph_counts, parse_body_id, preference_warnings, validate_metric_set, MeasureError,
    ParagraphId, Preference,
};
use ccvl::render::{DocumentKind, DocumentSpec};

fn text(s: &str) -> Json {
    Json::Str(s.to_string())
}

fn object(entries: Vec<(&str, Json)>) -> Json {
    let mut entries: Vec<(String, Json)> =
        entries.into_iter().map(|(k, v)| (k.to_string(), v)).collect();
    entries.sort_by(|a, b| a.0.cmp(&b.0));
    Json::Object(entries)
}

fn spec(kind: DocumentKind) -> DocumentSpec {
    DocumentSpec {
        name: "doc".to_string(),
        kind,
        source: String::new(),
        output: String::new(),
        inputs: vec![],
        expected_pages: 1,
    }
}

fn metric(kind: &str) -> Json {
    object(vec![("kind", text(kind))])
}

fn body(paragraph: usize, line: usize) -> Json {
    object(vec![("kind", text("cl-body")), ("id", text(&format!("cl.paragraph.{paragraph}.{line}")))])
}

fn manifest() -> Json {
    let bounds = |min: u64, max: u64| {
        object(vec![("lines", object(vec![("minimum", Json::UInt(min)), ("maximum", Json::UInt(max))]))])
    };
    let region = |a: u64, b: u64| {
        object(vec![
            ("paragraphs", Json::Array(vec![Json::UInt(a), Json::UInt(b)])),
            ("preferred_totals", Json::Array(vec![Json::UInt(11), Json::UInt(12)])),
        ])
    };
    object(vec![(
        "documents",
        object(vec![(
            "cover_letter",
            object(vec![
                (
                    "paragraphs",
                    Json::Array(vec![bounds(3, 3), bounds(5, 7), bounds(5, 7), bounds(5, 7), bounds(5, 7), bounds(2, 3)]),
                ),
                ("paragraph_regions", Json::Array(vec![region(2, 3), region(4, 5)])),
            ]),
        )]),
    )])
}

fn letter(lengths: [usize; 6]) -> Vec<Json> {
    let mut metrics = Vec::new();
    for (index, length) in lengths.iter().enumerate() {
        for line in 0..*length {
            metrics.push(body(index + 1, line + 1));
        }
    }
    for _ in 0..5 {
        metrics.push(metric("cl-highlight"));
    }
    metrics.push(metric("cl-vertical-gap"));
    metrics.push(metric("cl-highlight-center"));
    metrics
}

#[test]
fn body_ids_name_their_paragraph() {
    assert!(matches!(parse_body_id("cl.paragraph.3.12"), ParagraphId::Paragraph(3)));
    assert!(matches!(parse_body_id("cl.paragraph.007.1"), ParagraphId::Paragraph(7)));
    assert!(matches!(parse_body_id("cl.paragraph.3"), ParagraphId::Malformed));
    assert!(matches!(parse_body_id("cl.paragraph..1"), ParagraphId::Malformed));
    assert!(matches!(parse_body_id("cl.paragraph.3.x"), ParagraphId::Malformed));
    assert!(matches!(parse_body_id("cl.paragraph.99999999999999999999999.1"), ParagraphId::TooLarge));
}

#[test]
fn body_ids_take_any_decimal_digit() {
    assert!(matches!(parse_body_id("cl.paragraph.1.\u{661}"), ParagraphId::Paragraph(1)));
    assert!(matches!(parse_body_id("cl.paragraph.\u{661}.1"), ParagraphId::TooLarge));
    assert!(matches!(parse_body_id("cl.paragraph.1.\u{661}x"), ParagraphId::Malformed));
}

#[test]
fn paragraph_counts_follow_body_ids() {
    let counts = paragraph_counts(&spec(DocumentKind::CoverLetter), &letter([3, 6, 6, 5, 5, 3])).unwrap();
    assert_eq!(counts, vec![3, 6, 6, 5, 5, 3]);
    let bad = vec![body(7, 1)];
    assert!(matches!(paragraph_counts(&spec(DocumentKind::CoverLetter), &bad), Err(MeasureError::UnknownParagraph(_))));
}

#[test]
fn a_complete_letter_metric_set_passes() {
    let manifest = manifest();
    let letter_spec = spec(DocumentKind::CoverLetter);
    assert!(validate_metric_set(&letter_spec, &letter([3, 6, 6, 5, 5, 3]), Some(&manifest)).is_ok());
    assert!(matches!(
        validate_metric_set(&letter_spec, &letter([3, 4, 6, 5, 5, 3]), Some(&manifest)),
        Err(MeasureError::ParagraphLines { paragraph: 2, minimum: 5, maximum: 7, actual: 4, .. })
    ));
    assert!(matches!(
        validate_metric_set(&letter_spec, &letter([3, 7, 7, 7, 7, 3]), Some(&manifest)),
        Err(MeasureError::BodyLines { found: 34, .. })
    ));
    let mut extra = letter([3, 6, 6, 5, 5, 3]);
    extra.push(metric("cl-other"));
    assert!(matches!(validate_metric_set(&letter_spec, &extra, Some(&manifest)), Err(MeasureError::UnexpectedSet(_))));
    assert!(matches!(
        validate_metric_set(&letter_spec, &letter([3, 6, 6, 5, 5, 3]), None),
        Err(MeasureError::ManifestUnreadable)
    ));
}

#[test]
fn a_cv_reports_five_summary_lines() {
    let mut metrics: Vec<Json> = (0..5).map(|_| metric("cv-summary")).collect();
    metrics.push(metric("cv-heading"));
    metrics.push(metric("cv-subheading"));
    assert!(matches!(
        validate_metric_set(&spec(DocumentKind::Cv), &metrics, None),
        Err(MeasureError::NoLines { kind, .. }) if kind == "cv-bullet"
    ));
    metrics.push(metric("cv-bullet"));
    assert!(validate_metric_set(&spec(DocumentKind::Cv), &metrics, None).is_ok());
    metrics.push(object(vec![]));
    assert!(matches!(validate_metric_set(&spec(DocumentKind::Cv), &metrics, None), Err(MeasureError::MissingField(f)) if f == "kind"));
}

#[test]
fn unpreferred_totals_are_warned_about() {
    let manifest = manifest();
    let letter_spec = spec(DocumentKind::CoverLetter);
    let warnings = preference_warnings(&letter_spec, &letter([3, 5, 5, 5, 5, 2]), Some(&manifest)).unwrap().unwrap();
    let messages: Vec<String> = warnings.iter().map(|w| w.message("doc")).collect();
    assert_eq!(
        messages,
        vec![
            "doc: paragraphs 2\u{2013}3 use 10 lines; accepted, but 11 or 12 is preferred".to_string(),
            "doc: paragraphs 4\u{2013}5 use 10 lines; accepted, but 11 or 12 is preferred".to_string(),
            "doc: paragraph 6 uses 2 lines; accepted, but 3 is preferred to mirror paragraph 1".to_string(),
        ]
    );
    assert!(matches!(warnings[2], Preference::Closing(2)));
    let none = preference_warnings(&letter_spec, &letter([3, 6, 6, 6, 6, 3]), Some(&manifest)).unwrap().unwrap();
    assert!(none.is_empty());
    let cv = preference_warnings(&spec(DocumentKind::Cv), &vec![], None).unwrap().unwrap();
    assert!(cv.is_empty());
}

#[test]
fn metric_text_is_compacted() {
    assert_eq!(compact_text("  a \n b\u{a0}c  "), "a b c");
    assert_eq!(compact_text(""), "");
    let long = "x".repeat(130);
    let compact = compact_text(&long);
    assert_eq!(compact.chars().count(), 120);
    assert!(compact.ends_with('\u{2026}'));
    assert_eq!(compact_text(&"y".repeat(120)), "y".repeat(120));
}
