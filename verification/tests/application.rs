use ccvl::application::{
    checked_line_contracts, required_language_of, validate_application, validate_line,
    validate_line_contracts, validate_profiles, ApplicationError, Fault, Site,
};
use ccvl::json::Json;
use ccvl::schema::SchemaError;
use ccvl::workspace::Workspace;

fn text(s: &str) -> Json {
    Json::Str(s.to_string())
}

fn object(entries: Vec<(&str, Json)>) -> Json {
    let mut entries: Vec<(String, Json)> =
        entries.into_iter().map(|(k, v)| (k.to_string(), v)).collect();
    entries.sort_by(|a, b| a.0.cmp(&b.0));
    Json::Object(entries)
}

fn bounds(minimum: u64, target: u64, maximum: u64) -> Json {
    object(vec![
        ("minimum", Json::UInt(minimum)),
        ("target", Json::UInt(target)),
        ("maximum", Json::UInt(maximum)),
    ])
}

fn paragraph_contract(minimum: u64, maximum: u64) -> Json {
    object(vec![("lines", object(vec![("minimum", Json::UInt(minimum)), ("maximum", Json::UInt(maximum))]))])
}

fn region(first: u64, last: u64) -> Json {
    object(vec![
        ("paragraphs", Json::Array(vec![Json::UInt(first), Json::UInt(last)])),
        ("minimum", Json::UInt(10)),
        ("maximum", Json::UInt(12)),
        ("preferred_totals", Json::Array(vec![Json::UInt(11), Json::UInt(12)])),
    ])
}

/// The cover-letter contract of the workspace manifest.
fn manifest() -> Json {
    let cover = object(vec![
        (
            "paragraphs",
            Json::Array(vec![
                paragraph_contract(3, 3),
                paragraph_contract(5, 7),
                paragraph_contract(5, 7),
                paragraph_contract(5, 7),
                paragraph_contract(5, 7),
                paragraph_contract(2, 3),
            ]),
        ),
        ("body_lines", bounds(25, 28, 28)),
        ("paragraph_regions", Json::Array(vec![region(2, 3), region(4, 5)])),
        ("highlights", object(vec![("count", Json::UInt(5))])),
        (
            "line_fill",
            object(vec![("body", bounds(75, 86, 100)), ("highlight", bounds(60, 82, 100))]),
        ),
    ]);
    object(vec![("documents", object(vec![("cover_letter", cover)]))])
}

fn line() -> Json {
    object(vec![
        ("text", text("evidence")),
        ("min_fill", Json::UInt(75)),
        ("target_fill", Json::UInt(90)),
        ("max_fill", Json::UInt(100)),
    ])
}

fn highlight() -> Json {
    object(vec![
        ("text", text("evidence")),
        ("min_fill", Json::UInt(60)),
        ("target_fill", Json::UInt(82)),
        ("max_fill", Json::UInt(100)),
    ])
}

fn cover(paragraph_lengths: &[usize]) -> Json {
    object(vec![
        ("enabled", Json::Bool(true)),
        (
            "paragraphs",
            Json::Array(
                paragraph_lengths
                    .iter()
                    .map(|length| object(vec![("lines", Json::Array((0..*length).map(|_| line()).collect()))]))
                    .collect(),
            ),
        ),
        ("highlights", Json::Array((0..5).map(|_| highlight()).collect())),
    ])
}

fn application_with(cover_letter: Json) -> Json {
    object(vec![
        (
            "tailored_cv",
            object(vec![
                ("pages", Json::UInt(4)),
                ("summary", Json::Array((0..5).map(|_| line()).collect())),
            ]),
        ),
        ("tailored_cl", cover_letter),
    ])
}

fn application(paragraph_lengths: &[usize]) -> Json {
    application_with(cover(paragraph_lengths))
}

fn set_field(value: &mut Json, key: &str, new: Json) {
    if let Json::Object(entries) = value {
        for entry in entries.iter_mut() {
            if entry.0 == key {
                entry.1 = new;
                return;
            }
        }
        entries.push((key.to_string(), new));
        entries.sort_by(|a, b| a.0.cmp(&b.0));
    }
}

fn field_mut<'a>(value: &'a mut Json, key: &str) -> &'a mut Json {
    match value {
        Json::Object(entries) => &mut entries.iter_mut().find(|entry| entry.0 == key).unwrap().1,
        _ => panic!("not an object"),
    }
}

fn item_mut(value: &mut Json, index: usize) -> &mut Json {
    match value {
        Json::Array(items) => &mut items[index],
        _ => panic!("not an array"),
    }
}

fn check(draft: &Json) -> Result<(), String> {
    let manifest = manifest();
    validate_line_contracts(Some(&manifest), draft, "fixture", true).map_err(|error| error.message())
}

#[test]
fn cv_only_application_is_valid_without_hidden_cover_letter_content() {
    let mut draft = application(&[3, 6, 6, 5, 5, 3]);
    set_field(&mut draft, "tailored_cl", object(vec![("enabled", Json::Bool(false))]));
    check(&draft).unwrap();

    set_field(field_mut(&mut draft, "tailored_cl"), "paragraphs", Json::Array(vec![]));
    let error = check(&draft).unwrap_err();
    assert!(error.contains("disabled cover letter"));
}

#[test]
fn accepted_cover_letter_distributions_match_the_declared_regions() {
    for lengths in [
        [3, 6, 6, 5, 5, 3],
        [3, 5, 7, 5, 5, 3],
        [3, 7, 5, 5, 5, 2],
        [3, 5, 5, 5, 5, 2],
        [3, 5, 6, 5, 5, 3],
    ] {
        check(&application(&lengths)).unwrap();
    }
}

#[test]
fn fixed_individual_and_shared_line_budgets_are_enforced() {
    for (lengths, expected) in [
        ([2, 6, 6, 5, 5, 3], "paragraphs[1]: expected 3\u{2013}3 lines"),
        ([3, 4, 6, 5, 5, 3], "paragraphs[2]: expected 5\u{2013}7 lines"),
        ([3, 6, 6, 5, 5, 4], "paragraphs[6]: expected 2\u{2013}3 lines"),
        ([3, 5, 5, 6, 7, 2], "paragraphs[4:5]: expected 10\u{2013}12 shared lines"),
    ] {
        let error = check(&application(&lengths)).unwrap_err();
        assert!(error.contains(expected), "unexpected error: {error}");
    }
}

#[test]
fn every_middle_paragraph_distribution_obeys_all_declared_bounds() {
    for second in 4..=8usize {
        for third in 4..=8usize {
            for fourth in 4..=8usize {
                for fifth in 4..=8usize {
                    let middle = [second, third, fourth, fifth];
                    let valid = middle.iter().all(|count| (5..=7).contains(count))
                        && (10..=12).contains(&(second + third))
                        && (10..=12).contains(&(fourth + fifth))
                        && (20..=22).contains(&middle.iter().sum::<usize>());
                    let lengths = [3, second, third, fourth, fifth, 3];
                    assert_eq!(check(&application(&lengths)).is_ok(), valid, "unexpected result for {middle:?}");
                }
            }
        }
    }
}

#[test]
fn weakened_fill_floor_is_rejected() {
    let mut draft = application(&[3, 6, 6, 5, 5, 3]);
    let first = item_mut(field_mut(item_mut(field_mut(field_mut(&mut draft, "tailored_cl"), "paragraphs"), 0), "lines"), 0);
    set_field(first, "min_fill", Json::UInt(74));
    let error = check(&draft).unwrap_err();
    assert!(error.contains("weakens the required fill floor"));
}

#[test]
fn fill_bounds_are_ordered() {
    let mut invalid = line();
    set_field(&mut invalid, "min_fill", Json::UInt(91));
    assert!(validate_line(&invalid, Site::Summary(0), true).is_err());
}

#[test]
fn empty_rendered_lines_are_rejected() {
    let mut invalid = line();
    set_field(&mut invalid, "text", text("  "));
    assert!(validate_line(&invalid, Site::Summary(0), true).is_err());
}

#[test]
fn template_lines_need_no_text() {
    let mut blank = line();
    set_field(&mut blank, "text", text(""));
    assert!(validate_line(&blank, Site::Summary(0), false).is_ok());
    assert_eq!(validate_line(&blank, Site::Summary(0), true), Err(Fault::EmptyText(Site::Summary(0))));
}

#[test]
fn regions_outside_the_paragraphs_are_reported_as_undefined() {
    let mut manifest = manifest();
    let cover = field_mut(field_mut(&mut manifest, "documents"), "cover_letter");
    set_field(cover, "paragraph_regions", Json::Array(vec![region(2, 9)]));
    let draft = application(&[3, 6, 6, 5, 5, 3]);
    assert!(checked_line_contracts(Some(&manifest), &draft, "fixture", true).is_none());
}

#[test]
fn general_records_must_declare_their_locale() {
    assert_eq!(required_language_of("cvl/general/de-ch/application.json"), Some("de-CH"));
    assert_eq!(required_language_of("cvl/general/en-ch/application.json"), Some("en-CH"));
    assert_eq!(required_language_of("opportunities/acme/lead/application.json"), None);

    let workspace = Workspace::at("/w", Some("/w".to_string()), true).unwrap();
    let schema = object(vec![("type", text("object"))]);
    let manifest = manifest();
    let draft = application(&[3, 6, 6, 5, 5, 3]);
    let result = validate_application(
        &workspace,
        "cvl/general/de-ch/application.json",
        &draft,
        &schema,
        Some(&manifest),
    );
    match result {
        Some(Err(ApplicationError::Language { relative, expected })) => {
            assert_eq!(relative, "cvl/general/de-ch/application.json");
            assert_eq!(expected, "de-CH");
        }
        other => panic!("unexpected result {other:?}"),
    }
}

#[test]
fn profiles_are_checked_in_order() {
    let workspace = Workspace::at("/w", Some("/w".to_string()), true).unwrap();
    let schema = object(vec![("type", text("object"))]);
    let good = object(vec![]);
    let bad = Json::Array(vec![]);
    assert!(matches!(validate_profiles(&workspace, &schema, &good, &good), Some(Ok(()))));
    match validate_profiles(&workspace, &schema, &good, &bad) {
        Some(Err(SchemaError::WrongType(location))) => assert_eq!(location, "/w/cvl/general/profile.json"),
        other => panic!("unexpected result {other:?}"),
    }
}
