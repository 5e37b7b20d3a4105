use ccvl::check::{
    available_contacts, profile_contacts,
    font_files, manifest_files, run, valid_font, validate_embedded_fonts, validate_manifest,
    CheckAction, CheckEvent, CheckStep, FontError, ManifestError,
};
use ccvl::json::Json;

fn text(s: &str) -> Json {
    Json::Str(s.to_string())
}

fn object(entries: Vec<(&str, Json)>) -> Json {
    let mut entries: Vec<(String, Json)> =
        entries.into_iter().map(|(k, v)| (k.to_string(), v)).collect();
    entries.sort_by(|a, b| a.0.cmp(&b.0));
    Json::Object(entries)
}

fn bounds(minimum: u64, target: u64, maximum: u64) -> Json {
    object(vec![("minimum", Json::UInt(minimum)), ("target", Json::UInt(target)), ("maximum", Json::UInt(maximum))])
}

fn manifest() -> Json {
    let groups = object(vec![
        (
            "cvl",
            object(vec![
                ("root", text("cvl")),
                ("general", text("cvl/general")),
                ("profile", text("cvl/general/profile.json")),
                ("stations", text("cvl/general/stations.json")),
                ("de-CH", text("cvl/general/de-ch/application.json")),
                ("en-CH", text("cvl/general/en-ch/application.json")),
            ]),
        ),
        ("targets", object(vec![("root", text("targets"))])),
        (
            "opportunities",
            object(vec![
                ("root", text("opportunities")),
                ("path", text("opportunities/<organisation-key>/<position-key>")),
                ("record", text("application.json")),
                ("output", text("output")),
            ]),
        ),
    ]);
    let page = |entries: u64, bullets: u64| object(vec![("entries", Json::UInt(entries)), ("bullets_per_entry", Json::UInt(bullets))]);
    let layout = object(vec![
        ("page_1", object(vec![("entries", bounds(6, 7, 8))])),
        ("page_2", page(10, 2)),
        ("page_3", page(10, 2)),
        (
            "page_4",
            object(vec![
                ("groups", Json::UInt(3)),
                ("entries_per_group", Json::UInt(3)),
                ("bullets_per_entry", Json::UInt(3)),
            ]),
        ),
        ("verified_only", Json::Bool(true)),
        ("unique_fact_assignment", Json::Bool(true)),
    ]);
    let cv = object(vec![
        ("presets", Json::Array(vec![Json::UInt(2), Json::UInt(3), Json::UInt(4)])),
        ("summary_lines", Json::UInt(5)),
        ("layout_contract", layout),
    ]);
    let cover = object(vec![
        ("body_lines", bounds(25, 28, 28)),
        ("highlights", object(vec![("count", Json::UInt(5))])),
        ("widow_or_orphan_lines", Json::UInt(0)),
    ]);
    object(vec![
        ("format", text("ccvl-workspace")),
        ("schema_version", Json::UInt(4)),
        ("workspace_groups", groups),
        ("documents", object(vec![("cv", cv), ("cover_letter", cover)])),
    ])
}

fn present() -> Vec<String> {
    manifest_files().iter().map(|f| f.to_string()).collect()
}

#[test]
fn checked_in_manifest_has_fixed_contract() {
    validate_manifest(&manifest(), &present()).unwrap();
}

#[test]
fn the_fixed_workspace_contract_is_accepted() {
    assert!(validate_manifest(&manifest(), &present()).is_ok());
}

#[test]
fn a_changed_contract_is_refused() {
    let mut missing = present();
    missing.remove(3);
    match validate_manifest(&manifest(), &missing) {
        Err(ManifestError::MissingFile(file)) => assert_eq!(file, "cvl/general/profile.json"),
        other => panic!("unexpected result {other:?}"),
    }
    let mut changed = manifest();
    if let Json::Object(entries) = &mut changed {
        for entry in entries.iter_mut() {
            if entry.0 == "schema_version" {
                entry.1 = Json::UInt(3);
            }
        }
    }
    assert!(matches!(validate_manifest(&changed, &present()), Err(ManifestError::Format)));
}

#[test]
fn the_check_runs_its_steps_in_order() {
    assert!(matches!(run(CheckEvent::Start), CheckAction::Perform(CheckStep::Manifest)));
    assert!(matches!(run(CheckEvent::Passed(CheckStep::Fonts)), CheckAction::Perform(CheckStep::Measure)));
    assert!(matches!(run(CheckEvent::Measured(vec![])), CheckAction::Perform(CheckStep::RenderAndVerify)));
    assert!(matches!(run(CheckEvent::Passed(CheckStep::RenderAndVerify)), CheckAction::Finish));
    match run(CheckEvent::Measured(vec!["a".to_string(), "b".to_string()])) {
        CheckAction::Fail(message) => assert_eq!(message, "line measurement failed: a; b"),
        other => panic!("unexpected action {other:?}"),
    }
}

#[test]
fn fonts_start_with_a_font_signature() {
    assert!(valid_font(&b"OTTO\x00".to_vec()));
    assert!(valid_font(&vec![0, 1, 0, 0]));
    assert!(!valid_font(&b"<htm".to_vec()));
    assert!(!valid_font(&b"OTT".to_vec()));
    assert_eq!(font_files().len(), 4);
    let files = vec![("Archivo-Bold.ttf".to_string(), b"true".to_vec()), ("Archivo-Italic.ttf".to_string(), b"xxxx".to_vec())];
    assert!(matches!(validate_embedded_fonts(16, &files), Err(FontError::Invalid(n)) if n == "Archivo-Italic.ttf"));
    assert!(matches!(validate_embedded_fonts(15, &files), Err(FontError::EmbeddedCount(15))));
}

#[test]
fn profile_contacts_are_required_in_order() {
    let profile = object(vec![("name", text("Jane Doe")), ("email", text("jane@example.invalid")), ("phone_label", text("+41"))]);
    assert_eq!(profile_contacts(&profile).unwrap(), vec!["Jane Doe", "jane@example.invalid", "+41"]);
    let partial = object(vec![("name", text("Jane Doe")), ("phone_label", text("+41")), ("email", Json::UInt(1))]);
    assert_eq!(profile_contacts(&partial).err(), Some("email".to_string()));
    assert_eq!(available_contacts(&partial), vec!["Jane Doe", "+41"]);
}
