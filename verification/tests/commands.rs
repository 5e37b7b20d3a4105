use ccvl::commands::{
    source_date_epoch,
    application_candidates, drops_cover_letter, sorted_paths,
    cl_output, cv_output, default_application, default_profile, resolve, source_digest,
    sources_changed, watched,
};
use ccvl::render::{DocumentKind, DocumentSpec, RenderError};
use ccvl::workspace::Workspace;
use sha2::Digest;

fn workspace() -> Workspace {
    Workspace::at("/w", Some("/w".to_string()), true).unwrap()
}

#[test]
fn command_defaults_name_the_general_records() {
    assert_eq!(default_application("de-ch"), "cvl/general/de-ch/application.json");
    assert_eq!(default_profile(), "cvl/general/profile.json");
    assert_eq!(cv_output(&workspace(), "en-ch", 3).unwrap(), "/w/cvl/cv/output/en-ch/threepager/cv.pdf");
    assert!(matches!(cv_output(&workspace(), "en-ch", 5), Err(RenderError::BadPages(5))));
    assert_eq!(cl_output(&workspace(), "de-ch"), "/w/cvl/cl/output/de-ch/cl.pdf");
}

#[test]
fn relative_paths_resolve_inside_the_workspace() {
    assert_eq!(resolve(&workspace(), "tests/skill-cases.json"), "/w/tests/skill-cases.json");
    assert_eq!(resolve(&workspace(), "/tmp/report.json"), "/tmp/report.json");
}

#[test]
fn watcher_renders_on_change_only() {
    assert!(sources_changed(&vec![], &vec![1]));
    assert!(sources_changed(&vec![1, 2], &vec![1, 3]));
    assert!(!sources_changed(&vec![1, 2], &vec![1, 2]));
}

#[test]
fn watched_sources_are_typst_json_and_png() {
    assert!(watched("/w/cvl/cv/cv.typ"));
    assert!(watched("/w/cvl/general/profile.json"));
    assert!(watched("/w/cvl/cl/assets/signature.png"));
    assert!(!watched("/w/cvl/cv/output/de-ch/twopager/cv.pdf"));
    assert!(!watched("/w/cvl/README"));
}

#[test]
fn source_digest_orders_paths_by_component() {
    let files = vec![
        ("/w/cvl/a-b/x.json".to_string(), b"first".to_vec()),
        ("/w/cvl/cv.pdf".to_string(), b"ignored".to_vec()),
        ("/w/cvl/a/y.typ".to_string(), b"second".to_vec()),
    ];
    let mut expected = Vec::new();
    expected.extend_from_slice(b"/w/cvl/a/y.typ");
    expected.extend_from_slice(b"second");
    expected.extend_from_slice(b"/w/cvl/a-b/x.json");
    expected.extend_from_slice(b"first");
    assert_eq!(source_digest(&files), sha2::Sha256::digest(&expected).to_vec());
}

#[test]
fn source_digest_changes_with_content() {
    let one = vec![("/w/cvl/cv.typ".to_string(), b"a".to_vec())];
    let two = vec![("/w/cvl/cv.typ".to_string(), b"b".to_vec())];
    assert!(sources_changed(&source_digest(&one), &source_digest(&two)));
}

#[test]
fn paths_sort_by_component() {
    let paths = vec!["a-b/x".to_string(), "a/y".to_string(), "a".to_string()];
    assert_eq!(sorted_paths(&paths), vec!["a", "a/y", "a-b/x"]);
}

#[test]
fn application_records_are_checked_in_path_order() {
    let records = vec!["opportunities/acme/lead/application.json".to_string()];
    assert_eq!(
        application_candidates(&records),
        vec![
            "cvl/general/de-ch/application.json",
            "cvl/general/en-ch/application.json",
            "opportunities/acme/lead/application.json",
            "templates/application.json",
        ]
    );
}

#[test]
fn stale_cover_letter_is_dropped_without_one() {
    let spec = |kind| DocumentSpec {
        name: "n".to_string(),
        kind,
        source: String::new(),
        output: String::new(),
        inputs: vec![],
        expected_pages: 1,
    };
    assert!(drops_cover_letter(&vec![spec(DocumentKind::Cv)]));
    assert!(!drops_cover_letter(&vec![spec(DocumentKind::Cv), spec(DocumentKind::CoverLetter)]));
}

#[test]
fn source_date_epoch_is_a_non_negative_integer() {
    assert_eq!(source_date_epoch("0"), Some(0));
    assert_eq!(source_date_epoch("1700000000"), Some(1700000000));
    assert_eq!(source_date_epoch("+5"), Some(5));
    assert_eq!(source_date_epoch("-0"), Some(0));
    assert_eq!(source_date_epoch("-1"), None);
    assert_eq!(source_date_epoch(""), None);
    assert_eq!(source_date_epoch("-"), None);
    assert_eq!(source_date_epoch("12a"), None);
    assert_eq!(source_date_epoch("9223372036854775807"), Some(i64::MAX));
    assert_eq!(source_date_epoch("9223372036854775808"), None);
}
