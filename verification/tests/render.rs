use ccvl::json::Json;
use ccvl::measure::{general_specs, keyed_specs, report_line_contracts};
use ccvl::render::{
    cv_preset, general_cl_spec, general_cv_spec, normalize_locale, opportunity_specs, render_general,
    render_spec, DocumentKind, RenderError, Resolutions,
};
use ccvl::workspace::Workspace;

fn workspace() -> Workspace {
    Workspace::at("/w", Some("/w".to_string()), true).unwrap()
}

fn resolved(paths: &[&str]) -> Resolutions {
    Resolutions { entries: paths.iter().map(|p| (p.to_string(), Some(p.to_string()))).collect() }
}

fn general() -> Resolutions {
    resolved(&[
        "/w/cvl/general/de-ch/application.json",
        "/w/cvl/general/en-ch/application.json",
        "/w/cvl/general/profile.json",
    ])
}

fn inputs(spec: &ccvl::render::DocumentSpec) -> Vec<(&str, &str)> {
    spec.inputs.iter().map(|(k, v)| (k.as_str(), v.as_str())).collect()
}

#[test]
fn locales_are_normalized_ignoring_case() {
    assert_eq!(normalize_locale("DE").unwrap(), "de-ch");
    assert_eq!(normalize_locale("en-CH").unwrap(), "en-ch");
    assert!(matches!(normalize_locale("fr"), Err(RenderError::UnsupportedLocale(v)) if v == "fr"));
    assert_eq!(cv_preset(3).unwrap(), "threepager");
    assert!(matches!(cv_preset(5), Err(RenderError::BadPages(5))));
}

#[test]
fn general_cv_reads_the_locale_record_and_writes_the_preset_output() {
    let spec = general_cv_spec(&workspace(), "de", 2, &general()).unwrap();
    assert_eq!(spec.name, "CV de-ch");
    assert_eq!(spec.kind, DocumentKind::Cv);
    assert_eq!(spec.source, "/w/cvl/cv/de-ch/main.typ");
    assert_eq!(spec.output, "/w/cvl/cv/output/de-ch/twopager/cv.pdf");
    assert_eq!(spec.expected_pages, 2);
    assert_eq!(
        inputs(&spec),
        vec![
            ("application", "/cvl/general/de-ch/application.json"),
            ("cv-pages", "2"),
            ("profile", "/cvl/general/profile.json")
        ]
    );
    let letter = general_cl_spec(&workspace(), "en", &general()).unwrap();
    assert_eq!(letter.output, "/w/cvl/cl/output/en-ch/cl.pdf");
    assert_eq!(letter.expected_pages, 1);
    assert!(general_cv_spec(&workspace(), "de", 2, &resolved(&[])).is_err());
}

#[test]
fn measured_documents_report_their_lines() {
    let specs = general_specs(&workspace(), &general()).unwrap();
    assert_eq!(specs.len(), 4);
    assert_eq!(specs[0].name, "CV de-ch");
    assert_eq!(specs[0].expected_pages, 4);
    assert_eq!(specs[1].name, "cover letter de-ch");
    assert_eq!(specs[3].name, "cover letter en-ch");
    assert_eq!(
        inputs(&specs[0]),
        vec![
            ("application", "/cvl/general/de-ch/application.json"),
            ("cv-pages", "4"),
            ("line-contracts", "report"),
            ("profile", "/cvl/general/profile.json")
        ]
    );
    let mut again = general_cv_spec(&workspace(), "de", 4, &general()).unwrap();
    report_line_contracts(&mut again);
    report_line_contracts(&mut again);
    assert_eq!(again.inputs.len(), 4);
}

#[test]
fn all_general_documents_are_rendered_in_order() {
    let specs = render_general(&workspace(), &general()).unwrap();
    let outputs: Vec<&str> = specs.iter().map(|s| s.output.as_str()).collect();
    assert_eq!(
        outputs,
        vec![
            "/w/cvl/cv/output/de-ch/twopager/cv.pdf",
            "/w/cvl/cv/output/de-ch/threepager/cv.pdf",
            "/w/cvl/cv/output/de-ch/fourpager/cv.pdf",
            "/w/cvl/cl/output/de-ch/cl.pdf",
            "/w/cvl/cv/output/en-ch/twopager/cv.pdf",
            "/w/cvl/cv/output/en-ch/threepager/cv.pdf",
            "/w/cvl/cv/output/en-ch/fourpager/cv.pdf",
            "/w/cvl/cl/output/en-ch/cl.pdf",
        ]
    );
    let spec = &specs[0];
    assert!(render_spec(spec, &b"%PDF-1.7".to_vec()).is_ok());
    assert!(matches!(render_spec(spec, &b"<html>".to_vec()), Err(RenderError::NotPdf(n)) if n == "CV de-ch"));
}

fn text(s: &str) -> Json {
    Json::Str(s.to_string())
}

fn object(entries: Vec<(&str, Json)>) -> Json {
    let mut entries: Vec<(String, Json)> =
        entries.into_iter().map(|(k, v)| (k.to_string(), v)).collect();
    entries.sort_by(|a, b| a.0.cmp(&b.0));
    Json::Object(entries)
}

fn line() -> Json {
    object(vec![
        ("text", text("evidence")),
        ("min_fill", Json::UInt(75)),
        ("target_fill", Json::UInt(90)),
        ("max_fill", Json::UInt(100)),
    ])
}

fn record(language: &str) -> Json {
    object(vec![
        ("job", object(vec![("language", text(language))])),
        (
            "tailored_cv",
            object(vec![("pages", Json::UInt(3)), ("summary", Json::Array((0..5).map(|_| line()).collect()))]),
        ),
        ("tailored_cl", object(vec![("enabled", Json::Bool(false))])),
    ])
}

#[test]
fn an_opportunity_without_a_letter_has_one_document() {
    let workspace = workspace();
    let resolved = resolved(&["/w/opportunities/acme/lead/application.json", "/w/cvl/general/profile.json"]);
    let specs = opportunity_specs(&workspace, "acme", "lead", &record("en-CH"), None, &resolved).unwrap();
    assert_eq!(specs.len(), 1);
    assert_eq!(specs[0].name, "CV acme/lead");
    assert_eq!(specs[0].output, "/w/opportunities/acme/lead/output/cv.pdf");
    assert_eq!(specs[0].expected_pages, 3);
    let keyed = keyed_specs(&workspace, "acme", "lead", &record("en-CH"), None, &resolved).unwrap();
    assert_eq!(keyed[0].inputs.len(), 4);
    assert!(matches!(
        opportunity_specs(&workspace, "acme", "lead", &record("fr"), None, &resolved),
        Err(RenderError::UnsupportedLocale(v)) if v == "fr"
    ));
    assert!(matches!(
        opportunity_specs(&workspace, "Acme", "lead", &record("en"), None, &resolved),
        Err(RenderError::Opportunity(_))
    ));
}

#[test]
fn measured_documents_are_the_general_documents_with_a_report() {
    let specs = general_specs(&workspace(), &general()).unwrap();
    let expected = [
        general_cv_spec(&workspace(), "de-ch", 4, &general()).unwrap(),
        general_cl_spec(&workspace(), "de-ch", &general()).unwrap(),
        general_cv_spec(&workspace(), "en-ch", 4, &general()).unwrap(),
        general_cl_spec(&workspace(), "en-ch", &general()).unwrap(),
    ];
    for (measured, mut plain) in specs.into_iter().zip(expected) {
        report_line_contracts(&mut plain);
        assert_eq!(measured.name, plain.name);
        assert_eq!(measured.output, plain.output);
        assert_eq!(measured.source, plain.source);
        assert_eq!(measured.expected_pages, plain.expected_pages);
        assert_eq!(inputs(&measured), inputs(&plain));
    }
}

#[test]
fn keyed_documents_are_the_opportunity_documents_with_a_report() {
    let workspace = workspace();
    let resolved = resolved(&["/w/opportunities/acme/lead/application.json", "/w/cvl/general/profile.json"]);
    let plain = opportunity_specs(&workspace, "acme", "lead", &record("en-CH"), None, &resolved).unwrap();
    let keyed = keyed_specs(&workspace, "acme", "lead", &record("en-CH"), None, &resolved).unwrap();
    assert_eq!(plain.len(), keyed.len());
    for (mut p, k) in plain.into_iter().zip(keyed) {
        report_line_contracts(&mut p);
        assert_eq!(p.name, k.name);
        assert_eq!(p.output, k.output);
        assert_eq!(inputs(&p), inputs(&k));
    }
}

#[test]
fn general_cover_letter_matches_cl_spec() {
    let letter = general_cl_spec(&workspace(), "en", &general()).unwrap();
    let direct = ccvl::render::cl_spec(
        &workspace(),
        "en-ch",
        "/w/cvl/general/en-ch/application.json",
        Some("/w/cvl/general/en-ch/application.json".to_string()),
        "/w/cvl/general/profile.json",
        Some("/w/cvl/general/profile.json".to_string()),
        "/w/cvl/cl/output/en-ch/cl.pdf",
    )
    .unwrap();
    assert_eq!(letter.name, direct.name);
    assert_eq!(letter.source, direct.source);
    assert_eq!(letter.output, direct.output);
    assert_eq!(letter.expected_pages, direct.expected_pages);
    assert_eq!(inputs(&letter), inputs(&direct));
}
