use ccvl::json::Json;
use ccvl::skills::{
    declared_skills, evaluate_response, first_seen_skills, parse_frontmatter, skill_description,
    validate_cases, validate_skill, validate_skill_sets, SkillError,
};

fn text(s: &str) -> Json {
    Json::Str(s.to_string())
}

fn object(entries: Vec<(&str, Json)>) -> Json {
    let mut entries: Vec<(String, Json)> =
        entries.into_iter().map(|(k, v)| (k.to_string(), v)).collect();
    entries.sort_by(|a, b| a.0.cmp(&b.0));
    Json::Object(entries)
}

fn texts(items: &[&str]) -> Json {
    Json::Array(items.iter().map(|item| text(item)).collect())
}

fn field<'a>(value: &'a Json, key: &str) -> &'a Json {
    value.get(key).unwrap()
}

fn case(id: &str, skill: &str) -> Json {
    object(vec![
        ("id", text(id)),
        ("skill", text(skill)),
        ("scenario", text("scenario")),
        (
            "options",
            Json::Array(
                ["a", "b", "c", "d"].iter().map(|o| object(vec![("id", text(o)), ("text", text(o))])).collect(),
            ),
        ),
        ("required", texts(&["a", "b"])),
        ("forbidden", texts(&["d"])),
    ])
}

fn decision(case_id: &str, skill: &str, selected: &[&str], reason: &str) -> Json {
    object(vec![
        ("case_id", text(case_id)),
        ("skill", text(skill)),
        ("selected", texts(selected)),
        ("reason", text(reason)),
    ])
}

#[test]
fn malformed_response_fails_cleanly() {
    let result = evaluate_response(&vec![], &object(vec![("answer", Json::Array(vec![]))]));
    assert_eq!(result.get("status"), Some(&text("failed")));
}

#[test]
fn a_correct_decision_passes() {
    let cases = vec![case("one", "tailor")];
    let response = object(vec![(
        "decisions",
        Json::Array(vec![decision("one", "tailor", &["a", "b", "c"], "fits the role")]),
    )]);
    let result = evaluate_response(&cases, &response);
    assert_eq!(field(&result, "status"), &text("passed"));
    let results = match field(&result, "results") {
        Json::Array(items) => items,
        _ => panic!("no results"),
    };
    assert_eq!(results.len(), 1);
    assert_eq!(field(&results[0], "passed"), &Json::Bool(true));
}

#[test]
fn every_case_error_is_reported_in_order() {
    let cases = vec![case("one", "tailor"), case("two", "tailor")];
    let response = object(vec![(
        "decisions",
        Json::Array(vec![
            decision("one", "other", &["c", "c", "z", "d"], ""),
            Json::UInt(3),
            decision("nope", "tailor", &["a"], "x"),
        ]),
    )]);
    let result = evaluate_response(&cases, &response);
    assert_eq!(field(&result, "status"), &text("failed"));
    assert_eq!(
        field(&result, "errors"),
        &texts(&["decision 1 is not an object", "decision 2 has an unknown case_id"])
    );
    let results = match field(&result, "results") {
        Json::Array(items) => items,
        _ => panic!("no results"),
    };
    assert_eq!(
        field(&results[0], "errors"),
        &texts(&[
            "routed to other instead of tailor",
            "selected contains duplicate option ids",
            "unknown options: z",
            "missing required options: a, b",
            "selected forbidden options: d",
            "reason must be a non-empty string",
        ])
    );
    assert_eq!(field(&results[1], "errors"), &texts(&["missing decision"]));
    assert_eq!(field(&results[1], "selected_skill"), &text(""));
}

#[test]
fn a_repeated_decision_counts_once_the_last_time() {
    let cases = vec![case("one", "tailor")];
    let response = object(vec![(
        "decisions",
        Json::Array(vec![
            decision("one", "other", &["a"], "first"),
            decision("one", "tailor", &["a", "b"], "one two three four five six seven eight nine ten eleven twelve thirteen"),
        ]),
    )]);
    let result = evaluate_response(&cases, &response);
    assert_eq!(field(&result, "errors"), &texts(&["case one appears more than once"]));
    let results = match field(&result, "results") {
        Json::Array(items) => items,
        _ => panic!("no results"),
    };
    assert_eq!(field(&results[0], "errors"), &texts(&["reason exceeds 12 words"]));
}

#[test]
fn frontmatter_is_a_sorted_map_where_later_lines_win() {
    let map = parse_frontmatter("---\nname: b\ndescription:  first \ndescription: second\n---\nbody\n").unwrap();
    assert_eq!(
        map,
        vec![
            ("description".to_string(), "second".to_string()),
            ("name".to_string(), "b".to_string())
        ]
    );
    assert_eq!(skill_description("---\ndescription: x\n---\n").unwrap(), "x");
    assert!(matches!(parse_frontmatter("name: x\n"), Err(SkillError::MissingFrontmatter)));
    assert!(matches!(parse_frontmatter("---\nname: x\n"), Err(SkillError::UnterminatedFrontmatter)));
    match parse_frontmatter("---\nbroken\n---\n") {
        Err(SkillError::InvalidFrontmatterLine(line)) => assert_eq!(line, "broken"),
        other => panic!("unexpected result {other:?}"),
    }
    assert!(matches!(skill_description("---\nname: x\n---\n"), Err(SkillError::NoDescription)));
}

#[test]
fn skills_are_listed_in_order_of_first_use() {
    let cases = vec![case("a", "tailor"), case("b", "review"), case("c", "tailor")];
    assert_eq!(first_seen_skills(&cases), vec!["tailor".to_string(), "review".to_string()]);
}

fn cases_document(cases: Vec<Json>) -> Json {
    object(vec![
        ("schema_version", Json::UInt(1)),
        ("instruction", text("route")),
        ("cases", Json::Array(cases)),
    ])
}

#[test]
fn case_documents_cover_the_declared_skills() {
    let declared = vec!["tailor".to_string(), "review".to_string()];
    let document = cases_document(vec![case("a", "tailor"), case("b", "review")]);
    assert!(validate_cases(&document, &declared).is_ok());
    let swapped = cases_document(vec![case("a", "review"), case("b", "tailor")]);
    assert!(matches!(validate_cases(&swapped, &declared), Err(SkillError::Coverage)));
    let repeated = cases_document(vec![case("a", "tailor"), case("a", "review")]);
    assert!(matches!(validate_cases(&repeated, &declared), Err(SkillError::BadCaseId(id)) if id == "a"));
    let upper = cases_document(vec![case("A", "tailor")]);
    assert!(matches!(validate_cases(&upper, &declared), Err(SkillError::BadCaseId(_))));
    assert!(matches!(validate_cases(&cases_document(vec![]), &declared), Err(SkillError::EmptyCases)));
}

#[test]
fn the_manifest_declares_distinct_skills() {
    let manifest = object(vec![("skills", texts(&["tailor", "review"]))]);
    assert_eq!(declared_skills(&manifest).unwrap(), vec!["tailor".to_string(), "review".to_string()]);
    let repeated = object(vec![("skills", texts(&["tailor", "tailor"]))]);
    assert!(matches!(declared_skills(&repeated), Err(SkillError::BadSkillList)));
    let mixed = object(vec![("skills", Json::Array(vec![text("a"), Json::UInt(1)]))]);
    assert!(matches!(declared_skills(&mixed), Err(SkillError::SkillNameNotText)));
    let names = |items: &[&str]| items.iter().map(|s| s.to_string()).collect::<Vec<_>>();
    assert!(validate_skill_sets(&names(&["a", "b"]), &names(&["b", "a"]), &names(&["a", "b"])).is_ok());
    assert!(matches!(
        validate_skill_sets(&names(&["a"]), &names(&["a", "b"]), &names(&["a", "b"])),
        Err(SkillError::ManifestMismatch)
    ));
    assert!(matches!(
        validate_skill_sets(&names(&["a"]), &names(&["a"]), &names(&["b"])),
        Err(SkillError::AdapterMismatch)
    ));
}

#[test]
fn skill_documents_and_adapters_agree() {
    let canonical = "---\nname: tailor\ndescription: Tailors a CV.\n---\nbody\n";
    let adapter = "---\nname: tailor\ndescription: see canonical\n---\nRead ../../../.agents/skills/tailor/SKILL.md\n";
    let at = ".assistant/skills/tailor/SKILL.md";
    assert!(validate_skill("tailor", canonical, at, adapter).is_ok());
    let twice = format!("{adapter}../../../.agents/skills/tailor/SKILL.md\n");
    match validate_skill("tailor", canonical, at, &twice) {
        Err(SkillError::AdapterReference(path)) => assert_eq!(path, at),
        other => panic!("unexpected result {other:?}"),
    }
    let extra = "---\nname: tailor\ndescription: x\nextra: y\n---\n";
    assert!(matches!(validate_skill("tailor", extra, at, adapter), Err(SkillError::InvalidCanonicalFrontmatter(_))));
    let long = format!("---\nname: tailor\ndescription: {}\n---\n", "\u{e9}".repeat(513));
    assert!(matches!(validate_skill("tailor", &long, at, adapter), Err(SkillError::InvalidDescription(_))));
}
