use ccvl::evaluation::{
    batch_contract, batch_details, batch_messages, batch_of, combine_batches, decision_reply,
    evaluation_report, file_details, passed, request_payload, retry_delay, skill_names, summary_text,
    ContractError, ReplyError,
};
use ccvl::json::Json;

fn text(s: &str) -> Json {
    Json::Str(s.to_string())
}

fn object(entries: Vec<(&str, Json)>) -> Json {
    let mut entries: Vec<(String, Json)> = entries.into_iter().map(|(k, v)| (k.to_string(), v)).collect();
    entries.sort_by(|a, b| a.0.cmp(&b.0));
    Json::Object(entries)
}

fn case(id: &str, skill: &str) -> Json {
    object(vec![("id", text(id)), ("skill", text(skill)), ("scenario", text("s")), ("required", Json::Array(vec![]))])
}

fn evaluated(status: &str, errors: Vec<&str>, results: Vec<Json>) -> Json {
    object(vec![
        ("status", text(status)),
        ("errors", Json::Array(errors.into_iter().map(text).collect())),
        ("results", Json::Array(results)),
    ])
}

fn result(id: &str, ok: bool) -> Json {
    object(vec![
        ("case_id", text(id)),
        ("skill", text("cv")),
        ("selected_skill", text("")),
        ("passed", Json::Bool(ok)),
        ("reason", text("a|b\nc")),
    ])
}

#[test]
fn cases_are_batched_by_skill() {
    let cases = vec![case("c1", "letter"), case("c2", "cv"), case("c3", "letter")];
    assert_eq!(skill_names(&cases), vec!["cv", "letter"]);
    let batch = batch_of(&cases, "letter");
    assert_eq!(batch.len(), 2);
    assert_eq!(batch[1].get("id"), Some(&text("c3")));
}

#[test]
fn only_transient_failures_are_retried() {
    assert_eq!(retry_delay(429, 0), Some(2));
    assert_eq!(retry_delay(503, 1), Some(5));
    assert_eq!(retry_delay(500, 2), Some(10));
    assert_eq!(retry_delay(500, 3), None);
    assert_eq!(retry_delay(401, 0), None);
    assert_eq!(retry_delay(501, 0), None);
}

#[test]
fn reply_content_and_details_are_read() {
    let envelope = object(vec![
        (
            "choices",
            Json::Array(vec![object(vec![
                ("finish_reason", text("stop")),
                ("message", object(vec![("content", text("{\"decisions\": []}"))])),
            ])]),
        ),
        ("usage", object(vec![("total_tokens", Json::UInt(12))])),
    ]);
    let (content, detail) = decision_reply(&envelope).unwrap();
    assert_eq!(content, "{\"decisions\": []}");
    assert_eq!(detail.get("finish_reason"), Some(&text("stop")));
    assert_eq!(detail.get("usage").and_then(|u| u.get("total_tokens")), Some(&Json::UInt(12)));
    assert_eq!(decision_reply(&object(vec![("choices", Json::Array(vec![]))])).err(), Some(ReplyError::NoChoice));
    let empty = object(vec![("choices", Json::Array(vec![object(vec![])]))]);
    assert_eq!(decision_reply(&empty).err(), Some(ReplyError::NoContent));
}

#[test]
fn batch_evaluations_are_combined() {
    let batches = vec![
        ("cv".to_string(), evaluated("passed", vec![], vec![result("c1", true)])),
        ("letter".to_string(), evaluated("failed", vec!["missing decision"], vec![result("c2", true)])),
    ];
    let combined = combine_batches(&batches);
    assert_eq!(combined.get("status"), Some(&text("failed")));
    assert_eq!(combined.get("errors"), Some(&Json::Array(vec![text("letter: missing decision")])));
    assert!(matches!(combined.get("results"), Some(Json::Array(items)) if items.len() == 2));
    let clean = vec![("cv".to_string(), evaluated("passed", vec![], vec![result("c1", true)]))];
    assert_eq!(combine_batches(&clean).get("status"), Some(&text("passed")));
    let failing = vec![("cv".to_string(), evaluated("failed", vec![], vec![result("c1", false)]))];
    assert_eq!(combine_batches(&failing).get("status"), Some(&text("failed")));
}

#[test]
fn report_and_summary_follow_the_evaluation() {
    let evaluation = evaluated("failed", vec![], vec![result("c1", false)]);
    let report = evaluation_report("m", 1700000000, &evaluation, &file_details());
    assert_eq!(report.get("generated_at"), Some(&text("unix:1700000000")));
    assert_eq!(report.get("provider"), Some(&text("groq")));
    assert_eq!(report.get("schema_version"), Some(&Json::UInt(1)));
    assert!(!passed(&report));
    assert_eq!(
        summary_text(&report),
        "## ccvl skill evaluation\n\nProvider: Groq | Model: `m` | Status: **failed**\n\n\
| Case | Expected / selected skill | Result | Model reason |\n|---|---|---|---|\n\
| c1 | cv / none | fail | a\\|b c |\n\n"
    );
    let details = batch_details(&vec![("cv".to_string(), Json::Null)]);
    assert_eq!(
        details,
        object(vec![("batches", Json::Array(vec![object(vec![("provider", Json::Null), ("skill", text("cv"))])]))])
    );
}

#[test]
fn request_carries_the_contract() {
    let document = object(vec![("instruction", text("Route each case."))]);
    let skills = vec![
        ("cv".to_string(), "---\nname: cv\ndescription: Build CVs.\n---\nBody".to_string()),
        ("letter".to_string(), "---\nname: letter\ndescription: Write letters.\n---\n".to_string()),
    ];
    let cases = vec![case("c1", "cv")];
    let contract = batch_contract(&document, &skills, "cv", &cases).unwrap();
    assert_eq!(contract.get("task"), Some(&text("Route each case.")));
    assert_eq!(
        contract.get("skill_catalog"),
        Some(&object(vec![("cv", text("Build CVs.")), ("letter", text("Write letters."))]))
    );
    let public = contract.get("cases").unwrap();
    assert_eq!(public, &Json::Array(vec![object(vec![("id", text("c1")), ("options", Json::Null), ("scenario", text("s"))])]));
    assert!(matches!(batch_contract(&document, &skills, "other", &cases), Err(ContractError::MissingFocus)));
    let broken = vec![("cv".to_string(), "no frontmatter".to_string())];
    assert!(matches!(batch_contract(&document, &broken, "cv", &cases), Err(ContractError::Skill(_))));
    let messages = batch_messages("{}");
    let payload = request_payload("m", &messages);
    assert_eq!(payload.get("max_completion_tokens"), Some(&Json::UInt(1800)));
    assert_eq!(payload.get("temperature"), Some(&Json::UInt(0)));
    assert!(matches!(payload.get("messages"), Some(Json::Array(items)) if items.len() == 2));
}
