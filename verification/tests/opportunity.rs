use ccvl::json::Json;
use ccvl::opportunity::{
    can_set_job_id, opportunity_document, record_destination, record_path, valid_key, OpportunityError,
    RecordError,
};
use ccvl::workspace::Workspace;

fn repository() -> Workspace {
    Workspace::at("/repo", Some("/repo".to_string()), true).unwrap()
}

#[test]
fn path_keys_cannot_escape() {
    let workspace = repository();
    assert!(record_path(&workspace, "../acme", "lead").is_err());
    assert!(record_path(&workspace, "ACME", "lead").is_err());
}

#[test]
fn keys_are_joined_runs_of_letters_and_digits() {
    assert!(valid_key("acme"));
    assert!(valid_key("acme-corp_2"));
    assert!(!valid_key(""));
    assert!(!valid_key("-acme"));
    assert!(!valid_key("acme-"));
    assert!(!valid_key("acme--corp"));
    assert!(!valid_key("a.b"));
    assert_eq!(
        record_path(&repository(), "acme", "lead").unwrap(),
        "/repo/opportunities/acme/lead/application.json"
    );
    match record_path(&repository(), "acme", "Lead") {
        Err(OpportunityError::InvalidKey { label, value }) => {
            assert_eq!(label, "position");
            assert_eq!(value, "Lead");
        }
        other => panic!("unexpected result {other:?}"),
    }
}

#[test]
fn new_records_are_never_overwritten() {
    let workspace = repository();
    assert_eq!(
        record_destination(&workspace, "acme", "lead", false).unwrap(),
        "/repo/opportunities/acme/lead/application.json"
    );
    match record_destination(&workspace, "acme", "lead", true) {
        Err(RecordError::Exists(p)) => assert_eq!(p, "opportunities/acme/lead/application.json"),
        other => panic!("unexpected {other:?}"),
    }
    assert!(matches!(record_destination(&workspace, "Acme", "lead", false), Err(RecordError::Key(_))));
}

#[test]
fn new_record_carries_its_identifier() {
    let template = Json::Object(vec![
        ("cv".to_string(), Json::Null),
        ("job".to_string(), Json::Object(vec![("id".to_string(), Json::Str(String::new())), ("title".to_string(), Json::Null)])),
    ]);
    assert!(can_set_job_id(&template));
    let record = opportunity_document(template, "acme", "lead");
    assert_eq!(record.get("job").and_then(|j| j.get("id")), Some(&Json::Str("acme--lead".to_string())));
    assert_eq!(record.get("job").and_then(|j| j.get("title")), Some(&Json::Null));
    let bare = opportunity_document(Json::Object(vec![("a".to_string(), Json::Null), ("z".to_string(), Json::Null)]), "x", "y");
    assert_eq!(
        bare,
        Json::Object(vec![
            ("a".to_string(), Json::Null),
            ("job".to_string(), Json::Object(vec![("id".to_string(), Json::Str("x--y".to_string()))])),
            ("z".to_string(), Json::Null),
        ])
    );
    assert!(!can_set_job_id(&Json::Array(vec![])));
    assert!(!can_set_job_id(&Json::Object(vec![("job".to_string(), Json::UInt(1))])));
}

#[test]
fn distinct_keys_give_distinct_records() {
    let workspace = repository();
    let a = record_path(&workspace, "a-b", "c").unwrap();
    let b = record_path(&workspace, "a", "b-c").unwrap();
    assert_ne!(a, b);
}
