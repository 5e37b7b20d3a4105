use ccvl::json::Json;
use ccvl::schema::{check_schema, resolve_ref, validate_schema, value_has_type, SchemaError};

fn text(s: &str) -> Json {
    Json::Str(s.to_string())
}

fn object(entries: Vec<(&str, Json)>) -> Json {
    let mut entries: Vec<(String, Json)> =
        entries.into_iter().map(|(k, v)| (k.to_string(), v)).collect();
    entries.sort_by(|a, b| a.0.cmp(&b.0));
    Json::Object(entries)
}

fn count_schema() -> Json {
    object(vec![
        ("type", text("object")),
        ("additionalProperties", Json::Bool(false)),
        ("required", Json::Array(vec![text("count")])),
        (
            "properties",
            object(vec![(
                "count",
                object(vec![
                    ("type", text("integer")),
                    ("minimum", Json::UInt(1)),
                    ("maximum", Json::UInt(3)),
                ]),
            )]),
        ),
    ])
}

#[test]
fn schema_subset_rejects_unknown_and_bounds() {
    let schema = count_schema();
    assert!(validate_schema(&object(vec![("count", Json::UInt(2))]), &schema, &schema, "fixture").is_ok());
    assert!(validate_schema(&object(vec![("count", Json::UInt(0))]), &schema, &schema, "fixture").is_err());
    assert!(validate_schema(
        &object(vec![("count", Json::UInt(2)), ("other", Json::UInt(1))]),
        &schema,
        &schema,
        "fixture"
    )
    .is_err());
    assert!(validate_schema(&object(vec![("count", Json::Bool(true))]), &schema, &schema, "fixture").is_err());
}

#[test]
fn errors_name_the_failing_location() {
    let schema = count_schema();
    match validate_schema(&object(vec![("count", Json::UInt(9))]), &schema, &schema, "fixture") {
        Err(SchemaError::AboveMaximum { location, maximum }) => {
            assert_eq!(location, "fixture.count");
            assert_eq!(maximum, 3);
        }
        other => panic!("unexpected result {other:?}"),
    }
    match validate_schema(&object(vec![]), &schema, &schema, "fixture") {
        Err(SchemaError::MissingFields { location, fields }) => {
            assert_eq!(location, "fixture");
            assert_eq!(fields, vec!["count".to_string()]);
        }
        other => panic!("unexpected result {other:?}"),
    }
    match validate_schema(&object(vec![("count", Json::UInt(2)), ("zz", Json::Null)]), &schema, &schema, "fixture") {
        Err(SchemaError::UnknownFields { fields, .. }) => assert_eq!(fields, vec!["zz".to_string()]),
        other => panic!("unexpected result {other:?}"),
    }
}

#[test]
fn patterns_match_whole_strings() {
    let schema = object(vec![("type", text("string")), ("pattern", text("[a-z]+"))]);
    assert!(validate_schema(&text("abc"), &schema, &schema, "s").is_ok());
    match validate_schema(&text("abc1"), &schema, &schema, "s") {
        Err(SchemaError::NoMatch { location, pattern }) => {
            assert_eq!(location, "s");
            assert_eq!(pattern, "[a-z]+");
        }
        other => panic!("unexpected result {other:?}"),
    }
    let broken = object(vec![("pattern", text("("))]);
    assert!(matches!(validate_schema(&text("x"), &broken, &broken, "s"), Err(SchemaError::UnsupportedPattern(_))));
}

#[test]
fn references_are_local_pointers() {
    let root = object(vec![
        ("$defs", object(vec![("n", object(vec![("type", text("integer"))]))])),
        ("items", object(vec![("$ref", text("#/$defs/n"))])),
        ("type", text("array")),
    ]);
    let items = Json::Array(vec![Json::UInt(1), text("x")]);
    match validate_schema(&items, &root, &root, "list") {
        Err(SchemaError::WrongType(location)) => assert_eq!(location, "list[1]"),
        other => panic!("unexpected result {other:?}"),
    }
    assert!(matches!(resolve_ref(&root, "http://x"), Err(SchemaError::NonLocalRef(_))));
    assert!(matches!(resolve_ref(&root, "#/missing"), Err(SchemaError::UnresolvedRef(_))));
    assert!(resolve_ref(&root, "#").is_ok());
}

#[test]
fn endless_references_are_reported() {
    let root = object(vec![("$ref", text("#"))]);
    assert!(check_schema(&Json::Null, &root, &root, "x").is_none());
}

#[test]
fn types_follow_json_kinds() {
    assert_eq!(value_has_type(&Json::NegInt(-1), "integer"), Some(true));
    assert_eq!(value_has_type(&Json::Float(0), "integer"), Some(false));
    assert_eq!(value_has_type(&Json::Null, "null"), Some(true));
    assert_eq!(value_has_type(&Json::Null, "number"), None);
}

#[test]
fn a_reference_ignores_its_sibling_keywords() {
    let root = object(vec![
        ("$defs", object(vec![("n", object(vec![("type", text("integer"))]))])),
        ("node", object(vec![("$ref", text("#/$defs/n")), ("type", text("string"))])),
    ]);
    let node = object(vec![("$ref", text("#/$defs/n")), ("type", text("string"))]);
    let target = object(vec![("type", text("integer"))]);
    for value in [Json::UInt(3), text("x")] {
        assert_eq!(
            validate_schema(&value, &node, &root, "v").is_ok(),
            validate_schema(&value, &target, &root, "v").is_ok()
        );
    }
    assert!(validate_schema(&Json::UInt(3), &node, &root, "v").is_ok());
}

#[test]
fn long_reference_chains_without_a_cycle_are_followed() {
    let mut defs: Vec<(&str, Json)> = Vec::new();
    let names: Vec<String> = (0..300).map(|i| format!("d{i:03}")).collect();
    for i in 0..300 {
        let entry = if i == 299 {
            object(vec![("type", text("integer"))])
        } else {
            object(vec![("$ref", text(&format!("#/$defs/{}", names[i + 1])))])
        };
        defs.push((names[i].as_str(), entry));
    }
    let root = object(vec![("$defs", object(defs)), ("$ref", text("#/$defs/d000"))]);
    assert!(matches!(check_schema(&Json::UInt(1), &root, &root, "x"), Some(Ok(()))));
    assert!(matches!(check_schema(&text("x"), &root, &root, "x"), Some(Err(SchemaError::WrongType(_)))));
}

#[test]
fn the_two_zeros_are_one_constant() {
    let negative = Json::Float((-0.0f64).to_bits());
    let positive = Json::Float(0.0f64.to_bits());
    let schema = object(vec![("const", negative)]);
    assert!(validate_schema(&positive, &schema, &schema, "z").is_ok());
    let other = object(vec![("const", Json::Float(1.5f64.to_bits()))]);
    assert!(validate_schema(&positive, &other, &other, "z").is_err());
}
