use conftree::builder::build;
use conftree::error::ConfigError;
use conftree::schema::{check_type, parse_schema, validate_type, Schema};
use conftree::value::ConfigValue;

fn lines(v: &[&str]) -> Vec<String> {
    v.iter().map(|s| s.to_string()).collect()
}

fn scalar_at(tree: &ConfigValue, key: &str) -> String {
    match tree.section_get(key).expect("missing key") {
        ConfigValue::Scalar(s) => s.clone(),
        ConfigValue::Section(_) => panic!("expected a scalar"),
    }
}

#[test]
fn parse_schema_reads_entries() {
    let (schema, skipped) = parse_schema(&lines(&["port -> integer", "name -> String"]));
    assert_eq!(schema.get("port").unwrap().as_str(), "integer");
    assert_eq!(schema.get("name").unwrap().as_str(), "String");
    assert!(schema.get("other").is_none());
    assert!(skipped.is_empty());
}

#[test]
fn parse_schema_skips_comments_and_blanks() {
    let (schema, skipped) = parse_schema(&lines(&["# c", "; c", "  ", "port -> integer"]));
    assert_eq!(schema.get("port").unwrap().as_str(), "integer");
    assert!(skipped.is_empty());
}

#[test]
fn parse_schema_reports_malformed_lines() {
    let (schema, skipped) = parse_schema(&lines(&["port integer", "name -> String"]));
    assert!(schema.get("port").is_none());
    assert_eq!(skipped, vec!["port integer".to_string()]);
    assert_eq!(schema.get("name").unwrap().as_str(), "String");
}

#[test]
fn parse_schema_last_declaration_wins() {
    let (schema, _) = parse_schema(&lines(&["k -> integer", "k -> String"]));
    assert_eq!(schema.get("k").unwrap().as_str(), "String");
}

#[test]
fn parse_schema_trims_key_and_type() {
    let (schema, _) = parse_schema(&lines(&["  k  ->  bool  "]));
    assert_eq!(schema.get("k").unwrap().as_str(), "bool");
}

#[test]
fn parse_schema_splits_at_first_arrow() {
    let (schema, _) = parse_schema(&lines(&["a->b -> c"]));
    assert_eq!(schema.get("a").unwrap().as_str(), "b -> c");
}

#[test]
fn schema_set_overwrites() {
    let mut schema = Schema::new();
    schema.set("k".to_string(), "integer".to_string());
    schema.set("k".to_string(), "bool".to_string());
    assert_eq!(schema.get("k").unwrap().as_str(), "bool");
}

#[test]
fn integer_value_accepted() {
    let mut schema = Schema::new();
    schema.set("port".to_string(), "integer".to_string());
    let tree = build(&lines(&["port = 8080"]), Some(&schema)).unwrap();
    assert_eq!(scalar_at(&tree, "port"), "8080");
}

#[test]
fn integer_value_rejected() {
    let mut schema = Schema::new();
    schema.set("port".to_string(), "integer".to_string());
    let err = build(&lines(&["port = abc"]), Some(&schema)).unwrap_err();
    match err {
        ConfigError::SchemaValidationFailure { key, declared_type } => {
            assert_eq!(key, "port");
            assert_eq!(declared_type, "integer");
        },
        ConfigError::StructuralConflict { .. } => panic!("wrong error kind"),
    }
}

#[test]
fn bool_values_accepted_any_ascii_case() {
    let mut schema = Schema::new();
    schema.set("on".to_string(), "bool".to_string());
    for v in ["true", "false", "TRUE", "False", "fAlSe"] {
        let line = format!("on = {}", v);
        let tree = build(&lines(&[&line]), Some(&schema)).unwrap();
        assert_eq!(scalar_at(&tree, "on"), v);
    }
}

#[test]
fn bool_value_rejected() {
    let mut schema = Schema::new();
    schema.set("on".to_string(), "bool".to_string());
    for v in ["1", "yes", "truth", "fals"] {
        let line = format!("on = {}", v);
        assert!(build(&lines(&[&line]), Some(&schema)).is_err());
    }
}

#[test]
fn string_type_accepts_anything_even_empty() {
    let mut schema = Schema::new();
    schema.set("name".to_string(), "String".to_string());
    let tree = build(&lines(&["name ="]), Some(&schema)).unwrap();
    assert_eq!(scalar_at(&tree, "name"), "");
    let tree = build(&lines(&["name = 42 ?? anything"]), Some(&schema)).unwrap();
    assert_eq!(scalar_at(&tree, "name"), "42 ?? anything");
}

#[test]
fn unrecognized_type_passes_through() {
    let mut schema = Schema::new();
    schema.set("x".to_string(), "duration".to_string());
    let tree = build(&lines(&["x = whatever"]), Some(&schema)).unwrap();
    assert_eq!(scalar_at(&tree, "x"), "whatever");
}

#[test]
fn schema_key_is_the_full_dotted_string() {
    let mut schema = Schema::new();
    schema.set("log.file.size".to_string(), "integer".to_string());
    assert!(build(&lines(&["log.file.size = 12"]), Some(&schema)).is_ok());
    assert!(build(&lines(&["log.file.size = big"]), Some(&schema)).is_err());
}

#[test]
fn unlisted_key_is_not_validated() {
    let mut schema = Schema::new();
    schema.set("port".to_string(), "integer".to_string());
    let tree = build(&lines(&["other = abc"]), Some(&schema)).unwrap();
    assert_eq!(scalar_at(&tree, "other"), "abc");
}

#[test]
fn conflict_detected_before_validation() {
    let mut schema = Schema::new();
    schema.set("a.b".to_string(), "integer".to_string());
    let err = build(&lines(&["a=1", "a.b=xyz"]), Some(&schema)).unwrap_err();
    assert!(matches!(err, ConfigError::StructuralConflict { .. }));
}

#[test]
fn validation_failure_stops_at_first_bad_line() {
    let mut schema = Schema::new();
    schema.set("a".to_string(), "integer".to_string());
    schema.set("b".to_string(), "bool".to_string());
    let err = build(&lines(&["a = x", "b = y"]), Some(&schema)).unwrap_err();
    match err {
        ConfigError::SchemaValidationFailure { key, .. } => assert_eq!(key, "a"),
        ConfigError::StructuralConflict { .. } => panic!("wrong error kind"),
    }
}

#[test]
fn validate_type_reports_key_and_type() {
    assert!(validate_type("k", "true", "bool").is_ok());
    let err = validate_type("k", "maybe", "bool").unwrap_err();
    match err {
        ConfigError::SchemaValidationFailure { key, declared_type } => {
            assert_eq!(key, "k");
            assert_eq!(declared_type, "bool");
        },
        ConfigError::StructuralConflict { .. } => panic!("wrong error kind"),
    }
}

#[test]
fn check_type_table() {
    assert!(check_type("bool", "true"));
    assert!(!check_type("bool", "vrai"));
    assert!(check_type("integer", "-12"));
    assert!(!check_type("integer", "12.5"));
    assert!(check_type("String", ""));
    assert!(check_type("anything-else", "!!"));
}

#[test]
fn validator_trims_the_value() {
    assert!(validate_type("f", " FALSE ", "bool").is_ok());
    assert!(validate_type("f", "True", "bool").is_ok());
    assert!(validate_type("port", " 12 ", "integer").is_ok());
    assert!(check_type("bool", "\ttrue\t"));
    assert!(check_type("integer", "  -7  "));
    assert!(!check_type("integer", " 1 2 "));
}
