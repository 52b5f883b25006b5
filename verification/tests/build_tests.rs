use conftree::builder::build;
use conftree::error::ConfigError;
use conftree::value::ConfigValue;

fn lines(v: &[&str]) -> Vec<String> {
    v.iter().map(|s| s.to_string()).collect()
}

fn child<'a>(tree: &'a ConfigValue, key: &str) -> &'a ConfigValue {
    tree.section_get(key).expect("missing key")
}

fn scalar(tree: &ConfigValue, key: &str) -> String {
    match child(tree, key) {
        ConfigValue::Scalar(s) => s.clone(),
        ConfigValue::Section(_) => panic!("expected a scalar"),
    }
}

fn entry_count(tree: &ConfigValue) -> usize {
    match tree {
        ConfigValue::Scalar(_) => panic!("expected a section"),
        ConfigValue::Section(entries) => entries.len(),
    }
}

fn same_tree(a: &ConfigValue, b: &ConfigValue) -> bool {
    match (a, b) {
        (ConfigValue::Scalar(x), ConfigValue::Scalar(y)) => x == y,
        (ConfigValue::Section(xs), ConfigValue::Section(ys)) => {
            xs.len() == ys.len()
                && xs.iter().zip(ys.iter()).all(|(x, y)| x.0 == y.0 && same_tree(&x.1, &y.1))
        },
        _ => false,
    }
}

#[test]
fn simple_key_value() {
    let tree = build(&lines(&["a = 1"]), None).unwrap();
    assert_eq!(scalar(&tree, "a"), "1");
    assert_eq!(entry_count(&tree), 1);
}

#[test]
fn last_write_wins_plain_key() {
    let tree = build(&lines(&["a=1", "b=5", "a=2"]), None).unwrap();
    assert_eq!(scalar(&tree, "a"), "2");
    assert_eq!(scalar(&tree, "b"), "5");
}

#[test]
fn dotted_key_builds_nested_sections() {
    let tree = build(&lines(&["log.file.dir = /var/log"]), None).unwrap();
    let log = child(&tree, "log");
    assert!(matches!(log, ConfigValue::Section(_)));
    let file = child(log, "file");
    assert!(matches!(file, ConfigValue::Section(_)));
    assert_eq!(scalar(file, "dir"), "/var/log");
}

#[test]
fn sibling_leaves_share_sections() {
    let tree = build(&lines(&["a.b = 1", "a.c = 2"]), None).unwrap();
    let a = child(&tree, "a");
    assert_eq!(scalar(a, "b"), "1");
    assert_eq!(scalar(a, "c"), "2");
    assert_eq!(entry_count(&tree), 1);
}

#[test]
fn structural_conflict_scalar_used_as_section() {
    let err = build(&lines(&["a=1", "a.b=2"]), None).unwrap_err();
    match err {
        ConfigError::StructuralConflict { segment } => assert_eq!(segment, "a"),
        ConfigError::SchemaValidationFailure { .. } => panic!("wrong error kind"),
    }
}

#[test]
fn structural_conflict_names_inner_segment() {
    let err = build(&lines(&["a.b=1", "a.b.c=2"]), None).unwrap_err();
    match err {
        ConfigError::StructuralConflict { segment } => assert_eq!(segment, "b"),
        ConfigError::SchemaValidationFailure { .. } => panic!("wrong error kind"),
    }
}

#[test]
fn scalar_over_section_is_conflict() {
    let err = build(&lines(&["a.b=1", "a=2"]), None).unwrap_err();
    match err {
        ConfigError::StructuralConflict { segment } => assert_eq!(segment, "a"),
        ConfigError::SchemaValidationFailure { .. } => panic!("wrong error kind"),
    }
}

#[test]
fn scalar_over_inner_section_is_conflict() {
    let err = build(&lines(&["a.b.c=1", "a.b=2"]), None).unwrap_err();
    match err {
        ConfigError::StructuralConflict { segment } => assert_eq!(segment, "b"),
        ConfigError::SchemaValidationFailure { .. } => panic!("wrong error kind"),
    }
}

#[test]
fn dotted_leaf_last_write_wins() {
    let tree = build(&lines(&["a.b=1", "a.b=2"]), None).unwrap();
    let a = child(&tree, "a");
    assert_eq!(scalar(a, "b"), "2");
}

#[test]
fn comments_and_blanks_contribute_nothing() {
    let tree = build(
        &lines(&["# comment", "; comment", "   ", "", "a = 1", "  # indented comment", "\t"]),
        None,
    )
    .unwrap();
    assert_eq!(scalar(&tree, "a"), "1");
    assert_eq!(entry_count(&tree), 1);
}

#[test]
fn line_without_equals_is_ignored() {
    let tree = build(&lines(&["just some text", "a=1", "another stray line"]), None).unwrap();
    assert_eq!(scalar(&tree, "a"), "1");
    assert_eq!(entry_count(&tree), 1);
}

#[test]
fn split_happens_at_first_equals() {
    let tree = build(&lines(&["a = b=c"]), None).unwrap();
    assert_eq!(scalar(&tree, "a"), "b=c");
}

#[test]
fn dot_in_value_does_not_nest() {
    let tree = build(&lines(&["ratio = 1.5"]), None).unwrap();
    assert_eq!(scalar(&tree, "ratio"), "1.5");
}

#[test]
fn trailing_dot_makes_empty_segment() {
    let tree = build(&lines(&["a.b. = x"]), None).unwrap();
    let a = child(&tree, "a");
    let b = child(a, "b");
    assert_eq!(scalar(b, ""), "x");
}

#[test]
fn segments_keep_their_spaces() {
    let tree = build(&lines(&["a . b = c"]), None).unwrap();
    let a = child(&tree, "a ");
    assert_eq!(scalar(a, " b"), "c");
}

#[test]
fn values_keep_inner_spaces() {
    let tree = build(&lines(&["greeting =  hello   world  "]), None).unwrap();
    assert_eq!(scalar(&tree, "greeting"), "hello   world");
}

#[test]
fn rebuilding_gives_identical_tree() {
    let input = lines(&["a=1", "log.file.dir = /var/log", "a=2", "# note", "x.y=z"]);
    let t1 = build(&input, None).unwrap();
    let t2 = build(&input, None).unwrap();
    assert!(same_tree(&t1, &t2));
}

#[test]
fn empty_input_gives_empty_section() {
    let tree = build(&lines(&[]), None).unwrap();
    assert_eq!(entry_count(&tree), 0);
}

#[test]
fn unicode_whitespace_is_trimmed() {
    let tree = build(&lines(&["\u{a0}a\u{3000}=\u{2003}1\u{a0}"]), None).unwrap();
    assert_eq!(scalar(&tree, "a"), "1");
}

#[test]
fn unicode_whitespace_before_comment_marker() {
    let tree = build(&lines(&["\u{a0}# note", "\u{2028}; note", "a=1"]), None).unwrap();
    assert_eq!(entry_count(&tree), 1);
}

#[test]
fn section_get_on_scalar_finds_nothing() {
    let tree = build(&lines(&["a=1"]), None).unwrap();
    let a = child(&tree, "a");
    assert!(a.section_get("anything").is_none());
}
