use conftree::literals::{is_bool_value, is_integer_value};

#[test]
fn integer_literals_accepted() {
    for v in ["0", "7", "007", "+7", "42", "2147483647", "-2147483648", "+2147483647"] {
        assert!(is_integer_value(v), "{} should be accepted", v);
    }
}

#[test]
fn integer_literals_rejected() {
    for v in [
        "",
        "+",
        "-",
        "abc",
        "12a",
        "1.5",
        "--1",
        "+-1",
        " 1",
        "1 ",
        "2147483648",
        "-2147483649",
        "9999999999999999999999",
    ] {
        assert!(!is_integer_value(v), "{} should be rejected", v);
    }
}

#[test]
fn integer_bounds_are_exact() {
    assert!(is_integer_value("2147483647"));
    assert!(!is_integer_value("2147483648"));
    assert!(is_integer_value("-2147483648"));
    assert!(!is_integer_value("-2147483649"));
    assert!(!is_integer_value("+2147483648"));
}

#[test]
fn bool_literals_accepted() {
    for v in ["true", "false", "TRUE", "FALSE", "True", "False", "tRuE"] {
        assert!(is_bool_value(v), "{} should be accepted", v);
    }
}

#[test]
fn bool_literals_rejected() {
    for v in ["", "1", "0", "yes", "no", "truth", "fals", "true ", " true"] {
        assert!(!is_bool_value(v), "{} should be rejected", v);
    }
}
