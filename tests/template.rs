use tiramisu::template::expand;

fn env() -> Vec<(String, String)> {
    vec![
        ("a".to_string(), "hello".to_string()),
        ("bebebe".to_string(), "lalala".to_string()),
    ]
}

fn captures() -> Vec<String> {
    vec!["123".to_string(), "456".to_string()]
}

#[test]
fn escaped_dollar_is_literal() {
    assert_eq!(expand("\\$a", &vec![], &vec![]), "$a");
}

#[test]
fn environment_variable_expands() {
    assert_eq!(expand("$a", &vec![], &env()), "hello");
}

#[test]
fn escaped_backslash_then_variable() {
    assert_eq!(expand("\\\\$a", &vec![], &env()), "\\hello");
}

#[test]
fn capture_group_expands() {
    assert_eq!(expand("$0", &vec!["123".to_string()], &vec![]), "123");
    assert_eq!(expand("$1", &captures(), &env()), "456");
}

#[test]
fn missing_variable_is_empty() {
    assert_eq!(expand("$missing", &vec![], &vec![]), "");
    assert_eq!(expand("$7", &captures(), &env()), "");
}

#[test]
fn unknown_names_vanish() {
    assert_eq!(expand("$aa$aaa$bebeb$bebebeb$", &captures(), &env()), "");
}

#[test]
fn escapes_mixed_with_text() {
    assert_eq!(expand("\\$\\$asda\\$\\\\a\\", &captures(), &env()), "$$asda$\\a\\");
}

#[test]
fn variable_ends_at_punctuation() {
    assert_eq!(expand("$bebebe", &captures(), &env()), "lalala");
    assert_eq!(expand("qwe$bebebe!r", &captures(), &env()), "qwelalala!r");
}

#[test]
fn adjacent_variables() {
    assert_eq!(expand("$a$bebebe$a$bebebe", &captures(), &env()), "hellolalalahellolalala");
}

#[test]
fn escaped_dollar_before_variable() {
    assert_eq!(expand("\\$$a", &captures(), &env()), "$hello");
}

#[test]
fn other_backslashes_pass_through() {
    assert_eq!(expand("a\\nb\\", &vec![], &vec![]), "a\\nb\\");
}

#[test]
fn expansion_is_not_rescanned() {
    let env = vec![("x".to_string(), "$a".to_string()), ("a".to_string(), "no".to_string())];
    assert_eq!(expand("$x", &vec![], &env), "$a");
}

#[test]
fn huge_number_is_an_environment_name() {
    let env = vec![("99999999999999999999999".to_string(), "big".to_string())];
    assert_eq!(expand("$99999999999999999999999", &captures(), &env), "big");
}

#[test]
fn underscore_belongs_to_name() {
    let env = vec![("my_var".to_string(), "v".to_string())];
    assert_eq!(expand("[$my_var]", &vec![], &env), "[v]");
}
