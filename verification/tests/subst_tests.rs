use wordreplace::subst::{detect_and_replace_keyword, handle_object_substitution, substitute_variable};
use wordreplace::value::Value;

#[test]
fn detect_and_replace_keyword_replaces_every_occurrence() {
    let out = detect_and_replace_keyword("Hi ${name}, bye ${name}.", "name", "Ana");
    assert_eq!(out, "Hi Ana, bye Ana.");
}

#[test]
fn detect_and_replace_keyword_leaves_other_tokens() {
    let out = detect_and_replace_keyword("${name} and ${other}", "name", "Ana");
    assert_eq!(out, "Ana and ${other}");
}

#[test]
fn substitute_variable_replaces_value_field() {
    let data = Value::Object(vec![(
        "value".to_string(),
        Value::Text("World".to_string()),
    )]);
    let out = substitute_variable("Hello, ${value}!", &data).unwrap();
    assert_eq!(out, "Hello, World!");
}

#[test]
fn substitute_variable_replaces_every_scalar_field() {
    let data = Value::Object(vec![
        ("a".to_string(), Value::Text("x".to_string())),
        ("b".to_string(), Value::Int(3)),
        ("c".to_string(), Value::Bool(false)),
    ]);
    let out = substitute_variable("${a} ${b} ${c}", &data).unwrap();
    assert_eq!(out, "x 3 Falso");
}

#[test]
fn substitute_variable_on_scalar_data_changes_nothing() {
    let data = Value::Text("plain".to_string());
    let out = substitute_variable("keep ${value}", &data).unwrap();
    assert_eq!(out, "keep ${value}");
}

#[test]
fn handle_object_substitution_covers_all_scalars() {
    let object = vec![
        ("name".to_string(), Value::Text("Ana".to_string())),
        ("age".to_string(), Value::Int(30)),
        ("ok".to_string(), Value::Bool(true)),
        ("no".to_string(), Value::Bool(false)),
        ("gone".to_string(), Value::Null),
    ];
    let out =
        handle_object_substitution("${name} ${age} ${ok} ${no} [${gone}]", &object).unwrap();
    assert_eq!(out, "Ana 30 Verdadeiro Falso []");
}
