use wordreplace::engine::{render, modify_paragraphs_in_xml, replace_keywords, MarkupError};
use wordreplace::locale::LocaleTable;
use wordreplace::value::Value;

fn obj(pairs: Vec<(&str, Value)>) -> Value {
    Value::Object(pairs.into_iter().map(|(k, v)| (k.to_string(), v)).collect())
}

fn text(s: &str) -> Value {
    Value::Text(s.to_string())
}

#[test]
fn test_substitute_variable_with_string() {
    let template = "<w:document><w:body><w:p>Hello, ${value}!</w:p></w:body></w:document>";
    let data = text("Worldj");
    let result = render(template, &data, &LocaleTable::fallback()).unwrap();
    println!("RESULT:{:?}", result);
    assert!(result.contains("Worldj!"));
}

#[test]
fn test_substitute_variable_with_number() {
    let template = "<w:document><w:body><w:p>The answer is ${value}.</w:p></w:body></w:document>";
    let data = Value::Int(4278);
    let result = render(template, &data, &LocaleTable::fallback()).unwrap();
    println!("RESULT:{:?}", result);
    assert!(result.contains("4278."));
}

#[test]
fn test_substitute_variable_with_boolean() {
    let template = "<w:document><w:body><w:p>Is it true? ${value}.</w:p></w:body></w:document>";
    let result = render(template, &Value::Bool(true), &LocaleTable::fallback()).unwrap();
    assert!(result.contains("Verdadeiro."));

    let result = render(template, &Value::Bool(false), &LocaleTable::fallback()).unwrap();
    println!("RESULT:{:?}", result);
    assert!(result.contains("Falso."));
}

#[test]
fn test_substitute_variable_with_object() {
    let template =
        "<w:document><w:body><w:p>Hello, ${name}. You are ${age} years old.</w:p></w:body></w:document>";
    let data = obj(vec![
        ("name", text("Alice")),
        ("age", Value::Int(30)),
        ("mulher", Value::Bool(true)),
    ]);
    let result = render(template, &data, &LocaleTable::fallback()).unwrap();
    println!("RESULT:{:?}", result);
    assert!(result.contains("Hello, Alice. You are 30 years"));
}

#[test]
fn test_substitute_variable_with_nested_object() {
    let template = "<w:document><w:body><w:p>${partes.requerente.nome} \
        ${partes.requerente.data_de_nascimento.dia} \
        ${partes.requerente.data_de_nascimento.mes} \
        ${partes.requerente.data_de_nascimento.ano} ${mulher}</w:p></w:body></w:document>";
    let data = obj(vec![
        (
            "partes",
            obj(vec![(
                "requerente",
                obj(vec![
                    ("nome", text("Alice")),
                    (
                        "data_de_nascimento",
                        obj(vec![
                            ("dia", Value::Int(15)),
                            ("mes", text("Junho")),
                            ("ano", Value::Int(1990)),
                        ]),
                    ),
                ]),
            )]),
        ),
        ("mulher", Value::Bool(true)),
    ]);
    let result = render(template, &data, &LocaleTable::fallback()).unwrap();
    println!("RESULTADO: {:?}", result);
    assert!(result.contains("Alice"));
    assert!(result.contains("15"));
    assert!(result.contains("Junho"));
    assert!(result.contains("1990"));
    assert!(result.contains("Verdadeiro"));
}

#[test]
fn literal_markup_passes_through_unchanged() {
    let template = "<w:document><w:body><w:p w:attr=\"v\">plain text</w:p></w:body></w:document>";
    let data = obj(vec![("unused", text("x"))]);
    let result = render(template, &data, &LocaleTable::fallback()).unwrap();
    assert_eq!(result, template);
}

#[test]
fn plain_text_without_tokens_is_identical() {
    let data = obj(vec![]);
    let out = replace_keywords("nothing to see here", &data, &LocaleTable::fallback());
    assert_eq!(out, "nothing to see here");
}

#[test]
fn nested_path_resolution() {
    let data = obj(vec![("a", obj(vec![("b", text("x"))]))]);
    let table = LocaleTable::fallback();
    assert_eq!(replace_keywords("${a.b}", &data, &table), "x");
    assert_eq!(replace_keywords("${a.c}", &data, &table), "");
}

#[test]
fn array_indexing() {
    let data = obj(vec![("a", Value::Array(vec![text("p"), text("q")]))]);
    let table = LocaleTable::fallback();
    assert_eq!(replace_keywords("${a.0}", &data, &table), "p");
    assert_eq!(replace_keywords("${a.5}", &data, &table), "");
    assert_eq!(replace_keywords("${a.01}", &data, &table), "q");
}

#[test]
fn empty_array_block_leaves_no_trace() {
    let template = "<a>${#items}X${item}Y${/items}</a>";
    let data = obj(vec![("items", Value::Array(vec![]))]);
    let result = render(template, &data, &LocaleTable::fallback()).unwrap();
    assert_eq!(result, "<a></a>");
}

#[test]
fn block_expansion_concatenates_in_order() {
    let template = "${#people}${name}${/people}";
    let data = obj(vec![(
        "people",
        Value::Array(vec![
            obj(vec![("name", text("Alice"))]),
            obj(vec![("name", text("Bob"))]),
        ]),
    )]);
    let out = replace_keywords(template, &data, &LocaleTable::fallback());
    assert_eq!(out, "AliceBob");
}

#[test]
fn block_scope_does_not_leak_between_elements() {
    let template = "${#people}[${name}${age}]${/people}";
    let data = obj(vec![(
        "people",
        Value::Array(vec![
            obj(vec![("name", text("Alice"))]),
            obj(vec![("age", Value::Int(7))]),
        ]),
    )]);
    let out = replace_keywords(template, &data, &LocaleTable::fallback());
    assert_eq!(out, "[Alice][7]");
}

#[test]
fn block_of_scalars_uses_value_path() {
    let template = "${#nums}${value},${/nums}";
    let data = obj(vec![(
        "nums",
        Value::Array(vec![Value::Int(1), Value::Int(2)]),
    )]);
    let out = replace_keywords(template, &data, &LocaleTable::fallback());
    assert_eq!(out, "1,2,");
}

#[test]
fn block_over_non_array_is_dropped() {
    let template = "a${#thing}body${/thing}b";
    let data = obj(vec![("thing", text("scalar"))]);
    let out = replace_keywords(template, &data, &LocaleTable::fallback());
    assert_eq!(out, "ab");
}

#[test]
fn unterminated_block_start_degrades_to_literal() {
    let template = "x${#items}y";
    let data = obj(vec![("items", Value::Array(vec![text("e")]))]);
    let out = replace_keywords(template, &data, &LocaleTable::fallback());
    assert_eq!(out, "x${#items}y");
}

#[test]
fn stray_block_end_degrades_to_literal() {
    let template = "x${/items}y";
    let data = obj(vec![]);
    let out = replace_keywords(template, &data, &LocaleTable::fallback());
    assert_eq!(out, "x${/items}y");
}

#[test]
fn fragmented_token_resolves_like_contiguous() {
    let data = obj(vec![("name", text("N"))]);
    let table = LocaleTable::fallback();
    let fragmented = render("A${na<w:x/>me}Z", &data, &table).unwrap();
    let contiguous = render("A${name}Z", &data, &table).unwrap();
    assert_eq!(contiguous, "ANZ");
    assert_eq!(fragmented, contiguous);
}

#[test]
fn markup_outside_token_is_preserved() {
    let data = obj(vec![("name", text("N"))]);
    let table = LocaleTable::fallback();
    let out = render("<w:t>A</w:t>${na<w:x/>me}<w:t>Z</w:t>", &data, &table).unwrap();
    assert_eq!(out, "<w:t>A</w:t>N<w:t>Z</w:t>");
}

#[test]
fn fragmented_opening_brace_still_forms_token() {
    let data = obj(vec![("k", text("V"))]);
    let out = render("$<w:x/>{k}", &data, &LocaleTable::fallback()).unwrap();
    assert_eq!(out, "V");
}

#[test]
fn unterminated_token_renders_unchanged() {
    let data = obj(vec![("open", text("nope"))]);
    let out = replace_keywords("value is ${open", &data, &LocaleTable::fallback());
    assert_eq!(out, "value is ${open");
}

#[test]
fn lone_dollar_signs_render_unchanged() {
    let data = obj(vec![]);
    let table = LocaleTable::fallback();
    assert_eq!(replace_keywords("a$b", &data, &table), "a$b");
    assert_eq!(replace_keywords("a$", &data, &table), "a$");
    assert_eq!(replace_keywords("$$", &data, &table), "$$");
}

#[test]
fn unresolved_and_non_scalar_render_empty() {
    let data = obj(vec![("o", obj(vec![("k", text("v"))])), ("n", Value::Null)]);
    let table = LocaleTable::fallback();
    assert_eq!(replace_keywords("<${missing}>", &data, &table), "<>");
    assert_eq!(replace_keywords("<${o}>", &data, &table), "<>");
    assert_eq!(replace_keywords("<${n}>", &data, &table), "<>");
}

#[test]
fn negative_number_renders_with_sign() {
    let data = obj(vec![("t", Value::Int(-45))]);
    let out = replace_keywords("${t}", &data, &LocaleTable::fallback());
    assert_eq!(out, "-45");
}

#[test]
fn extreme_numbers_render_exactly() {
    let data = obj(vec![
        ("lo", Value::Int(i64::MIN)),
        ("hi", Value::Int(i64::MAX)),
        ("z", Value::Int(0)),
    ]);
    let out = replace_keywords("${lo} ${hi} ${z}", &data, &LocaleTable::fallback());
    assert_eq!(out, "-9223372036854775808 9223372036854775807 0");
}

#[test]
fn boolean_words_come_from_the_table() {
    let mut table = LocaleTable::fallback();
    table.bool_true = "Sim".to_string();
    table.bool_false = "Nao".to_string();
    let data = obj(vec![("f", Value::Bool(true)), ("g", Value::Bool(false))]);
    assert_eq!(replace_keywords("${f}/${g}", &data, &table), "Sim/Nao");
}

#[test]
fn whitespace_inside_token_is_ignored() {
    let data = obj(vec![("a", obj(vec![("b", text("x"))]))]);
    let out = replace_keywords("${ a.b }", &data, &LocaleTable::fallback());
    assert_eq!(out, "x");
}

#[test]
fn empty_template_renders_empty() {
    let data = obj(vec![("k", text("v"))]);
    let table = LocaleTable::fallback();
    assert_eq!(render("", &data, &table).unwrap(), "");
    assert_eq!(replace_keywords("", &data, &table), "");
}

#[test]
fn duplicate_keys_resolve_to_the_first() {
    let data = Value::Object(vec![
        ("k".to_string(), text("first")),
        ("k".to_string(), text("second")),
    ]);
    let out = replace_keywords("${k}", &data, &LocaleTable::fallback());
    assert_eq!(out, "first");
}

#[test]
fn unclosed_tag_is_a_markup_error() {
    let data = obj(vec![]);
    let err = render("<w:p>text<w:unfinished", &data, &LocaleTable::fallback()).unwrap_err();
    assert_eq!(err, MarkupError::Malformed);
    assert_eq!(err.describe(), "markup is not well-formed");
}

#[test]
fn unclosed_element_is_a_markup_error() {
    let data = obj(vec![]);
    let err = render("<a>x", &data, &LocaleTable::fallback()).unwrap_err();
    assert_eq!(err, MarkupError::Malformed);
}

#[test]
fn mismatched_close_is_a_markup_error() {
    let data = obj(vec![]);
    let table = LocaleTable::fallback();
    assert!(render("<a>x</b>", &data, &table).is_err());
    assert!(render("x</a>", &data, &table).is_err());
    assert!(render("<a><b></a></b>", &data, &table).is_err());
}

#[test]
fn quoted_angle_bracket_stays_inside_its_tag() {
    let data = obj(vec![("k", text("V"))]);
    let out = render("<a b=\">\">${k}</a>", &data, &LocaleTable::fallback()).unwrap();
    assert_eq!(out, "<a b=\">\">V</a>");
}

#[test]
fn declarations_and_comments_need_no_close() {
    let data = obj(vec![("k", text("V"))]);
    let out = render(
        "<?xml version=\"1.0\"?><!-- note --><d>${k}</d>",
        &data,
        &LocaleTable::fallback(),
    )
    .unwrap();
    assert_eq!(out, "<?xml version=\"1.0\"?><!-- note --><d>V</d>");
}

#[test]
fn modify_paragraphs_matches_render() {
    let template = "<w:p>${k}</w:p>";
    let data = obj(vec![("k", text("V"))]);
    let table = LocaleTable::fallback();
    let a = render(template, &data, &table).unwrap();
    let b = modify_paragraphs_in_xml(template, &data, &table).unwrap();
    assert_eq!(a, "<w:p>V</w:p>");
    assert_eq!(a, b);
}
