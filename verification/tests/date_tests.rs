use wordreplace::date::format_date_with_locale;
use wordreplace::engine::replace_keywords;
use wordreplace::locale::LocaleTable;
use wordreplace::value::Value;

fn pt_table() -> LocaleTable {
    LocaleTable {
        months: vec![
            (1, "janeiro".to_string()),
            (5, "maio".to_string()),
            (6, "junho".to_string()),
        ],
        preposition: "de".to_string(),
        bool_true: "Verdadeiro".to_string(),
        bool_false: "Falso".to_string(),
    }
}

#[test]
fn short_style_formats_dd_mm_yyyy() {
    let out = format_date_with_locale("1990-05-15", "short", &pt_table());
    assert_eq!(out, "15/05/1990");
}

#[test]
fn long_style_uses_month_name_and_preposition() {
    let out = format_date_with_locale("2024-06-01", "long", &pt_table());
    assert_eq!(out, "1 de junho de 2024");
}

#[test]
fn long_style_without_month_entry_falls_back_to_short() {
    let out = format_date_with_locale("2024-03-02", "long", &pt_table());
    assert_eq!(out, "02/03/2024");
}

#[test]
fn unknown_style_renders_short() {
    let out = format_date_with_locale("1990-05-15", "medium", &pt_table());
    assert_eq!(out, "15/05/1990");
}

#[test]
fn every_candidate_layout_is_accepted() {
    let t = pt_table();
    assert_eq!(format_date_with_locale("1990-05-15", "short", &t), "15/05/1990");
    assert_eq!(format_date_with_locale("1990/05/15", "short", &t), "15/05/1990");
    assert_eq!(format_date_with_locale("15-05-1990", "short", &t), "15/05/1990");
    assert_eq!(format_date_with_locale("15/05/1990", "short", &t), "15/05/1990");
}

#[test]
fn unparseable_date_passes_through() {
    let t = pt_table();
    assert_eq!(format_date_with_locale("not a date", "short", &t), "not a date");
    assert_eq!(format_date_with_locale("2015-02-30", "short", &t), "2015-02-30");
}

#[test]
fn test_substitute_variable_with_object_and_date() {
    let data = Value::Object(vec![
        (
            "partes".to_string(),
            Value::Object(vec![(
                "requerente".to_string(),
                Value::Object(vec![
                    ("nome".to_string(), Value::Text("João Silva".to_string())),
                    (
                        "data_nascimento".to_string(),
                        Value::Text("1990-05-15".to_string()),
                    ),
                ]),
            )]),
        ),
        (
            "data_registro".to_string(),
            Value::Text("2024-06-01".to_string()),
        ),
    ]);
    let template = "${partes.requerente.nome} ${partes.requerente.data_nascimento|date:short} \
        ${data_registro|date:long}";
    let result = replace_keywords(template, &data, &pt_table());
    println!("Resultado: {:?}", result);
    assert!(result.contains("João Silva"));
    assert!(result.contains("15/05/1990"));
    assert!(result.contains("1 de junho de 2024"));
}

#[test]
fn long_date_in_may() {
    let data = Value::Object(vec![("d".to_string(), Value::Text("1990-05-15".to_string()))]);
    assert_eq!(
        replace_keywords("${d|date:long}", &data, &pt_table()),
        "15 de maio de 1990"
    );
    assert_eq!(
        replace_keywords("${d|date:short}", &data, &pt_table()),
        "15/05/1990"
    );
}

#[test]
fn string_without_date_directive_is_verbatim() {
    let data = Value::Object(vec![("d".to_string(), Value::Text("1990-05-15".to_string()))]);
    assert_eq!(
        replace_keywords("${d}", &data, &pt_table()),
        "1990-05-15"
    );
}
