use roblox_slang::csv_table::{generate_csv, parse_csv};
use roblox_slang::translation::Translation;

fn tr(key: &str, value: &str, locale: &str, context: Option<&str>) -> Translation {
    Translation {
        key: key.to_string(),
        value: value.to_string(),
        locale: locale.to_string(),
        context: context.map(|c| c.to_string()),
    }
}

#[test]
fn test_generate_csv() {
    let translations = vec![tr("ui.button", "Buy", "en", None), tr("ui.button", "Beli", "id", None)];

    let csv = generate_csv(&translations, "en", &["en".to_string(), "id".to_string()]).unwrap();

    assert!(csv.contains("Source,Context,Key,en,id"));
    assert!(csv.contains("Buy"));
    assert!(csv.contains("Beli"));
}

#[test]
fn test_generate_csv_with_context() {
    let translations = vec![
        tr("ui.button", "Buy", "en", Some("Purchase button")),
        tr("ui.button", "Beli", "id", Some("Purchase button")),
    ];

    let csv = generate_csv(&translations, "en", &["en".to_string(), "id".to_string()]).unwrap();

    assert!(csv.contains("Purchase button"));
}

#[test]
fn test_generate_csv_missing_locale() {
    let translations = vec![tr("ui.button", "Buy", "en", None)];

    let csv = generate_csv(
        &translations,
        "en",
        &["en".to_string(), "id".to_string(), "es".to_string()],
    )
    .unwrap();
    assert!(csv.contains("Buy"));
}

#[test]
fn test_generate_csv_sorted_keys() {
    let translations = vec![
        tr("z.key", "Z", "en", None),
        tr("a.key", "A", "en", None),
        tr("m.key", "M", "en", None),
    ];

    let csv = generate_csv(&translations, "en", &["en".to_string()]).unwrap();
    let lines: Vec<&str> = csv.lines().collect();
    assert!(lines[1].contains("a.key"));
    assert!(lines[2].contains("m.key"));
    assert!(lines[3].contains("z.key"));
}

#[test]
fn test_generate_csv_special_characters() {
    let translations = vec![tr("ui.message", "Hello, \"World\"!\nNew line", "en", None)];

    let csv = generate_csv(&translations, "en", &["en".to_string()]).unwrap();
    assert!(csv.contains("\"Hello, \"\"World\"\"!\nNew line\""));
}

#[test]
fn test_parse_csv() {
    let csv_content = r#"Source,Context,Key,en,id
"Buy","","ui.button","Buy","Beli"
"Sell","","ui.sell","Sell","Jual"
"#;

    let translations = parse_csv(csv_content).unwrap();

    assert_eq!(translations.len(), 4);
    assert!(translations
        .iter()
        .any(|t| t.key == "ui.button" && t.locale == "en" && t.value == "Buy"));
    assert!(translations
        .iter()
        .any(|t| t.key == "ui.button" && t.locale == "id" && t.value == "Beli"));
}

#[test]
fn test_parse_csv_empty_file() {
    let csv_content = "";
    let result = parse_csv(csv_content);
    assert!(result.is_err());
}

#[test]
fn test_parse_csv_invalid_header() {
    let csv_content = "Source,Context\n";
    let result = parse_csv(csv_content);
    assert!(result.is_err());
}

#[test]
fn test_parse_csv_empty_cells() {
    let csv_content = r#"Source,Context,Key,en,id
"Buy","","ui.button","Buy",""
"#;

    let translations = parse_csv(csv_content).unwrap();
    assert_eq!(translations.len(), 1);
    assert_eq!(translations[0].locale, "en");
}

#[test]
fn test_parse_csv_with_context() {
    let csv_content = r#"Source,Context,Key,en
"Buy","Purchase button","ui.button","Buy"
"#;

    let translations = parse_csv(csv_content).unwrap();

    assert_eq!(translations.len(), 1);
    assert_eq!(translations[0].context, Some("Purchase button".to_string()));
}

#[test]
fn test_parse_csv_skip_empty_lines() {
    let csv_content = r#"Source,Context,Key,en

"Buy","","ui.button","Buy"

"#;

    let translations = parse_csv(csv_content).unwrap();

    assert_eq!(translations.len(), 1);
}

#[test]
fn test_parse_csv_multiline_field() {
    let csv_content =
        "Source,Context,Key,en\n\"Line 1\nLine 2\",\"\",\"ui.message\",\"Line 1\nLine 2\"\n";

    let translations = parse_csv(csv_content).unwrap();

    assert_eq!(translations.len(), 1);
    assert_eq!(translations[0].value, "Line 1\nLine 2");
}

#[test]
fn test_roundtrip_csv() {
    let original_translations =
        vec![tr("ui.button", "Buy", "en", None), tr("ui.button", "Beli", "id", None)];
    let csv = generate_csv(
        &original_translations,
        "en",
        &["en".to_string(), "id".to_string()],
    )
    .unwrap();
    let parsed_translations = parse_csv(&csv).unwrap();
    assert_eq!(parsed_translations.len(), original_translations.len());
    for original in &original_translations {
        assert!(parsed_translations.iter().any(|parsed| {
            parsed.key == original.key
                && parsed.value == original.value
                && parsed.locale == original.locale
        }));
    }
}

#[test]
fn csv_exact_text_for_two_locales() {
    let translations = vec![tr("ui.button", "Buy", "en", None), tr("ui.button", "Beli", "id", None)];
    let csv = generate_csv(&translations, "en", &["en".to_string(), "id".to_string()]).unwrap();
    assert_eq!(csv, "Source,Context,Key,en,id\nBuy,,ui.button,Buy,Beli\n");
}

#[test]
fn csv_source_falls_back_to_empty_without_base_value() {
    let translations = vec![tr("ui.button", "Beli", "id", None)];
    let csv = generate_csv(&translations, "en", &["en".to_string(), "id".to_string()]).unwrap();
    assert_eq!(csv, "Source,Context,Key,en,id\n,,ui.button,,Beli\n");
}

#[test]
fn csv_parse_error_variants() {
    assert!(matches!(parse_csv(""), Err(roblox_slang::csv_table::CsvError::Empty)));
    assert!(matches!(
        parse_csv("Source,Context\n"),
        Err(roblox_slang::csv_table::CsvError::InvalidHeader)
    ));
}

#[test]
fn csv_parse_keeps_rows_with_empty_key() {
    let translations = parse_csv("Source,Context,Key,en\n\"x\",\"\",\"\",\"v\"\n").unwrap();
    assert_eq!(translations.len(), 1);
    assert_eq!(translations[0].key, "");
    assert_eq!(translations[0].value, "v");
}

#[test]
fn csv_special_fields_read_back_as_written() {
    let ts = vec![
        tr("a.quote", "say \"hi\", then\nleave", "en", Some("x,y")),
        tr("a.quote", "Grüße\r", "de", Some("x,y")),
        tr("b.empty", "", "en", None),
    ];
    let locales = vec!["en".to_string(), "de".to_string()];
    let csv = generate_csv(&ts, "en", &locales).unwrap();
    let back = parse_csv(&csv).unwrap();
    assert_eq!(back.len(), 2);
    assert!(back.iter().any(|t| t.key == "a.quote"
        && t.locale == "en"
        && t.value == "say \"hi\", then\nleave"
        && t.context.as_deref() == Some("x,y")));
    assert!(back.iter().any(|t| t.key == "a.quote" && t.locale == "de" && t.value == "Grüße\r"));
}

#[test]
fn csv_quotes_fields_that_need_it() {
    let ts = vec![tr("k", "a\"b", "en", None), tr("k", "x,y", "de", None)];
    let locales = vec!["en".to_string(), "de".to_string()];
    let csv = generate_csv(&ts, "en", &locales).unwrap();
    assert_eq!(csv, "Source,Context,Key,en,de\n\"a\"\"b\",,k,\"a\"\"b\",\"x,y\"\n");
}
