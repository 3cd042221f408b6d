use roblox_slang::coverage::{generate_coverage_report, CoverageInfo};
use roblox_slang::translation::Translation;

fn tr(key: &str, value: &str, locale: &str) -> Translation {
    Translation {
        key: key.to_string(),
        value: value.to_string(),
        locale: locale.to_string(),
        context: None,
    }
}

fn coverage_percent(info: &CoverageInfo) -> f64 {
    if info.total_keys > 0 {
        (info.translated_keys as f64 / info.total_keys as f64) * 100.0
    } else {
        100.0
    }
}

fn entry<'a>(report: &'a [(String, CoverageInfo)], locale: &str) -> &'a CoverageInfo {
    &report.iter().find(|(l, _)| l == locale).unwrap().1
}

#[test]
fn test_generate_coverage_report() {
    let translations = vec![
        tr("ui.button", "Buy", "en"),
        tr("ui.label", "Welcome", "en"),
        tr("ui.button", "Beli", "id"),
    ];

    let supported_locales = vec!["en".to_string(), "id".to_string()];
    let coverage = generate_coverage_report(&translations, "en", &supported_locales);

    assert_eq!(coverage.len(), 2);
    assert_eq!(coverage_percent(entry(&coverage, "en")), 100.0);
    assert_eq!(entry(&coverage, "en").translated_keys, 2);
    assert_eq!(entry(&coverage, "en").missing_keys.len(), 0);
    assert_eq!(coverage_percent(entry(&coverage, "id")), 50.0);
    assert_eq!(entry(&coverage, "id").translated_keys, 1);
    assert_eq!(entry(&coverage, "id").missing_keys.len(), 1);
}

#[test]
fn test_coverage_ignores_extra_keys_in_percent() {
    let translations = vec![
        tr("ui.button", "Buy", "en"),
        tr("ui.button", "Beli", "id"),
        tr("ui.extra", "Extra", "id"),
    ];

    let supported_locales = vec!["en".to_string(), "id".to_string()];
    let coverage = generate_coverage_report(&translations, "en", &supported_locales);

    assert_eq!(coverage_percent(entry(&coverage, "id")), 100.0);
    assert_eq!(entry(&coverage, "id").translated_keys, 1);
    assert_eq!(entry(&coverage, "id").extra_keys, vec!["ui.extra"]);
}

#[test]
fn coverage_report_is_sorted_by_locale_without_repeats() {
    let translations = vec![tr("b", "B", "en"), tr("a", "A", "en"), tr("a", "A", "es")];
    let supported = vec!["id".to_string(), "en".to_string(), "es".to_string(), "en".to_string()];
    let report = generate_coverage_report(&translations, "en", &supported);
    let locales: Vec<&str> = report.iter().map(|(l, _)| l.as_str()).collect();
    assert_eq!(locales, vec!["en", "es", "id"]);
    let id = entry(&report, "id");
    assert_eq!(id.total_keys, 2);
    assert_eq!(id.translated_keys, 0);
    assert_eq!(id.missing_keys, vec!["a", "b"]);
    let es = entry(&report, "es");
    assert_eq!(es.missing_keys, vec!["b"]);
    assert_eq!(es.translated_keys + es.missing_keys.len(), es.total_keys);
}

#[test]
fn coverage_without_base_keys_is_full() {
    let translations = vec![tr("a", "A", "id")];
    let report = generate_coverage_report(&translations, "en", &vec!["id".to_string()]);
    let id = entry(&report, "id");
    assert_eq!(id.total_keys, 0);
    assert_eq!(coverage_percent(id), 100.0);
    assert_eq!(id.extra_keys, vec!["a"]);
}
