use roblox_slang::merge::{Conflict, MergeStrategy};
use roblox_slang::sync::{
    count_locale_files, locale_file_contents, plan_download, plan_sync, plan_upload,
};
use roblox_slang::sync::{
    conflicts_yaml, entries_to_translations, group_by_locale, merge_locale_translations,
    translations_to_entries, translations_to_map, triples_to_translations, upload_batches,
    ApiTranslation, Identifier, LocalizationEntry, BATCH_SIZE,
};
use roblox_slang::translation::Translation;

fn tr(key: &str, locale: &str, value: &str, context: Option<&str>) -> Translation {
    Translation {
        key: key.to_string(),
        locale: locale.to_string(),
        value: value.to_string(),
        context: context.map(|c| c.to_string()),
    }
}

#[test]
fn test_translations_to_map() {
    let translations = vec![
        tr("ui.button", "en", "Buy", None),
        tr("ui.button", "id", "Beli", None),
    ];

    let map = translations_to_map(&translations);

    assert_eq!(map.len(), 2);
    assert_eq!(map.get("ui.button", "en"), Some(&"Buy".to_string()));
    assert_eq!(map.get("ui.button", "id"), Some(&"Beli".to_string()));
}

#[test]
fn test_translations_to_entries() {
    let translations = vec![
        tr("ui.button", "en", "Buy", None),
        tr("ui.button", "es", "Comprar", None),
    ];

    let entries = translations_to_entries(&translations, "en");

    assert_eq!(entries.len(), 1);
    assert_eq!(entries[0].identifier.key, "ui.button");
    assert_eq!(entries[0].identifier.source, "Buy");
    assert_eq!(entries[0].translations.len(), 2);
}

#[test]
fn test_translations_to_entries_with_context() {
    let translations = vec![tr("ui.button", "en", "Buy", Some("shop"))];

    let entries = translations_to_entries(&translations, "en");

    assert_eq!(entries.len(), 1);
    assert_eq!(entries[0].identifier.context, Some("shop".to_string()));
}

#[test]
fn test_entries_to_translations() {
    let entries = vec![LocalizationEntry {
        identifier: Identifier {
            key: "ui.button".to_string(),
            context: None,
            source: "Buy".to_string(),
        },
        metadata: None,
        translations: vec![ApiTranslation {
            locale: "es".to_string(),
            translation_text: "Comprar".to_string(),
        }],
    }];

    let translations = entries_to_translations(&entries, "en");
    assert_eq!(translations.len(), 2);
    assert_eq!(translations[0].key, "ui.button");
    assert_eq!(translations[0].locale, "en");
    assert_eq!(translations[0].value, "Buy");
    assert_eq!(translations[1].key, "ui.button");
    assert_eq!(translations[1].locale, "es");
    assert_eq!(translations[1].value, "Comprar");
}

#[test]
fn test_entries_to_translations_multiple_locales() {
    let entries = vec![LocalizationEntry {
        identifier: Identifier {
            key: "greeting".to_string(),
            context: None,
            source: "Hello".to_string(),
        },
        metadata: None,
        translations: vec![
            ApiTranslation {
                locale: "es".to_string(),
                translation_text: "Hola".to_string(),
            },
            ApiTranslation {
                locale: "id".to_string(),
                translation_text: "Halo".to_string(),
            },
        ],
    }];

    let translations = entries_to_translations(&entries, "en");
    assert_eq!(translations.len(), 3);
    let en_translation = translations.iter().find(|t| t.locale == "en").unwrap();
    assert_eq!(en_translation.value, "Hello");
    let es_translation = translations.iter().find(|t| t.locale == "es").unwrap();
    assert_eq!(es_translation.value, "Hola");
    let id_translation = translations.iter().find(|t| t.locale == "id").unwrap();
    assert_eq!(id_translation.value, "Halo");
}

#[test]
fn test_entries_to_translations_with_context() {
    let entries = vec![LocalizationEntry {
        identifier: Identifier {
            key: "ui.button".to_string(),
            context: Some("shop".to_string()),
            source: "Buy".to_string(),
        },
        metadata: None,
        translations: vec![ApiTranslation {
            locale: "es".to_string(),
            translation_text: "Comprar".to_string(),
        }],
    }];

    let translations = entries_to_translations(&entries, "en");
    for translation in &translations {
        assert_eq!(translation.context, Some("shop".to_string()));
    }
}

#[test]
fn test_translations_to_map_empty() {
    let translations = vec![];
    let map = translations_to_map(&translations);

    assert_eq!(map.len(), 0);
}

#[test]
fn test_translations_to_map_multiple_keys() {
    let translations = vec![
        tr("ui.button", "en", "Buy", None),
        tr("ui.title", "en", "Shop", None),
        tr("ui.button", "es", "Comprar", None),
    ];

    let map = translations_to_map(&translations);

    assert_eq!(map.len(), 3);
    assert_eq!(map.get("ui.button", "en"), Some(&"Buy".to_string()));
    assert_eq!(map.get("ui.title", "en"), Some(&"Shop".to_string()));
    assert_eq!(map.get("ui.button", "es"), Some(&"Comprar".to_string()));
}

#[test]
fn test_merge_locale_translations_preserves_local_keys() {
    let existing = vec![
        tr("greeting", "en", "Hello", None),
        tr("farewell", "en", "Goodbye", None),
    ];
    let incoming = vec![tr("greeting", "en", "Hi there", None)];

    let merged = merge_locale_translations(existing, &incoming);

    assert_eq!(merged.len(), 2, "must preserve both keys");
    assert_eq!(
        merged.iter().find(|t| t.key == "greeting").unwrap().value,
        "Hi there",
        "greeting must be updated"
    );
    assert_eq!(
        merged.iter().find(|t| t.key == "farewell").unwrap().value,
        "Goodbye",
        "farewell must be preserved"
    );
}

#[test]
fn test_merge_locale_translations_adds_new_keys() {
    let existing = vec![tr("greeting", "en", "Hello", None)];

    let incoming = vec![tr("new_key", "en", "New Value", Some("added by cloud"))];

    let merged = merge_locale_translations(existing, &incoming);

    assert_eq!(merged.len(), 2);
    let new = merged.iter().find(|t| t.key == "new_key").unwrap();
    assert_eq!(new.value, "New Value");
    assert_eq!(new.context, Some("added by cloud".to_string()));
}

#[test]
fn test_merge_locale_translations_empty_existing() {
    let existing = vec![];

    let incoming = vec![tr("greeting", "en", "Hello", None)];

    let merged = merge_locale_translations(existing, &incoming);
    assert_eq!(merged.len(), 1);
    assert_eq!(merged[0].key, "greeting");
}

#[test]
fn test_merge_locale_translations_empty_incoming() {
    let existing = vec![tr("greeting", "en", "Hello", None)];

    let incoming: Vec<Translation> = vec![];

    let merged = merge_locale_translations(existing, &incoming);
    assert_eq!(merged.len(), 1);
    assert_eq!(merged[0].value, "Hello");
}

#[test]
fn merge_locale_updates_first_match_with_last_incoming() {
    let existing = vec![tr("k", "en", "old", Some("c")), tr("k", "en", "dup", None)];
    let incoming = vec![tr("k", "en", "one", None), tr("k", "en", "two", Some("d"))];
    let merged = merge_locale_translations(existing, &incoming);
    assert_eq!(merged, vec![tr("k", "en", "two", Some("d")), tr("k", "en", "dup", None)]);
}

#[test]
fn translations_to_map_keeps_the_later_value() {
    let translations = vec![tr("k", "en", "first", None), tr("k", "en", "second", None)];
    let map = translations_to_map(&translations);
    assert_eq!(map.len(), 1);
    assert_eq!(map.get("k", "en"), Some(&"second".to_string()));
}

#[test]
fn translations_to_entries_groups_keys_in_first_order() {
    let translations = vec![
        tr("b", "id", "B-id", Some("ctx")),
        tr("a", "en", "A", None),
        tr("b", "en", "B", None),
    ];
    let entries = translations_to_entries(&translations, "en");
    assert_eq!(entries.len(), 2);
    assert_eq!(entries[0].identifier.key, "b");
    assert_eq!(entries[0].identifier.source, "B");
    assert_eq!(entries[0].identifier.context, Some("ctx".to_string()));
    assert_eq!(
        entries[0].translations,
        vec![
            ApiTranslation { locale: "id".to_string(), translation_text: "B-id".to_string() },
            ApiTranslation { locale: "en".to_string(), translation_text: "B".to_string() },
        ]
    );
    let metadata = entries[0].metadata.as_ref().unwrap();
    assert_eq!(metadata.entry_type, Some("manual".to_string()));
    assert_eq!(metadata.example, None);
    assert_eq!(entries[1].identifier.key, "a");
}

#[test]
fn translations_to_entries_source_falls_back_to_first_value() {
    let translations = vec![tr("k", "id", "Halo", None), tr("k", "es", "Hola", None)];
    let entries = translations_to_entries(&translations, "en");
    assert_eq!(entries[0].identifier.source, "Halo");
}

#[test]
fn group_by_locale_in_first_order() {
    let translations = vec![
        tr("a", "id", "1", None),
        tr("b", "en", "2", None),
        tr("c", "id", "3", None),
    ];
    let groups = group_by_locale(&translations);
    assert_eq!(groups.len(), 2);
    assert_eq!(groups[0].0, "id");
    assert_eq!(groups[0].1, vec![tr("a", "id", "1", None), tr("c", "id", "3", None)]);
    assert_eq!(groups[1].0, "en");
    assert_eq!(groups[1].1, vec![tr("b", "en", "2", None)]);
}

#[test]
fn upload_batches_of_twenty() {
    assert_eq!(BATCH_SIZE, 20);
    assert_eq!(upload_batches(0), vec![]);
    assert_eq!(upload_batches(20), vec![(0, 20)]);
    assert_eq!(upload_batches(25), vec![(0, 20), (20, 25)]);
    assert_eq!(upload_batches(41), vec![(0, 20), (20, 40), (40, 41)]);
}

#[test]
fn conflicts_yaml_groups_by_locale() {
    let c = |k: &str, l: &str, a: &str, b: &str| Conflict {
        key: k.to_string(),
        locale: l.to_string(),
        local_value: a.to_string(),
        cloud_value: b.to_string(),
    };
    let text = conflicts_yaml(&vec![
        c("ui.buy", "en", "Buy", "Purchase"),
        c("ui.buy", "id", "Beli", "Membeli"),
        c("ui.sell", "en", "Sell", "Vend"),
    ]);
    assert_eq!(
        text,
        "# Translation Conflicts\n# Resolve these conflicts manually\n\nen:\n  ui.buy:\n    local: \"Buy\"\n    cloud: \"Purchase\"\n  ui.sell:\n    local: \"Sell\"\n    cloud: \"Vend\"\n\nid:\n  ui.buy:\n    local: \"Beli\"\n    cloud: \"Membeli\"\n\n"
    );
    assert_eq!(
        conflicts_yaml(&vec![]),
        "# Translation Conflicts\n# Resolve these conflicts manually\n\n"
    );
}

#[test]
fn triples_become_translations_without_context() {
    let triples = vec![("k".to_string(), "en".to_string(), "v".to_string())];
    assert_eq!(triples_to_translations(&triples), vec![tr("k", "en", "v", None)]);
}

fn entry(key: &str, source: &str, others: &[(&str, &str)]) -> LocalizationEntry {
    LocalizationEntry {
        identifier: Identifier {
            key: key.to_string(),
            context: None,
            source: source.to_string(),
        },
        metadata: None,
        translations: others
            .iter()
            .map(|(l, t)| ApiTranslation { locale: l.to_string(), translation_text: t.to_string() })
            .collect(),
    }
}

#[test]
fn plan_sync_with_each_strategy() {
    let local = vec![
        tr("ui.buy", "en", "Buy", None),
        tr("ui.sell", "en", "Sell", None),
    ];
    let cloud = vec![entry("ui.buy", "Purchase", &[]), entry("ui.cancel", "Cancel", &[("id", "Batal")])];

    let merge = plan_sync(&local, &cloud, "en", MergeStrategy::Merge, false);
    assert_eq!(merge.entries_added, 1);
    assert_eq!(merge.entries_updated, 3);
    assert_eq!(merge.entries_deleted, 0);
    assert_eq!(merge.conflicts_skipped, 0);
    assert_eq!(merge.upload_entries.len(), 1);
    assert_eq!(merge.upload_entries[0].identifier.key, "ui.sell");
    assert_eq!(merge.downloads.len(), 2);
    assert_eq!(merge.downloads[0].0, "en");
    assert_eq!(
        merge.downloads[0].1,
        vec![tr("ui.cancel", "en", "Cancel", None), tr("ui.buy", "en", "Purchase", None)]
    );
    assert_eq!(merge.downloads[1].0, "id");
    assert_eq!(merge.downloads[1].1, vec![tr("ui.cancel", "id", "Batal", None)]);

    let skip = plan_sync(&local, &cloud, "en", MergeStrategy::SkipConflicts, false);
    assert_eq!(skip.entries_updated, 2);
    assert_eq!(skip.conflicts_skipped, 1);
    assert_eq!(skip.conflicts[0].key, "ui.buy");
    assert_eq!(skip.conflicts[0].local_value, "Buy");
    assert_eq!(skip.conflicts[0].cloud_value, "Purchase");

    let overwrite = plan_sync(&local, &cloud, "en", MergeStrategy::Overwrite, false);
    assert_eq!(overwrite.entries_added, 2);
    assert_eq!(overwrite.entries_updated, 0);
    assert!(overwrite.downloads.is_empty());
    assert_eq!(overwrite.upload_entries.len(), 2);
}

#[test]
fn upload_then_download_gives_the_table_back() {
    let translations = vec![
        tr("ui.buy", "id", "Beli", None),
        tr("ui.buy", "en", "Buy", Some("shop")),
        tr("ui.sell", "en", "Sell", None),
        tr("ui.sell", "es", "Vender", None),
    ];
    let entries = translations_to_entries(&translations, "en");
    let back = entries_to_translations(&entries, "en");
    let before = translations_to_map(&translations);
    let after = translations_to_map(&back);
    assert_eq!(before.len(), after.len());
    for (k, l, v) in before.entries() {
        assert_eq!(after.get(k, l), Some(v));
    }
}

#[test]
fn test_sync_uploads_entries_in_batches() {
    let local: Vec<Translation> = (0..25)
        .map(|i| tr(&format!("key{}", i), "en", &format!("Value {}", i), None))
        .collect();
    let plan = plan_sync(&local, &vec![], "en", MergeStrategy::Merge, false);
    assert_eq!(plan.entries_added, 25);
    assert_eq!(plan.upload_entries.len(), 25);
    assert_eq!(plan.upload_batches, vec![(0, 20), (20, 25)]);
    let mut keys: Vec<String> = plan
        .upload_batches
        .iter()
        .flat_map(|&(from, to)| plan.upload_entries[from..to].iter())
        .map(|e| e.identifier.key.clone())
        .collect();
    keys.sort();
    let mut expected: Vec<String> = (0..25).map(|i| format!("key{}", i)).collect();
    expected.sort();
    assert_eq!(keys, expected);
}

#[test]
fn download_counts_created_and_updated_files() {
    assert_eq!(count_locale_files(&vec![]), (0, 0));
    assert_eq!(count_locale_files(&vec![true, false, true, true]), (1, 3));
    assert_eq!(count_locale_files(&vec![false, false]), (2, 0));
}

#[test]
fn sync_dry_run_sends_and_writes_nothing() {
    let local = vec![
        tr("ui.buy", "en", "Buy", None),
        tr("ui.sell", "en", "Sell", None),
    ];
    let cloud = vec![entry("ui.buy", "Purchase", &[]), entry("ui.cancel", "Cancel", &[("id", "Batal")])];
    let dry = plan_sync(&local, &cloud, "en", MergeStrategy::SkipConflicts, true);
    assert_eq!(dry.entries_added, 1);
    assert_eq!(dry.entries_updated, 2);
    assert_eq!(dry.conflicts_skipped, 1);
    assert!(dry.upload_batches.is_empty());
    assert!(dry.downloads.is_empty());
    assert!(dry.conflicts_file.is_none());

    let wet = plan_sync(&local, &cloud, "en", MergeStrategy::SkipConflicts, false);
    assert_eq!(wet.upload_batches, vec![(0, 1)]);
    assert_eq!(wet.downloads.len(), 2);
    let report = wet.conflicts_file.unwrap();
    assert!(report.contains("ui.buy"));
    assert!(report.contains("Purchase"));
}

#[test]
fn sync_keeps_existing_keys_of_a_locale_file() {
    let existing = vec![tr("a", "en", "A", None), tr("b", "en", "B", None)];
    let incoming = vec![tr("b", "en", "B2", None), tr("c", "en", "C", None)];
    let merged = locale_file_contents(Some(existing), &incoming);
    assert_eq!(
        merged,
        vec![tr("a", "en", "A", None), tr("b", "en", "B2", None), tr("c", "en", "C", None)]
    );
    assert_eq!(locale_file_contents(None, &incoming), incoming);
}

#[test]
fn download_plan_groups_by_locale() {
    let cloud = vec![entry("ui.buy", "Buy", &[("id", "Beli")]), entry("ui.sell", "Sell", &[])];
    let plan = plan_download(&cloud, "en", false);
    assert_eq!(plan.entries_downloaded, 2);
    assert_eq!(plan.locales, vec!["en".to_string(), "id".to_string()]);
    assert_eq!(plan.writes.len(), 2);
    assert_eq!(plan.writes[0].1, vec![tr("ui.buy", "en", "Buy", None), tr("ui.sell", "en", "Sell", None)]);
    assert_eq!(plan.writes[1].1, vec![tr("ui.buy", "id", "Beli", None)]);
    let dry = plan_download(&cloud, "en", true);
    assert_eq!(dry.locales, plan.locales);
    assert!(dry.writes.is_empty());
}

#[test]
fn upload_plan_counts_and_batches() {
    let local: Vec<Translation> = (0..45)
        .map(|i| tr(&format!("key{}", i), if i % 2 == 0 { "en" } else { "de" }, "v", None))
        .collect();
    let plan = plan_upload(&local, "en", false);
    assert_eq!(plan.entries_uploaded, 45);
    assert_eq!(plan.locales_processed, 2);
    assert_eq!(plan.entries.len(), 45);
    assert_eq!(plan.batches, vec![(0, 20), (20, 40), (40, 45)]);
    let dry = plan_upload(&local, "en", true);
    assert_eq!(dry.entries_uploaded, 45);
    assert_eq!(dry.locales_processed, 2);
    assert!(dry.batches.is_empty());
    assert!(dry.entries.is_empty());
}
