use roblox_slang::overrides::{
    merge_translations, overrides_from_yaml, YamlLocaleBlock, YamlOverrides, YamlScalar,
};
use roblox_slang::translation::Translation;

fn tr(key: &str, value: &str, locale: &str) -> Translation {
    Translation {
        key: key.to_string(),
        value: value.to_string(),
        locale: locale.to_string(),
        context: None,
    }
}

fn s(text: &str) -> YamlScalar {
    YamlScalar::Str(text.to_string())
}

#[test]
fn test_merge_translations() {
    let main = vec![tr("ui.buttons.buy", "Buy", "en"), tr("ui.buttons.sell", "Sell", "en")];

    let overrides = vec![tr("ui.buttons.buy", "Purchase Now!", "en")];

    let merged = merge_translations(main, overrides);

    assert_eq!(merged.len(), 2);
    let buy_trans = merged.iter().find(|t| t.key == "ui.buttons.buy").unwrap();
    assert_eq!(buy_trans.value, "Purchase Now!");
    let sell_trans = merged.iter().find(|t| t.key == "ui.buttons.sell").unwrap();
    assert_eq!(sell_trans.value, "Sell");
}

#[test]
fn merge_translations_without_overrides_keeps_main() {
    let main = vec![tr("a", "A", "en"), tr("b", "B", "en")];
    let merged = merge_translations(main.clone(), Vec::new());
    assert_eq!(merged, main);
}

#[test]
fn merge_translations_last_override_wins_and_new_pairs_are_appended() {
    let main = vec![tr("a", "A", "en"), tr("a", "A-id", "id")];
    let overrides = vec![
        tr("new", "N1", "en"),
        tr("a", "first", "en"),
        tr("a", "second", "en"),
        tr("new", "N2", "en"),
        tr("other", "O", "id"),
    ];
    let merged = merge_translations(main, overrides);
    assert_eq!(
        merged,
        vec![
            tr("a", "second", "en"),
            tr("a", "A-id", "id"),
            tr("new", "N2", "en"),
            tr("other", "O", "id"),
        ]
    );
}

#[test]
fn overrides_from_yaml_reads_string_pairs_per_locale() {
    let doc = YamlOverrides::Mapping(vec![
        (
            s("en"),
            YamlLocaleBlock::Mapping(vec![
                (s("ui.buttons.buy"), s("Purchase Now!")),
                (s("ui.messages.greeting"), s("Hey, {name}!")),
                (s("ui.count"), YamlScalar::NonString),
            ]),
        ),
        (YamlScalar::NonString, YamlLocaleBlock::Mapping(vec![(s("x"), s("y"))])),
        (s("id"), YamlLocaleBlock::Mapping(vec![(s("ui.buttons.buy"), s("Beli Sekarang!"))])),
        (s("es"), YamlLocaleBlock::NotMapping),
    ]);
    let translations = overrides_from_yaml(&doc);
    assert_eq!(
        translations,
        vec![
            tr("ui.buttons.buy", "Purchase Now!", "en"),
            tr("ui.messages.greeting", "Hey, {name}!", "en"),
            tr("ui.buttons.buy", "Beli Sekarang!", "id"),
        ]
    );
}

#[test]
fn overrides_from_yaml_of_non_mapping_is_empty() {
    assert!(overrides_from_yaml(&YamlOverrides::NotMapping).is_empty());
}
