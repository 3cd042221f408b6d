use roblox_slang::translation::Translation;

#[test]
fn test_translation_creation() {
    let translation = Translation {
        key: "ui.button".to_string(),
        value: "Buy".to_string(),
        locale: "en".to_string(),
        context: None,
    };

    assert_eq!(translation.key, "ui.button");
    assert_eq!(translation.value, "Buy");
    assert_eq!(translation.locale, "en");
    assert!(translation.context.is_none());
}

#[test]
fn test_translation_with_context() {
    let translation = Translation {
        key: "common.close".to_string(),
        value: "Close".to_string(),
        locale: "en".to_string(),
        context: Some("button".to_string()),
    };

    assert_eq!(translation.context, Some("button".to_string()));
}

#[test]
fn test_translation_clone() {
    let translation = Translation {
        key: "test.key".to_string(),
        value: "Test Value".to_string(),
        locale: "en".to_string(),
        context: None,
    };

    let cloned = translation.clone();
    assert_eq!(translation, cloned);
}

#[test]
fn test_translation_equality() {
    let t1 = Translation {
        key: "key".to_string(),
        value: "value".to_string(),
        locale: "en".to_string(),
        context: None,
    };

    let t2 = Translation {
        key: "key".to_string(),
        value: "value".to_string(),
        locale: "en".to_string(),
        context: None,
    };

    assert_eq!(t1, t2);
}

#[test]
fn translation_new_and_copy_keep_every_field() {
    let t = Translation::new(
        "k".to_string(),
        "v".to_string(),
        "id".to_string(),
        Some("c".to_string()),
    );
    assert_eq!(t.key, "k");
    assert_eq!(t.value, "v");
    assert_eq!(t.locale, "id");
    assert_eq!(t.context, Some("c".to_string()));
    assert_eq!(t.copy(), t);
}
