use roblox_slang::locales::{get_roblox_locales, get_supported_locale_codes, is_roblox_locale};

#[test]
fn test_get_roblox_locales() {
    let locales = get_roblox_locales();
    assert_eq!(locales.len(), 17);
}

#[test]
fn test_is_roblox_locale() {
    assert!(is_roblox_locale("en"));
    assert!(is_roblox_locale("id"));
    assert!(is_roblox_locale("zh-cn"));
    assert!(!is_roblox_locale("xx"));
}

#[test]
fn test_get_supported_locale_codes() {
    let codes = get_supported_locale_codes();
    assert_eq!(codes.len(), 17);
    assert!(codes.contains(&"en"));
    assert!(codes.contains(&"id"));
}

#[test]
fn locale_table_entries_agree() {
    let locales = get_roblox_locales();
    let codes = get_supported_locale_codes();
    for (info, code) in locales.iter().zip(codes.iter()) {
        assert_eq!(info.code, *code);
        assert!(is_roblox_locale(code));
    }
    assert_eq!(locales[0].code, "en");
    assert!(!is_roblox_locale("EN"));
    assert!(!is_roblox_locale(""));
}
