use roblox_slang::validation::{
    check_namespace, validate_config, validate_directory_exists, validate_file_exists, validate_locale_code,
    validate_safe_path, validate_translation_key, Config, ValidationError,
};

fn config(base: &str, supported: &[&str], namespace: Option<&str>) -> Config {
    Config {
        base_locale: base.to_string(),
        supported_locales: supported.iter().map(|s| s.to_string()).collect(),
        input_directory: "translations".to_string(),
        output_directory: "output".to_string(),
        namespace: namespace.map(|n| n.to_string()),
        overrides: None,
        analytics: None,
        cloud: None,
        localization: None,
    }
}

#[test]
fn test_validate_locale_code_valid() {
    assert!(validate_locale_code("en").is_ok());
    assert!(validate_locale_code("id").is_ok());
    assert!(validate_locale_code("es").is_ok());
    assert!(validate_locale_code("zh-cn").is_ok());
    assert!(validate_locale_code("zh-tw").is_ok());
}

#[test]
fn test_validate_locale_code_empty() {
    assert!(validate_locale_code("").is_err());
}

#[test]
fn test_validate_locale_code_uppercase() {
    let result = validate_locale_code("EN");
    assert!(result.is_err());
    let err = result.unwrap_err().message();
    assert!(err.contains("Unsupported"));
    assert!(validate_locale_code("en-us").is_err());
}

#[test]
fn test_validate_locale_code_invalid_chars() {
    assert!(validate_locale_code("en US").is_err());
    assert!(validate_locale_code("en_US").is_err());
    assert!(validate_locale_code("en@US").is_err());
}

#[test]
fn test_validate_locale_code_invalid_format() {
    assert!(validate_locale_code("e").is_err());
    assert!(validate_locale_code("engl").is_err());
}

#[test]
fn test_validate_translation_key_valid() {
    assert!(validate_translation_key("ui").is_ok());
    assert!(validate_translation_key("ui.button").is_ok());
    assert!(validate_translation_key("ui.buttons.buy").is_ok());
    assert!(validate_translation_key("ui.buttons.buy_now").is_ok());
    assert!(validate_translation_key("ui.buttons.buy-now").is_ok());
}

#[test]
fn test_validate_translation_key_empty() {
    assert!(validate_translation_key("").is_err());
}

#[test]
fn test_validate_translation_key_leading_dot() {
    let result = validate_translation_key(".ui.button");
    assert!(result.is_err());
    let err = result.unwrap_err().message();
    assert!(err.contains("Cannot start with a dot"));
}

#[test]
fn test_validate_translation_key_trailing_dot() {
    let result = validate_translation_key("ui.button.");
    assert!(result.is_err());
    let err = result.unwrap_err().message();
    assert!(err.contains("Cannot end with a dot"));
}

#[test]
fn test_validate_translation_key_consecutive_dots() {
    let result = validate_translation_key("ui..button");
    assert!(result.is_err());
    let err = result.unwrap_err().message();
    assert!(err.contains("consecutive dots"));
}

#[test]
fn test_validate_translation_key_reserved_chars() {
    assert!(validate_translation_key("ui/button").is_err());
    assert!(validate_translation_key("ui\\button").is_err());
    assert!(validate_translation_key("ui:button").is_err());
    assert!(validate_translation_key("ui*button").is_err());
    assert!(validate_translation_key("ui?button").is_err());
}

#[test]
fn test_validate_translation_key_whitespace() {
    let result = validate_translation_key("ui button");
    assert!(result.is_err());
    let err = result.unwrap_err().message();
    assert!(err.contains("whitespace"));
}

#[test]
fn test_validate_safe_path_valid() {
    assert!(validate_safe_path("translations/en.json", false, None).is_ok());
    assert!(validate_safe_path("output/Translations.lua", false, None).is_ok());
}

#[test]
fn test_validate_safe_path_traversal() {
    let result = validate_safe_path("../etc/passwd", false, None);
    assert!(result.is_err());
    let err = result.unwrap_err().message();
    assert!(err.contains("Path traversal"));
}

#[test]
fn test_validate_safe_path_double_dot() {
    assert!(validate_safe_path("../../secret", false, None).is_err());
    assert!(validate_safe_path("translations/../../../etc", false, None).is_err());
}

#[test]
fn test_validate_config_valid() {
    assert!(validate_config(&config("en", &["en", "id"], None)).is_ok());
}

#[test]
fn test_validate_config_with_namespace() {
    assert!(validate_config(&config("en", &["en"], Some("MyGame"))).is_ok());
}

#[test]
fn test_validate_config_invalid_base_locale() {
    let result = validate_config(&config("EN", &["EN"], None));
    assert!(result.is_err());
    let err = result.unwrap_err().message();
    assert!(err.contains("Unsupported") || err.contains("base_locale"));
}

#[test]
fn test_validate_config_invalid_supported_locale() {
    let result = validate_config(&config("en", &["en", "EN US"], None));
    assert!(result.is_err());
    let err = result.unwrap_err().message();
    assert!(err.contains("Unsupported") || err.contains("supported_locales"));
}

#[test]
fn test_validate_config_empty_namespace() {
    let result = validate_config(&config("en", &["en"], Some("")));
    assert!(result.is_err());
    let err = result.unwrap_err().message();
    assert!(err.contains("namespace"));
}

#[test]
fn test_validate_config_invalid_namespace_chars() {
    let result = validate_config(&config("en", &["en"], Some("My-Game")));
    assert!(result.is_err());
    let err = result.unwrap_err().message();
    assert!(err.contains("invalid characters"));
}

#[test]
fn test_validate_config_namespace_starts_with_digit() {
    let result = validate_config(&config("en", &["en"], Some("123Game")));
    assert!(result.is_err());
    let err = result.unwrap_err().message();
    assert!(err.contains("cannot start with a digit"));
}

#[test]
fn safe_path_outside_project_is_refused_unless_under_tmp() {
    assert!(matches!(
        validate_safe_path("/etc/passwd", true, Some(false)),
        Err(ValidationError::OutsideProject(_))
    ));
    assert!(validate_safe_path("/tmp/out.json", true, Some(false)).is_ok());
    assert!(validate_safe_path("/home/me/project/a.json", true, Some(true)).is_ok());
    assert!(validate_safe_path("/etc/passwd", true, None).is_ok());
}

#[test]
fn key_errors_name_the_first_fault() {
    assert!(matches!(validate_translation_key(""), Err(ValidationError::EmptyKey)));
    assert!(matches!(validate_translation_key(".a..b"), Err(ValidationError::LeadingDot(_))));
    assert!(matches!(validate_translation_key("a..b."), Err(ValidationError::TrailingDot(_))));
    assert!(matches!(validate_translation_key("a..b"), Err(ValidationError::ConsecutiveDots(_))));
    assert!(matches!(
        validate_translation_key("a/b c"),
        Err(ValidationError::ReservedCharacter(_, '/'))
    ));
    assert!(matches!(validate_translation_key("a b"), Err(ValidationError::Whitespace(_))));
    assert!(matches!(validate_translation_key("a\tb"), Err(ValidationError::Whitespace(_))));
}

#[test]
fn file_and_directory_checks() {
    assert!(validate_file_exists("a.json", true, true, "config file").is_ok());
    let e = validate_file_exists("a.json", false, false, "config file").unwrap_err();
    assert!(e.message().starts_with("Config file not found: a.json"));
    let e = validate_file_exists("dir", true, false, "config file").unwrap_err();
    assert!(e.message().starts_with("Config file is not a file: dir"));
    assert!(validate_directory_exists("out", true, true, "output directory").is_ok());
    let e = validate_directory_exists("out", false, false, "output directory").unwrap_err();
    assert!(e.message().starts_with("Output directory not found: out"));
    let e = validate_directory_exists("f", true, false, "output directory").unwrap_err();
    assert!(e.message().starts_with("Output directory is not a directory: f"));
}

#[test]
fn config_error_variants() {
    assert!(matches!(
        validate_config(&config("xx", &["en"], None)),
        Err(ValidationError::BaseLocale(_))
    ));
    assert!(matches!(
        validate_config(&config("en", &["en", "xx"], None)),
        Err(ValidationError::SupportedLocale(_))
    ));
    assert!(matches!(
        validate_config(&config("en", &["en"], Some(""))),
        Err(ValidationError::EmptyNamespace)
    ));
    assert!(matches!(
        validate_config(&config("en", &["en"], Some("a b"))),
        Err(ValidationError::NamespaceCharacters(_))
    ));
    assert!(matches!(
        validate_config(&config("en", &["en"], Some("9a"))),
        Err(ValidationError::NamespaceDigit(_))
    ));
    assert!(matches!(
        validate_config(&config("en", &["en"], Some("Spiel_Über"))),
        Err(ValidationError::NamespaceCharacters(_))
    ));
}

#[test]
fn namespace_is_ascii_identifier() {
    assert!(matches!(
        validate_config(&config("en", &["en"], Some("Café"))),
        Err(ValidationError::NamespaceCharacters(_))
    ));
    assert!(validate_config(&config("en", &["en"], Some("MyGame"))).is_ok());
    assert!(validate_config(&config("en", &["en"], Some("_x9_Z"))).is_ok());
    assert!(check_namespace("Über").is_err());
    assert!(check_namespace("zZ09_").is_ok());
}
