use roblox_slang::cloud::{AuthConfig, CloudSyncError};
use roblox_slang::validation::{CloudConfig, Config};

fn create_test_config_with_api_key(api_key: Option<String>) -> Config {
    Config {
        base_locale: "en".to_string(),
        supported_locales: vec!["en".to_string()],
        input_directory: "translations".to_string(),
        output_directory: "output".to_string(),
        namespace: None,
        overrides: None,
        analytics: None,
        cloud: Some(CloudConfig {
            table_id: None,
            game_id: None,
            api_key,
            strategy: None,
        }),
        localization: None,
    }
}

#[test]
fn test_load_from_config() {
    let config = create_test_config_with_api_key(Some("test_api_key_12345".to_string()));
    let auth = AuthConfig::load(None, &config).unwrap();
    assert_eq!(auth.api_key, "test_api_key_12345");
}

#[test]
fn test_load_missing_api_key() {
    let config = create_test_config_with_api_key(None);
    let result = AuthConfig::load(None, &config);
    assert!(result.is_err());
    assert!(result.unwrap_err().message().contains("API key not found"));
}

#[test]
fn test_validate_empty_key() {
    let auth = AuthConfig {
        api_key: String::new(),
    };
    let result = auth.validate();
    assert!(result.is_err());
    assert!(result.unwrap_err().message().contains("cannot be empty"));
}

#[test]
fn test_validate_short_key() {
    let auth = AuthConfig {
        api_key: "short".to_string(),
    };
    let result = auth.validate();
    assert!(result.is_err());
    assert!(result.unwrap_err().message().contains("too short"));
}

#[test]
fn test_validate_valid_key() {
    let auth = AuthConfig {
        api_key: "valid_api_key_12345".to_string(),
    };
    assert!(auth.validate().is_ok());
}

#[test]
fn load_prefers_the_environment_key() {
    let config = create_test_config_with_api_key(Some("config_key_123456".to_string()));
    let auth = AuthConfig::load(Some("env_key_1234567".to_string()), &config).unwrap();
    assert_eq!(auth.api_key, "env_key_1234567");
}

#[test]
fn load_checks_the_environment_key_without_falling_back() {
    let config = create_test_config_with_api_key(Some("config_key_123456".to_string()));
    let result = AuthConfig::load(Some("short".to_string()), &config);
    assert_eq!(
        result.unwrap_err(),
        CloudSyncError::ConfigError("API key appears to be invalid (too short)".to_string())
    );
}

#[test]
fn key_length_counts_bytes() {
    // Five characters, ten bytes in UTF-8.
    let auth = AuthConfig {
        api_key: "ééééé".to_string(),
    };
    assert!(auth.validate().is_ok());
    let auth = AuthConfig {
        api_key: "123456789".to_string(),
    };
    assert!(auth.validate().is_err());
}

#[test]
fn load_without_cloud_section_is_an_error() {
    let mut config = create_test_config_with_api_key(None);
    config.cloud = None;
    match AuthConfig::load(None, &config) {
        Err(CloudSyncError::ConfigError(m)) => {
            assert!(m.starts_with("Roblox Cloud API key not found"));
            assert!(m.ends_with("https://create.roblox.com/credentials"));
            assert!(m.contains("\nexport ROBLOX_CLOUD_API_KEY=your_api_key_here\n"));
            assert!(m.contains("\ncloud:\napi_key: your_api_key_here\n"));
            assert!(!m.contains("  "));
        }
        _ => panic!("expected a configuration error"),
    }
}
