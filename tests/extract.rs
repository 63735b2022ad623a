use thisconfig::{ConfigItem, ErrorResponse, ExtractConfig, ExtractOptionalConfig, ExtractValidatedConfig};

#[derive(Debug, Clone)]
struct MockConfig {
    value: String,
}

impl ConfigItem for MockConfig {
    fn key() -> &'static str {
        "mock"
    }
}

#[test]
fn lib_test_config_wrapper() {
    let mock = MockConfig { value: "test".to_string() };

    let config = ExtractConfig(Some(mock.clone()));
    assert_eq!(config.0.as_ref().unwrap().value, "test");
}

#[test]
fn extract_test_config_wrapper() {
    let mock = MockConfig { value: "test".to_string() };

    let config = ExtractConfig(Some(mock.clone()));
    assert_eq!(config.0.as_ref().unwrap().value, "test");
}

#[test]
fn optional_and_validated_wrappers_hold_their_value() {
    let none: ExtractOptionalConfig<MockConfig> = ExtractOptionalConfig(None);
    assert!(none.0.is_none());
    let validated = ExtractValidatedConfig(MockConfig { value: "v".to_string() });
    assert_eq!(validated.0.value, "v");
    assert_eq!(MockConfig::key(), "mock");
}

#[test]
fn error_responses() {
    let e = ErrorResponse::internal_server_error();
    assert_eq!(e.code(), 500);
    assert!(!e.success());
    assert_eq!(e.message(), "Internal Server Error");
    let b = ErrorResponse::bad_request();
    assert_eq!(b.code(), 400);
    assert!(!b.success());
    assert_eq!(b.message(), "Bad Request");
}

#[derive(Debug, Clone)]
struct ValidatedMockConfig {
    value: String,
}

impl ConfigItem for ValidatedMockConfig {
    fn key() -> &'static str {
        "validated_mock"
    }
}

#[test]
fn test_validated_config_wrapper() {
    let mock = ValidatedMockConfig { value: "test".to_string() };

    let config = ExtractValidatedConfig(mock.clone());
    assert_eq!(config.0.value, "test");
    assert_eq!(ValidatedMockConfig::key(), "validated_mock");
}
