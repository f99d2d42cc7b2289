use autumn_core::api::InitializationError;
use std::borrow::Cow;

#[test]
fn any_error_is_wrapped() {
    let wrapped = InitializationError::from(anyhow::Error::msg("no database"));
    match wrapped {
        InitializationError::Any(error) => assert_eq!(format!("{}", error), "no database"),
        InitializationError::RequireBean(name) => panic!("unexpected: {}", name),
    }
}

#[test]
fn missing_bean_is_named() {
    let error = InitializationError::RequireBean(Cow::Borrowed("database"));
    assert!(matches!(error, InitializationError::RequireBean(ref name) if name == "database"));
}
