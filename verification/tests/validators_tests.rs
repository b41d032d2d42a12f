use allnodes::validators::{bool_validator, existing_file_verdict, is_existing_file};

#[test]
fn booleans() {
    assert!(bool_validator("true").is_ok());
    assert!(bool_validator(" false\n").is_ok());
    assert!(bool_validator("").is_ok());
    assert!(bool_validator("   ").is_ok());
    assert_eq!(bool_validator("yes"), Err("Must be 'true' or 'false': yes".to_string()));
    assert_eq!(bool_validator("TRUE"), Err("Must be 'true' or 'false': TRUE".to_string()));
}

#[test]
fn files() {
    assert_eq!(is_existing_file("/nonexistent/definitely/missing"), Err("File not found: /nonexistent/definitely/missing".to_string()));
    assert_eq!(is_existing_file("/"), Err("Must be a file: /".to_string()));
    assert_eq!(existing_file_verdict("a", true, true), Ok(()));
    assert_eq!(existing_file_verdict("a", true, false), Err("Must be a file: a".to_string()));
    assert_eq!(existing_file_verdict("a", false, false), Err("File not found: a".to_string()));
}
