use rust_strings::{Encoding, EncodingNotFoundError};
use std::str::FromStr;

fn found(name: &str) -> Encoding {
    match Encoding::from_str(name) {
        Ok(encoding) => encoding,
        Err(_) => panic!("{name} should name an encoding"),
    }
}

fn message(name: &str) -> String {
    match Encoding::from_str(name) {
        Ok(_) => panic!("{name} should name no encoding"),
        Err(error) => error.to_string(),
    }
}

#[test]
fn test_encoding_names() {
    assert_eq!(found("ascii"), Encoding::ASCII);
    assert_eq!(found("utf8"), Encoding::ASCII);
    assert_eq!(found("utf-8"), Encoding::ASCII);
    assert_eq!(found("utf-16le"), Encoding::UTF16LE);
    assert_eq!(found("utf-16be"), Encoding::UTF16BE);
}

#[test]
fn test_encoding_names_in_any_case() {
    assert_eq!(found("ASCII"), Encoding::ASCII);
    assert_eq!(found("Utf8"), Encoding::ASCII);
    assert_eq!(found("UTF-8"), Encoding::ASCII);
    assert_eq!(found("UTF-16LE"), Encoding::UTF16LE);
    assert_eq!(found("Utf-16Be"), Encoding::UTF16BE);
}

#[test]
fn test_encoding_from_lowercase_takes_the_name_as_it_is() {
    assert!(matches!(
        Encoding::from_lowercase(String::from("utf-16le")),
        Ok(Encoding::UTF16LE)
    ));
    assert!(matches!(
        Encoding::from_lowercase(String::from("ascii")),
        Ok(Encoding::ASCII)
    ));
    assert!(Encoding::from_lowercase(String::from("ASCII")).is_err());
    assert!(Encoding::from_lowercase(String::new()).is_err());
}

#[test]
fn test_encoding_not_found() {
    assert_eq!(message("latin1"), "Encoding not found: \"latin1\"");
    assert_eq!(message(""), "Encoding not found: \"\"");
    assert_eq!(message("utf-16"), "Encoding not found: \"utf-16\"");
    assert_eq!(message("utf16le"), "Encoding not found: \"utf16le\"");
}

#[test]
fn test_encoding_not_found_names_the_lowercase_form() {
    assert_eq!(message("LATIN1"), "Encoding not found: \"latin1\"");
}

#[test]
fn test_encoding_not_found_quotes_the_name() {
    assert_eq!(message("a\"b\n"), "Encoding not found: \"a\\\"b\\n\"");
}

#[test]
fn test_encoding_to_string() {
    assert_eq!(Encoding::ASCII.to_string(), "ASCII");
    assert_eq!(Encoding::UTF16LE.to_string(), "UTF16LE");
    assert_eq!(Encoding::UTF16BE.to_string(), "UTF16BE");
}

#[test]
fn test_encoding_parse() {
    let parsed: Result<Encoding, EncodingNotFoundError> = "UTF-16be".parse();
    assert!(matches!(parsed, Ok(Encoding::UTF16BE)));
    let parsed: Result<Encoding, EncodingNotFoundError> = "ucs2".parse();
    assert!(parsed.is_err());
}
