use config_cli::error::MergeError;

#[test]
fn duplicate_key_message() {
    let e = MergeError::DuplicateKey("A".to_string(), "b.env".to_string(), "a.env".to_string());
    assert_eq!(e.to_string(), "Duplicate key: A in b.env and a.env");
}

#[test]
fn no_file_found_message() {
    let e = MergeError::NoFileFound("data/*.env".to_string());
    assert_eq!(e.to_string(), "No file found for the pattern: data/*.env");
}

#[test]
fn messages_that_carry_a_cause() {
    assert_eq!(MergeError::ParseError("bad toml".to_string()).to_string(), "bad toml");
    assert_eq!(MergeError::IoError("denied".to_string()).to_string(), "denied");
    assert_eq!(MergeError::SerializeError("no".to_string()).to_string(), "no");
}

#[test]
fn fixed_messages() {
    assert_eq!(MergeError::SectionNotTable.to_string(), "The env section is not a table");
    assert_eq!(
        MergeError::MarkerOutOfRange.to_string(),
        "The section was not found in the written document"
    );
}
