use nkv::flag_parser::{FlagParser, FlagParserError};

#[test]
fn test_help_flag() {
    let parser =
        FlagParser::new(vec!["my_program".to_string(), "--help".to_string()], None).unwrap();
    assert!(parser.get("help").is_some())
}

#[test]
fn test_config_flag() {
    let parser = FlagParser::new(
        vec![
            "my_progam".to_string(),
            "--config".to_string(),
            "config.toml".to_string(),
        ],
        None,
    )
    .unwrap();
    assert_eq!(parser.get("config"), Some(&Some("config.toml".to_string())));
    assert_eq!(parser.get("non-existent-arg"), None);
}

#[test]
fn test_multiple_flags() {
    let parser = FlagParser::new(
        vec![
            "my_progam".to_string(),
            "--config".to_string(),
            "config.toml".to_string(),
            "--help".to_string(),
            "--proxy-config".to_string(),
            "another-config.toml".to_string(),
            "--debug".to_string(),
            "--verbose".to_string(),
        ],
        None,
    )
    .unwrap();
    assert!(parser.get("help").is_some());
    assert!(parser.get("debug").is_some());
    assert!(parser.get("verbose").is_some());
    assert_eq!(parser.get("config"), Some(&Some("config.toml".to_string())));
    assert_eq!(
        parser.get("proxy-config"),
        Some(&Some("another-config.toml".to_string()))
    );
}

#[test]
fn test_duplicate_args() {
    let parser = FlagParser::new(
        vec![
            "my_progam".to_string(),
            "--config".to_string(),
            "config.toml".to_string(),
            "--help".to_string(),
            "--config".to_string(),
            "another-config.toml".to_string(),
        ],
        None,
    );
    assert!(parser.is_err());
}

#[test]
fn test_allowed_flags() {
    let parser = FlagParser::new(
        vec![
            "my_progam".to_string(),
            "--config".to_string(),
            "config.toml".to_string(),
            "--help".to_string(),
        ],
        Some(vec!["config".to_string(), "help".to_string()]),
    )
    .unwrap();
    assert!(parser.get("help").is_some());
    assert_eq!(parser.get("config"), Some(&Some("config.toml".to_string())));

    let parser = FlagParser::new(
        vec![
            "my_progam".to_string(),
            "--config".to_string(),
            "config.toml".to_string(),
            "--help".to_string(),
        ],
        Some(vec!["config".to_string()]),
    );
    assert!(parser.is_err());
}

#[test]
fn flag_without_value_reads_as_some_none() {
    let parser = FlagParser::new(
        vec!["--debug".to_string(), "--level".to_string(), "info".to_string()],
        None,
    )
    .unwrap();
    assert_eq!(parser.get("debug"), Some(&None));
    assert_eq!(parser.get("level"), Some(&Some("info".to_string())));
    assert_eq!(parser.get("info"), None);
}

#[test]
fn duplicate_flag_names_the_flag() {
    match FlagParser::new(
        vec!["--a".to_string(), "--b".to_string(), "--a".to_string()],
        None,
    ) {
        Err(nkv::flag_parser::FlagParserError::DuplicateFlag(f)) => assert_eq!(f, "a"),
        _ => panic!("expected a duplicate flag error"),
    }
}

#[test]
fn unknown_flag_names_the_first_unknown() {
    match FlagParser::new(
        vec!["--a".to_string(), "--b".to_string(), "--c".to_string()],
        Some(vec!["a".to_string()]),
    ) {
        Err(nkv::flag_parser::FlagParserError::UnkownFlag(f)) => assert_eq!(f, "b"),
        _ => panic!("expected an unknown flag error"),
    }
}

#[test]
fn flag_parser_error_messages() {
    assert_eq!(FlagParserError::DuplicateFlag("config".to_string()).message(), "Duplicate flag config");
    assert_eq!(FlagParserError::UnkownFlag("x".to_string()).message(), "Unknown flag x");
}
