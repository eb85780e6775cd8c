use nkv::command::{parse_command, Command};

#[test]
fn commands_read_their_arguments() {
    assert_eq!(
        parse_command("PUT key1 value1\n"),
        Command::Put { key: "key1".to_string(), value: "value1".to_string() }
    );
    assert_eq!(parse_command("  GET   key1 "), Command::Get { key: "key1".to_string() });
    assert_eq!(parse_command("DELETE key1 extra"), Command::Delete { key: "key1".to_string() });
    assert_eq!(parse_command("SUBSCRIBE k"), Command::Subscribe { key: "k".to_string() });
    assert_eq!(parse_command("UNSUBSCRIBE k"), Command::Unsubscribe { key: "k".to_string() });
    assert_eq!(parse_command("QUIT"), Command::Quit);
    assert_eq!(parse_command("HELP"), Command::Help);
}

#[test]
fn missing_arguments_give_the_usage_line() {
    assert_eq!(parse_command("PUT key1"), Command::Usage("PUT requires a key and a value".to_string()));
    assert_eq!(parse_command("GET"), Command::Usage("GET requires a key".to_string()));
    assert_eq!(parse_command("DELETE"), Command::Usage("DELETE requires a key".to_string()));
    assert_eq!(parse_command("SUBSCRIBE"), Command::Usage("SUBSCRIBE requires a key".to_string()));
    assert_eq!(parse_command("UNSUBSCRIBE"), Command::Usage("SUBSCRIBE requires a key".to_string()));
}

#[test]
fn other_lines_are_unknown_or_empty() {
    assert_eq!(parse_command("get key1"), Command::Unknown);
    assert_eq!(parse_command("   \n"), Command::Nothing);
}
