use deepseek_demo::{parse_command, session_dir_name, Command};

#[test]
fn session_dir_name_writes_the_timestamp_in_decimal() {
    assert_eq!(session_dir_name(1_700_000_000), "session_1700000000");
    assert_eq!(session_dir_name(0), "session_0");
    assert_eq!(session_dir_name(u64::MAX), format!("session_{}", u64::MAX));
}

#[test]
fn parse_command_recognises_commands() {
    assert!(matches!(parse_command("   "), Command::Skip));
    assert!(matches!(parse_command("exit\n"), Command::Exit));
    assert!(matches!(parse_command(" quit "), Command::Exit));
    assert!(matches!(parse_command("/help"), Command::Help));
    assert!(matches!(parse_command("/session"), Command::Session));
    assert!(matches!(parse_command("/memory\r\n"), Command::Memory));
    assert!(matches!(parse_command("/clear"), Command::Clear));
    assert!(matches!(parse_command("\u{3000}\t/help \u{2028}\n"), Command::Help));
}

#[test]
fn parse_command_reads_remember() {
    match parse_command("/remember  喜欢 Rust \n") {
        Command::Remember(m) => assert_eq!(m, "喜欢 Rust"),
        other => panic!("unexpected {:?}", other),
    }
    match parse_command("/remember    ") {
        Command::Chat(m) => assert_eq!(m, "/remember"),
        other => panic!("unexpected {:?}", other),
    }
    assert!(matches!(parse_command("/remember \u{3000}x"), Command::Remember(_)));
}

#[test]
fn parse_command_reads_chat_messages() {
    match parse_command("  你好 ") {
        Command::Chat(m) => assert_eq!(m, "你好"),
        other => panic!("unexpected {:?}", other),
    }
    match parse_command("/remember") {
        Command::Chat(m) => assert_eq!(m, "/remember"),
        other => panic!("unexpected {:?}", other),
    }
    match parse_command("EXIT") {
        Command::Chat(m) => assert_eq!(m, "EXIT"),
        other => panic!("unexpected {:?}", other),
    }
}
