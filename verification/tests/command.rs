use libgo::gtp::command::{preprocess_line, Command};
use libgo::gtp::response::{display, Response};

#[test]
fn preprocess_line_() {
    assert_eq!(preprocess_line("1\r2\r quit"), Some("12 quit".to_string()));
    assert_eq!(preprocess_line("quit # a comment"), Some("quit ".to_string()));
    assert_eq!(preprocess_line("\tquit\t"), Some(" quit ".to_string()));
    assert_eq!(preprocess_line("   # a comment"), None);
    assert_eq!(preprocess_line(""), None);
}

#[test]
fn from_line() {
    assert_eq!(Command::from_line(""), None);
    assert_eq!(
        Command::from_line("1"),
        Some(Command { id: Some(1), name: String::new(), args: Vec::new() })
    );
    assert_eq!(
        Command::from_line("1 quit"),
        Some(Command { id: Some(1), name: "quit".to_string(), args: Vec::new() })
    );
    assert_eq!(
        Command::from_line("quit"),
        Some(Command { id: None, name: "quit".to_string(), args: Vec::new() })
    );

    // If a number is given that is not a u32, it will be treated as a command name.
    let large_uint = (u32::MAX as u64 + 1).to_string();
    assert_eq!(
        Command::from_line(&large_uint),
        Some(Command { id: None, name: large_uint, args: Vec::new() })
    );
    let negative_number = "-1".to_string();
    assert_eq!(
        Command::from_line(&negative_number),
        Some(Command { id: None, name: negative_number, args: Vec::new() })
    );

    assert_eq!(
        Command::from_line("play w b19"),
        Some(Command {
            id: None,
            name: "play".to_string(),
            args: vec!["w".to_string(), "b19".to_string()],
        })
    );
}

#[test]
fn from_line_reads_an_id_as_a_u32_is_read() {
    assert_eq!(
        Command::from_line("+7 name"),
        Some(Command { id: Some(7), name: "name".to_string(), args: Vec::new() })
    );
    assert_eq!(
        Command::from_line("007\tplay  b\tc3 # and a comment"),
        Some(Command {
            id: Some(7),
            name: "play".to_string(),
            args: vec!["b".to_string(), "c3".to_string()],
        })
    );
    assert_eq!(
        Command::from_line("4294967295 x"),
        Some(Command { id: Some(u32::MAX), name: "x".to_string(), args: Vec::new() })
    );
    assert_eq!(
        Command::from_line("+ x"),
        Some(Command { id: None, name: "+".to_string(), args: vec!["x".to_string()] })
    );
    assert_eq!(Command::from_line(" \t \u{1}"), None);
    assert_eq!(Command::from_line("# 1 quit"), None);
}

#[test]
fn preprocess_line_keeps_what_is_not_a_control_character() {
    assert_eq!(preprocess_line("a\u{7f}b\u{85}c"), Some("abc".to_string()));
    assert_eq!(preprocess_line("\u{a0}"), None);
    assert_eq!(preprocess_line("\u{a0}x"), Some("\u{a0}x".to_string()));
}

#[test]
fn display_writes_a_reply() {
    assert_eq!(display(None, Ok(None)), "= \r\n\r\n");
    assert_eq!(display(Some(12), Ok(None)), "=12 \r\n\r\n");
    assert_eq!(display(Some(0), Ok(Some("D4".to_string()))), "=0 D4\r\n\r\n");
    assert_eq!(display(None, Err("unknown command".to_string())), "? unknown command\r\n\r\n");
    assert_eq!(
        display(Some(4294967295), Err("illegal move".to_string())),
        "?4294967295 illegal move\r\n\r\n"
    );
}

#[test]
fn response_writes_a_reply() {
    let response = Response { id: Some(3), result: Ok(Some("true".to_string())) };
    assert_eq!(response.to_string(), "=3 true\r\n\r\n");
    let response = Response { id: None, result: Err("cannot undo".to_string()) };
    assert_eq!(response.to_string(), "? cannot undo\r\n\r\n");
}
