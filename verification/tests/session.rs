use mictylish::repl::{classify_line, LineAction};

#[test]
fn blank_lines_are_skipped() {
    assert_eq!(classify_line(""), LineAction::Skip);
    assert_eq!(classify_line("   \t  "), LineAction::Skip);
}

#[test]
fn quit_commands_end_the_session() {
    assert_eq!(classify_line(":q"), LineAction::Quit);
    assert_eq!(classify_line("  :quit "), LineAction::Quit);
    assert_eq!(classify_line("exit"), LineAction::Quit);
}

#[test]
fn other_lines_are_forwarded_trimmed() {
    assert_eq!(
        classify_line("  let x = 1 "),
        LineAction::Forward("let x = 1".to_string())
    );
    assert_eq!(
        classify_line("exit now"),
        LineAction::Forward("exit now".to_string())
    );
}
