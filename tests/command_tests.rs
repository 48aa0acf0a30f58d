use tetris::command::{key_command, parse_command, Key};
use tetris::game::Command;
use tetris::tetromino::Direction;

#[test]
fn parse_known_tokens() {
    assert_eq!(parse_command("Left"), Some(Command::Left));
    assert_eq!(parse_command("Right"), Some(Command::Right));
    assert_eq!(parse_command("CCW"), Some(Command::Rotate(Direction::CCW)));
    assert_eq!(parse_command("RotateRight"), Some(Command::Rotate(Direction::CW)));
    assert_eq!(parse_command("Space"), Some(Command::Drop));
}

#[test]
fn parse_unknown_tokens() {
    assert_eq!(parse_command(""), None);
    assert_eq!(parse_command("left"), None);
    assert_eq!(parse_command("CW"), None);
    assert_eq!(parse_command("Nothing"), None);
    assert_eq!(parse_command("Spaces"), None);
}

#[test]
fn keys_to_commands() {
    assert_eq!(key_command(&Key::Left), Some(Command::Left));
    assert_eq!(key_command(&Key::Right), Some(Command::Right));
    assert_eq!(key_command(&Key::Char('q')), Some(Command::Rotate(Direction::CCW)));
    assert_eq!(key_command(&Key::Char('e')), Some(Command::Rotate(Direction::CW)));
    assert_eq!(key_command(&Key::Space), Some(Command::Drop));
    assert_eq!(key_command(&Key::Up), None);
    assert_eq!(key_command(&Key::Char('x')), None);
    assert_eq!(key_command(&Key::CtrlC), None);
}
