//! The line-oriented command vocabulary and the client's key bindings.
use vstd::prelude::*;
use vstd::string::StringSliceAdditionalSpecFns;
use crate::game::Command;
use crate::tetromino::Direction;

verus! {

/// A key read from a player's terminal.
pub enum Key {
    Up,
    Down,
    Left,
    Right,
    Space,
    CtrlC,
    Char(char),
}

/// The command a token names: `Left`, `Right`, `CCW`, `RotateRight` and
/// `Space`, as ASCII bytes; any other token names none.
pub open spec fn command_of(b: Seq<u8>) -> Option<Command> {
    if b == seq![76u8, 101, 102, 116] {
        Some(Command::Left)
    } else if b == seq![82u8, 105, 103, 104, 116] {
        Some(Command::Right)
    } else if b == seq![67u8, 67, 87] {
        Some(Command::Rotate(Direction::CCW))
    } else if b == seq![82u8, 111, 116, 97, 116, 101, 82, 105, 103, 104, 116] {
        Some(Command::Rotate(Direction::CW))
    } else if b == seq![83u8, 112, 97, 99, 101] {
        Some(Command::Drop)
    } else {
        None
    }
}

/// Reads one token of the protocol; unknown tokens give `None`.
pub fn parse_command(token: &str) -> (c: Option<Command>)
    ensures
        c == command_of(token.spec_bytes()),
{
    let b = token.as_bytes();
    let n = b.len();
    if n == 4 && b[0] == 76 && b[1] == 101 && b[2] == 102 && b[3] == 116 {
        assert(b@ =~= seq![76u8, 101, 102, 116]);
        Some(Command::Left)
    } else if n == 5 && b[0] == 82 && b[1] == 105 && b[2] == 103 && b[3] == 104 && b[4] == 116 {
        assert(b@ =~= seq![82u8, 105, 103, 104, 116]);
        Some(Command::Right)
    } else if n == 3 && b[0] == 67 && b[1] == 67 && b[2] == 87 {
        assert(b@ =~= seq![67u8, 67, 87]);
        Some(Command::Rotate(Direction::CCW))
    } else if n == 11 && b[0] == 82 && b[1] == 111 && b[2] == 116 && b[3] == 97 && b[4] == 116
        && b[5] == 101 && b[6] == 82 && b[7] == 105 && b[8] == 103 && b[9] == 104 && b[10] == 116 {
        assert(b@ =~= seq![82u8, 111, 116, 97, 116, 101, 82, 105, 103, 104, 116]);
        Some(Command::Rotate(Direction::CW))
    } else if n == 5 && b[0] == 83 && b[1] == 112 && b[2] == 97 && b[3] == 99 && b[4] == 101 {
        assert(b@ =~= seq![83u8, 112, 97, 99, 101]);
        Some(Command::Drop)
    } else {
        None
    }
}

/// The command a key stands for on the client: arrows move, `q` and `e`
/// turn counter-clockwise and clockwise, space drops.
pub fn key_command(key: &Key) -> (c: Option<Command>)
    ensures
        c == match *key {
            Key::Left => Some(Command::Left),
            Key::Right => Some(Command::Right),
            Key::Char('q') => Some(Command::Rotate(Direction::CCW)),
            Key::Char('e') => Some(Command::Rotate(Direction::CW)),
            Key::Space => Some(Command::Drop),
            _ => None,
        },
{
    match key {
        Key::Left => Some(Command::Left),
        Key::Right => Some(Command::Right),
        Key::Char(ch) => {
            if *ch == 'q' {
                Some(Command::Rotate(Direction::CCW))
            } else if *ch == 'e' {
                Some(Command::Rotate(Direction::CW))
            } else {
                None
            }
        },
        Key::Space => Some(Command::Drop),
        _ => None,
    }
}

} // verus!
