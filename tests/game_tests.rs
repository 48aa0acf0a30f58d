use tetris::board::{Point, BOARD_HEIGHT, BOARD_WIDTH};
use tetris::game::{Command, Game};
use tetris::tetromino::{Color, Direction, Tetromino};

fn lobby(n: usize) -> Game {
    let mut g = Game::new();
    for id in 1..=n {
        g.add_player(id, format!("player{}", id));
    }
    g
}

fn board_is_empty(g: &Game, k: usize) -> bool {
    let b = &g.players[k].board;
    (0..BOARD_HEIGHT).all(|r| (0..BOARD_WIDTH).all(|c| b.cell(r, c).is_none()))
}

#[test]
fn three_player_lobby_all_alive_and_empty() {
    let g = lobby(3);
    assert_eq!(g.players.len(), 3);
    for id in 1..=3usize {
        assert!(g.is_alive(&id));
    }
    for k in 0..3 {
        assert!(board_is_empty(&g, k));
    }
    assert_eq!(g.players[1].name, "player2");
    assert_eq!(g.alive_count(), 3);
    assert!(!g.is_over());
}

#[test]
fn each_player_has_own_queue() {
    let g = lobby(2);
    assert_eq!(g.players[0].queue.tetrominoes.len(), 6);
    assert_eq!(g.players[1].queue.tetrominoes.len(), 6);
}

#[test]
fn add_player_after_start_is_ignored() {
    let mut g = lobby(2);
    g.start();
    g.add_player(3, String::from("late"));
    assert_eq!(g.players.len(), 2);
    assert!(!g.is_alive(&3));
}

#[test]
fn start_spawns_centred() {
    let mut g = lobby(2);
    g.start();
    for k in 0..2 {
        let n = g.players[k].current.shape.len() as i32;
        assert_eq!(g.players[k].position.x, (BOARD_WIDTH as i32 - n) / 2);
        assert_eq!(g.players[k].position.y, 0);
        assert!(g.players[k].alive);
    }
}

#[test]
fn unknown_player_operations_fail() {
    let mut g = lobby(1);
    g.start();
    let mut cleared = 0usize;
    assert!(!g.move_tetromino(&9, 1, 0));
    assert!(!g.rotate_tetromino(&9, Direction::CW));
    assert!(!g.place_new_tetromino(&9));
    assert!(!g.advance_game(&9, &mut cleared));
    assert!(!g.drop_tetromino(&9, &mut cleared));
    assert!(!g.process_command(&9, Command::Drop));
    assert!(!g.is_alive(&9));
    assert_eq!(cleared, 0);
}

#[test]
fn move_stops_at_wall() {
    let mut g = lobby(1);
    g.players[0].current = Tetromino::new_o();
    g.start();
    assert_eq!(g.players[0].position.x, 4);
    for _ in 0..4 {
        assert!(g.move_tetromino(&1, -1, 0));
    }
    assert!(!g.move_tetromino(&1, -1, 0));
    assert_eq!(g.players[0].position.x, 0);
    assert!(g.process_command(&1, Command::Right));
    assert_eq!(g.players[0].position.x, 1);
}

#[test]
fn rotation_blocked_by_wall_keeps_piece() {
    let mut g = lobby(1);
    g.players[0].current = Tetromino::new_i();
    g.players[0].position = Point { x: 0, y: 10 };
    // Vertical bar at column 0 of the board: matrix column 2 is off the board.
    let mut vertical = Tetromino::new_i();
    vertical.rotate(Direction::CW);
    g.players[0].current = vertical.clone();
    g.players[0].position = Point { x: -2, y: 10 };
    assert!(!g.rotate_tetromino(&1, Direction::CCW));
    assert_eq!(g.players[0].current.shape, vertical.shape);
    g.players[0].position = Point { x: 3, y: 10 };
    assert!(g.rotate_tetromino(&1, Direction::CCW));
    assert_eq!(g.players[0].current.shape, Tetromino::new_i().shape);
}

#[test]
fn advance_moves_down_then_locks() {
    let mut g = lobby(1);
    g.players[0].current = Tetromino::new_o();
    g.players[0].position = Point { x: 0, y: 37 };
    let mut cleared = 7usize;
    assert!(g.advance_game(&1, &mut cleared));
    assert_eq!(g.players[0].position.y, 38);
    assert_eq!(cleared, 7);
    let queued = g.players[0].queue.tetrominoes[0].clone();
    assert!(g.advance_game(&1, &mut cleared));
    assert_eq!(cleared, 0);
    assert_eq!(g.players[0].board.cell(39, 0), Some(Color::Cyan));
    assert_eq!(g.players[0].current.shape, queued.shape);
    assert_eq!(g.players[0].queue.tetrominoes.len(), 5);
    assert_eq!(g.players[0].position.y, 0);
}

#[test]
fn hard_drop_lands_on_floor() {
    let mut g = lobby(1);
    g.players[0].current = Tetromino::new_o();
    g.start();
    let mut cleared = 0usize;
    assert!(g.drop_tetromino(&1, &mut cleared));
    assert_eq!(cleared, 0);
    assert_eq!(g.players[0].board.cell(38, 4), Some(Color::Cyan));
    assert_eq!(g.players[0].board.cell(39, 5), Some(Color::Cyan));
}

#[test]
fn clearing_two_lines_sends_garbage() {
    let mut g = lobby(2);
    let i = Tetromino::new_i();
    for (x, y) in [(0, 37), (4, 37), (0, 38), (4, 38)] {
        g.players[0].board.lock_tetromino(&i, Point { x, y });
    }
    g.players[0].current = Tetromino::new_o();
    g.players[0].position = Point { x: 8, y: 0 };
    g.players[1].current = Tetromino::new_t();
    g.players[1].position = Point { x: 3, y: 0 };
    assert!(g.process_command(&1, Command::Drop));
    assert!(g.is_alive(&1));
    assert!(g.is_alive(&2));
    // The clearing player's board is empty again.
    assert!(board_is_empty(&g, 0));
    // The other board got two solid rows at the bottom, the rest is empty.
    for r in 0..BOARD_HEIGHT {
        for c in 0..BOARD_WIDTH {
            let expected = if r >= BOARD_HEIGHT - 2 { Some(Color::Red) } else { None };
            assert_eq!(g.players[1].board.cell(r, c), expected);
        }
    }
}

#[test]
fn garbage_skips_dead_and_source() {
    let mut g = lobby(3);
    g.eliminate(&3);
    assert!(!g.is_alive(&3));
    g.on_lines_cleared(1, 1);
    assert!(board_is_empty(&g, 0));
    assert_eq!(g.players[1].board.cell(BOARD_HEIGHT - 1, 0), Some(Color::Red));
    assert!(board_is_empty(&g, 2));
}

#[test]
fn drop_that_cannot_spawn_eliminates() {
    let mut g = lobby(2);
    g.start();
    // Fill the spawn area of player 1 so the next piece cannot appear.
    let o = Tetromino::new_o();
    for x in [2, 4, 6] {
        g.players[0].board.lock_tetromino(&o, Point { x, y: 0 });
    }
    g.players[0].current = Tetromino::new_o();
    g.players[0].position = Point { x: 0, y: 0 };
    assert!(g.process_command(&1, Command::Drop));
    assert!(!g.is_alive(&1));
    assert!(g.is_alive(&2));
    assert_eq!(g.alive_count(), 1);
    assert!(g.is_over());
}
