use tetris::board::{Board, Point, BOARD_HEIGHT, BOARD_WIDTH, HIDDEN_ROWS};
use tetris::tetromino::{Color, Direction, Tetromino};

fn snapshot(b: &Board) -> Vec<Vec<Option<Color>>> {
    let mut rows = Vec::new();
    for r in 0..BOARD_HEIGHT {
        let mut row = Vec::new();
        for c in 0..BOARD_WIDTH {
            row.push(b.cell(r, c));
        }
        rows.push(row);
    }
    rows
}

fn vertical_i() -> Tetromino {
    let mut t = Tetromino::new_i();
    t.rotate(Direction::CW);
    t
}

fn lock(b: &mut Board, t: &Tetromino, x: i32, y: i32) {
    let p = Point { x, y };
    assert!(!b.collision_test(t, p));
    b.lock_tetromino(t, p);
}

#[test]
fn new_board_is_empty() {
    let b = Board::new();
    for r in 0..BOARD_HEIGHT {
        for c in 0..BOARD_WIDTH {
            assert_eq!(b.cell(r, c), None);
        }
    }
    assert!(!b.lost());
}

#[test]
fn collision_out_of_bounds() {
    let b = Board::new();
    let o = Tetromino::new_o();
    assert!(!b.collision_test(&o, Point { x: 0, y: 0 }));
    assert!(!b.collision_test(&o, Point { x: 8, y: 38 }));
    assert!(b.collision_test(&o, Point { x: -1, y: 0 }));
    assert!(b.collision_test(&o, Point { x: 9, y: 0 }));
    assert!(b.collision_test(&o, Point { x: 0, y: 39 }));
    assert!(b.collision_test(&o, Point { x: 0, y: -1 }));
    // Empty rows of the matrix may hang outside the board.
    let i = Tetromino::new_i();
    assert!(!b.collision_test(&i, Point { x: 0, y: -1 }));
    assert!(!b.collision_test(&i, Point { x: 0, y: 38 }));
    assert!(b.collision_test(&i, Point { x: 0, y: 39 }));
}

#[test]
fn collision_with_locked_cells() {
    let mut b = Board::new();
    let o = Tetromino::new_o();
    lock(&mut b, &o, 4, 38);
    assert_eq!(b.cell(38, 4), Some(Color::Cyan));
    assert_eq!(b.cell(39, 5), Some(Color::Cyan));
    assert_eq!(b.cell(39, 6), None);
    assert!(b.collision_test(&o, Point { x: 5, y: 37 }));
    assert!(!b.collision_test(&o, Point { x: 6, y: 38 }));
    assert!(!b.collision_test(&o, Point { x: 4, y: 36 }));
}

#[test]
fn clear_lines_nearly_full_then_full_row() {
    let mut b = Board::new();
    let i = Tetromino::new_i();
    // Row 39, columns 0..8, with a vertical bar at column 8 reaching row 36.
    lock(&mut b, &i, 0, 38);
    lock(&mut b, &i, 4, 38);
    lock(&mut b, &vertical_i(), 6, 36);
    let before = snapshot(&b);
    assert_eq!(b.clear_lines(), 0);
    assert_eq!(snapshot(&b), before);
    lock(&mut b, &vertical_i(), 7, 36);
    assert_eq!(b.clear_lines(), 1);
    // Rows 36..38 held columns 8 and 9; they moved down by one.
    for r in 37..BOARD_HEIGHT {
        for c in 0..BOARD_WIDTH {
            let expected = if c >= 8 { Some(Color::Black) } else { None };
            assert_eq!(b.cell(r, c), expected);
        }
    }
    for c in 0..BOARD_WIDTH {
        assert_eq!(b.cell(36, c), None);
        assert_eq!(b.cell(0, c), None);
    }
}

#[test]
fn clear_lines_non_adjacent_rows() {
    let mut b = Board::new();
    let i = Tetromino::new_i();
    let o = Tetromino::new_o();
    // Complete rows 39 and 37; row 38 keeps a marker at columns 8 and 9 only.
    for y in [36, 38] {
        lock(&mut b, &i, 0, y);
        lock(&mut b, &i, 4, y);
    }
    lock(&mut b, &o, 8, 38);
    lock(&mut b, &o, 8, 36);
    // Marker above the cleared rows.
    lock(&mut b, &o, 0, 34);
    assert_eq!(b.clear_lines(), 2);
    // Row 38 (marker) drops to 39, the O at rows 34..35 drops by two.
    assert_eq!(b.cell(39, 8), Some(Color::Cyan));
    assert_eq!(b.cell(39, 9), Some(Color::Cyan));
    assert_eq!(b.cell(39, 0), None);
    assert_eq!(b.cell(38, 8), Some(Color::Cyan));
    assert_eq!(b.cell(38, 0), None);
    assert_eq!(b.cell(37, 0), Some(Color::Cyan));
    assert_eq!(b.cell(36, 1), Some(Color::Cyan));
    assert_eq!(b.cell(35, 0), None);
}

#[test]
fn add_lines_shifts_and_fills() {
    let mut b = Board::new();
    let o = Tetromino::new_o();
    lock(&mut b, &o, 0, 38);
    assert_eq!(b.add_lines(2), 2);
    for c in 0..BOARD_WIDTH {
        assert_eq!(b.cell(39, c), Some(Color::Red));
        assert_eq!(b.cell(38, c), Some(Color::Red));
    }
    assert_eq!(b.cell(36, 0), Some(Color::Cyan));
    assert_eq!(b.cell(37, 1), Some(Color::Cyan));
    assert_eq!(b.cell(37, 2), None);
    assert!(!b.lost());
}

#[test]
fn add_lines_tops_out_when_pushing_into_hidden_rows() {
    let mut b = Board::new();
    let o = Tetromino::new_o();
    lock(&mut b, &o, 3, HIDDEN_ROWS as i32);
    assert!(!b.lost());
    let mut c = Board::new();
    lock(&mut c, &o, 3, HIDDEN_ROWS as i32 + 2);
    assert_eq!(c.add_lines(1), 1);
    assert!(!c.lost());
    assert_eq!(b.add_lines(1), 1);
    assert!(b.lost());
    assert_eq!(b.cell(HIDDEN_ROWS - 1, 3), Some(Color::Cyan));
}

#[test]
fn add_zero_lines_keeps_board() {
    let mut b = Board::new();
    lock(&mut b, &Tetromino::new_t(), 2, 20);
    let before = snapshot(&b);
    assert_eq!(b.add_lines(0), 0);
    assert_eq!(snapshot(&b), before);
}
