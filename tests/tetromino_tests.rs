use tetris::tetromino::{Color, Direction, Tetromino, TetrominoQueue};

fn all_shapes() -> Vec<Tetromino> {
    vec![
        Tetromino::new_o(),
        Tetromino::new_l(),
        Tetromino::new_j(),
        Tetromino::new_t(),
        Tetromino::new_s(),
        Tetromino::new_z(),
        Tetromino::new_i(),
    ]
}

#[test]
fn canonical_shapes() {
    let t = Tetromino::new_t();
    assert_eq!(t.color, Color::Purple);
    assert_eq!(t.shape, vec![vec![0, 1, 0], vec![1, 1, 1], vec![0, 0, 0]]);
    let i = Tetromino::new_i();
    assert_eq!(i.color, Color::Black);
    assert_eq!(i.shape.len(), 4);
    assert_eq!(Tetromino::new_o().shape, vec![vec![1, 1], vec![1, 1]]);
}

#[test]
fn rotate_clockwise_once() {
    let mut t = Tetromino::new_t();
    t.rotate(Direction::CW);
    assert_eq!(t.shape, vec![vec![0, 1, 0], vec![0, 1, 1], vec![0, 1, 0]]);
    let mut l = Tetromino::new_l();
    l.rotate(Direction::CCW);
    assert_eq!(l.shape, vec![vec![1, 1, 0], vec![0, 1, 0], vec![0, 1, 0]]);
}

#[test]
fn rotate_four_times_restores() {
    for t in all_shapes() {
        for d in [Direction::CW, Direction::CCW] {
            let mut r = t.clone();
            for _ in 0..4 {
                r.rotate(d);
            }
            assert_eq!(r.shape, t.shape);
            assert_eq!(r.color, t.color);
        }
    }
}

#[test]
fn rotate_there_and_back() {
    for t in all_shapes() {
        let mut a = t.clone();
        a.rotate(Direction::CW);
        a.rotate(Direction::CCW);
        assert_eq!(a.shape, t.shape);
        let mut b = t.clone();
        b.rotate(Direction::CCW);
        b.rotate(Direction::CW);
        assert_eq!(b.shape, t.shape);
    }
}

#[test]
fn each_point_row_major() {
    let t = Tetromino::new_t();
    assert_eq!(t.each_point(), vec![(0, 1), (1, 0), (1, 1), (1, 2)]);
    let i = Tetromino::new_i();
    assert_eq!(i.each_point(), vec![(1, 0), (1, 1), (1, 2), (1, 3)]);
}

fn assert_bag(pieces: &[Tetromino]) {
    assert_eq!(pieces.len(), 7);
    for s in all_shapes() {
        let n = pieces.iter().filter(|p| p.color == s.color && p.shape == s.shape).count();
        assert_eq!(n, 1);
    }
}

#[test]
fn new_queue_is_a_bag() {
    for _ in 0..20 {
        let q = TetrominoQueue::new();
        assert_bag(&q.tetrominoes);
    }
}

#[test]
fn add_seven_appends_a_bag() {
    let mut q = TetrominoQueue::new();
    let first: Vec<Tetromino> = q.tetrominoes.clone();
    q.add_seven();
    assert_eq!(q.tetrominoes.len(), 14);
    for k in 0..7 {
        assert_eq!(q.tetrominoes[k].shape, first[k].shape);
    }
    assert_bag(&q.tetrominoes[7..]);
}

#[test]
fn peek_does_not_consume() {
    let mut q = TetrominoQueue::new();
    let a = q.peek();
    let b = q.peek();
    assert_eq!(a.shape, b.shape);
    assert_eq!(a.color, b.color);
    assert_eq!(q.tetrominoes.len(), 7);
}

#[test]
fn peek_refills_empty_queue() {
    let mut q = TetrominoQueue { tetrominoes: Vec::new() };
    let a = q.peek();
    assert_eq!(q.tetrominoes.len(), 7);
    assert_eq!(a.color, q.tetrominoes[0].color);
    assert_bag(&q.tetrominoes);
}

#[test]
fn take_next_draws_bags_in_sequence() {
    let mut q = TetrominoQueue::new();
    let mut drawn = Vec::new();
    for _ in 0..21 {
        drawn.push(q.take_next());
    }
    assert_bag(&drawn[0..7]);
    assert_bag(&drawn[7..14]);
    assert_bag(&drawn[14..21]);
}
