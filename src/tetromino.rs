//! Piece geometry and the seven-piece bag randomizer.
use vstd::prelude::*;
use rand::Rng;

verus! {

/// Colour of a locked cell or of a piece.
#[derive(Debug, PartialEq, Eq, Copy, Clone, Structural)]
pub enum Color {
    Black,
    Cyan,
    Purple,
    Green,
    Red,
    Blue,
    Orange,
}

/// Direction of a quarter turn.
#[derive(Debug, PartialEq, Eq, Copy, Clone, Structural)]
pub enum Direction {
    CCW,
    CW,
}

/// A piece: a colour and a square 0/1 occupancy matrix, indexed `[row][col]`.
#[derive(Debug)]
pub struct Tetromino {
    pub color: Color,
    pub shape: Vec<Vec<u8>>,
}

/// The mathematical value of a piece.
pub struct PieceModel {
    pub color: Color,
    pub cells: Seq<Seq<u8>>,
}

impl View for Tetromino {
    type V = PieceModel;

    open spec fn view(&self) -> PieceModel {
        PieceModel { color: self.color, cells: self.shape@.map_values(|r: Vec<u8>| r@) }
    }
}

/// Every row has as many entries as there are rows.
pub open spec fn is_square(m: Seq<Seq<u8>>) -> bool {
    forall|i: int| 0 <= i < m.len() ==> (#[trigger] m[i]).len() == m.len()
}

/// Cell `(row, col)` of the matrix is occupied.
pub open spec fn occupied(m: Seq<Seq<u8>>, row: int, col: int) -> bool {
    0 <= row < m.len() && 0 <= col < m[row].len() && m[row][col] != 0
}

/// The matrix turned a quarter clockwise.
pub open spec fn rotated_cw(m: Seq<Seq<u8>>) -> Seq<Seq<u8>> {
    Seq::new(m.len(), |i: int| Seq::new(m.len(), |j: int| m[m.len() - 1 - j][i]))
}

/// The matrix turned a quarter counter-clockwise.
pub open spec fn rotated_ccw(m: Seq<Seq<u8>>) -> Seq<Seq<u8>> {
    Seq::new(m.len(), |i: int| Seq::new(m.len(), |j: int| m[j][m.len() - 1 - i]))
}

pub open spec fn rotated(m: Seq<Seq<u8>>, d: Direction) -> Seq<Seq<u8>> {
    match d {
        Direction::CW => rotated_cw(m),
        Direction::CCW => rotated_ccw(m),
    }
}

/// `a` comes strictly before `b` in row-major order.
pub open spec fn lex_before(a: (i32, i32), b: (i32, i32)) -> bool {
    a.0 < b.0 || (a.0 == b.0 && a.1 < b.1)
}

/// A piece the board logic accepts: a square matrix of side 2 to 4 with at
/// least one occupied cell.
pub open spec fn valid_piece(p: PieceModel) -> bool {
    &&& 2 <= p.cells.len() <= 4
    &&& is_square(p.cells)
    &&& exists|r: int, c: int| occupied(p.cells, r, c)
}

/// The seven canonical pieces, numbered O, L, J, T, S, Z, I.
#[verifier::opaque]
pub open spec fn canonical(k: int) -> PieceModel {
    if k == 0 {
        PieceModel { color: Color::Cyan, cells: seq![seq![1u8, 1], seq![1u8, 1]] }
    } else if k == 1 {
        PieceModel {
            color: Color::Orange,
            cells: seq![seq![0u8, 0, 1], seq![1u8, 1, 1], seq![0u8, 0, 0]],
        }
    } else if k == 2 {
        PieceModel {
            color: Color::Blue,
            cells: seq![seq![1u8, 0, 0], seq![1u8, 1, 1], seq![0u8, 0, 0]],
        }
    } else if k == 3 {
        PieceModel {
            color: Color::Purple,
            cells: seq![seq![0u8, 1, 0], seq![1u8, 1, 1], seq![0u8, 0, 0]],
        }
    } else if k == 4 {
        PieceModel {
            color: Color::Green,
            cells: seq![seq![0u8, 1, 1], seq![1u8, 1, 0], seq![0u8, 0, 0]],
        }
    } else if k == 5 {
        PieceModel {
            color: Color::Red,
            cells: seq![seq![1u8, 1, 0], seq![0u8, 1, 1], seq![0u8, 0, 0]],
        }
    } else {
        PieceModel {
            color: Color::Black,
            cells: seq![
                seq![0u8, 0, 0, 0],
                seq![1u8, 1, 1, 1],
                seq![0u8, 0, 0, 0],
                seq![0u8, 0, 0, 0],
            ],
        }
    }
}

/// Each canonical piece is valid, and distinct numbers give distinct pieces.
pub proof fn lemma_canonical(k: int)
    requires
        0 <= k < 7,
    ensures
        valid_piece(canonical(k)),
        forall|j: int| 0 <= j < 7 && j != k ==> canonical(j) != canonical(k),
{
    reveal(canonical);
    let m = canonical(k).cells;
    assert(is_square(m));
    if k == 6 {
        assert(occupied(m, 1, 0));
    } else {
        assert(occupied(m, 1, 1));
    }
    assert forall|j: int| 0 <= j < 7 && j != k implies canonical(j) != canonical(k) by {
        assert(canonical(j).color != canonical(k).color);
    }
}

proof fn lemma_rotation_keeps_valid(p: PieceModel, d: Direction)
    requires
        valid_piece(p),
    ensures
        valid_piece(PieceModel { color: p.color, cells: rotated(p.cells, d) }),
{
    let m = p.cells;
    let n = m.len();
    let q = rotated(m, d);
    let (r, c) = choose|r: int, c: int| occupied(m, r, c);
    assert(is_square(q));
    match d {
        Direction::CW => {
            assert(q[c][n - 1 - r] == m[r][c]);
            assert(occupied(q, c, n - 1 - r));
        },
        Direction::CCW => {
            assert(q[n - 1 - c][r] == m[r][c]);
            assert(occupied(q, n - 1 - c, r));
        },
    }
    assert(exists|r2: int, c2: int| occupied(q, r2, c2));
}

/// A quarter turn one way undoes a quarter turn the other way, and four quarter
/// turns the same way give back the matrix.
pub proof fn lemma_rotation_round_trip(m: Seq<Seq<u8>>)
    requires
        is_square(m),
    ensures
        rotated_ccw(rotated_cw(m)) == m,
        rotated_cw(rotated_ccw(m)) == m,
        rotated_cw(rotated_cw(rotated_cw(rotated_cw(m)))) == m,
        rotated_ccw(rotated_ccw(rotated_ccw(rotated_ccw(m)))) == m,
{
    assert(rotated_ccw(rotated_cw(m)) =~~= m);
    assert(rotated_cw(rotated_ccw(m)) =~~= m);
    let h = rotated_cw(rotated_cw(m));
    assert(is_square(h));
    assert(rotated_cw(rotated_cw(h)) =~~= m);
    let g = rotated_ccw(rotated_ccw(m));
    assert(is_square(g));
    assert(rotated_ccw(rotated_ccw(g)) =~~= m);
}

/// The first cell of the four-cell cycle that a quarter turn moves `(i, j)`
/// along, as `(ring, column)`: the cycle starts on the top edge of its ring.
spec fn ring_rep(n: int, i: int, j: int) -> (int, int) {
    let a = if i < j { i } else { j };
    let b = if n - 1 - i < n - 1 - j { n - 1 - i } else { n - 1 - j };
    let l = if a < b { a } else { b };
    if i == l && j < n - 1 - l {
        (l, j)
    } else if j == n - 1 - l && i < n - 1 - l {
        (l, i)
    } else if i == n - 1 - l && j > l {
        (l, n - 1 - j)
    } else {
        (l, n - 1 - i)
    }
}

/// The cycle starting at `rep` was turned before step `(row, col)`.
spec fn processed(n: int, row: int, col: int, rep: (int, int)) -> bool {
    &&& rep.0 <= rep.1 < n - 1 - rep.0
    &&& (rep.0 < row || (rep.0 == row && rep.1 < col))
}

proof fn lemma_ring_step(n: int, r: int, c: int)
    requires
        2 <= n <= 4,
        0 <= r,
        2 * r < n,
        r <= c < n - r - 1,
    ensures
        ring_rep(n, r, c) == (r, c),
        ring_rep(n, n - 1 - c, r) == (r, c),
        ring_rep(n, n - 1 - r, n - 1 - c) == (r, c),
        ring_rep(n, c, n - 1 - r) == (r, c),
        forall|i: int, j: int| 0 <= i < n && 0 <= j < n && #[trigger] ring_rep(n, i, j) == (r, c) ==>
            (i == r && j == c) || (i == n - 1 - c && j == r) || (i == n - 1 - r && j == n - 1 - c) || (i == c && j == n - 1 - r),
{
}

proof fn lemma_ring_rep_range(n: int, i: int, j: int)
    requires
        2 <= n <= 4,
        0 <= i < n,
        0 <= j < n,
    ensures
        ring_rep(n, i, j).0 <= ring_rep(n, i, j).1 < n - 1 - ring_rep(n, i, j).0 ==> 2 * ring_rep(n, i, j).0 < n - 1,
        !(ring_rep(n, i, j).0 <= ring_rep(n, i, j).1 < n - 1 - ring_rep(n, i, j).0) ==> (2 * i == n - 1 && i == j),
{
}

fn row2(a: u8, b: u8) -> (r: Vec<u8>)
    ensures
        r@ == seq![a, b],
{
    let mut r: Vec<u8> = Vec::new();
    r.push(a);
    r.push(b);
    assert(r@ =~= seq![a, b]);
    r
}

fn row3(a: u8, b: u8, c: u8) -> (r: Vec<u8>)
    ensures
        r@ == seq![a, b, c],
{
    let mut r: Vec<u8> = Vec::new();
    r.push(a);
    r.push(b);
    r.push(c);
    assert(r@ =~= seq![a, b, c]);
    r
}

fn row4(a: u8, b: u8, c: u8, d: u8) -> (r: Vec<u8>)
    ensures
        r@ == seq![a, b, c, d],
{
    let mut r: Vec<u8> = Vec::new();
    r.push(a);
    r.push(b);
    r.push(c);
    r.push(d);
    assert(r@ =~= seq![a, b, c, d]);
    r
}

fn three_rows(color: Color, a: Vec<u8>, b: Vec<u8>, c: Vec<u8>) -> (t: Tetromino)
    ensures
        t@ == (PieceModel { color, cells: seq![a@, b@, c@] }),
{
    let mut shape: Vec<Vec<u8>> = Vec::new();
    shape.push(a);
    shape.push(b);
    shape.push(c);
    let t = Tetromino { color, shape };
    assert(t@.cells =~= seq![a@, b@, c@]);
    t
}

impl Clone for Tetromino {
    fn clone(&self) -> (r: Self)
        ensures
            r@ == self@,
    {
        let mut shape: Vec<Vec<u8>> = Vec::with_capacity(self.shape.len());
        let mut i: usize = 0;
        while i < self.shape.len()
            invariant
                i <= self.shape@.len(),
                shape@.len() == i,
                forall|k: int| 0 <= k < i ==> (#[trigger] shape@[k])@ == self.shape@[k]@,
            decreases self.shape@.len() - i,
        {
            let row = self.shape[i].clone();
            assert(row@ =~= self.shape@[i as int]@);
            shape.push(row);
            i += 1;
        }
        let r = Tetromino { color: self.color, shape };
        assert(r@.cells =~= self@.cells);
        r
    }
}

impl Tetromino {
    /// Well-formed: the model is a valid piece.
    pub open spec fn well_formed(&self) -> bool {
        valid_piece(self@)
    }

    fn put(&mut self, i: usize, j: usize, v: u8)
        requires
            i < old(self).shape@.len(),
            j < old(self).shape@[i as int]@.len(),
        ensures
            final(self)@.color == old(self)@.color,
            final(self)@.cells == old(self)@.cells.update(i as int, old(self)@.cells[i as int].update(j as int, v)),
            final(self).shape@.len() == old(self).shape@.len(),
            forall|k: int| 0 <= k < old(self).shape@.len() ==> (#[trigger] final(self).shape@[k])@.len() == old(self).shape@[k]@.len(),
    {
        let ghost pre = self@.cells;
        self.shape[i][j] = v;
        assert(self@.cells =~= pre.update(i as int, pre[i as int].update(j as int, v)));
    }

    /// Turns the piece a quarter in `direction`, keeping its colour. The
    /// matrix is turned in place, ring by ring from the outside, each step
    /// moving four cells round one quarter.
    pub fn rotate(&mut self, direction: Direction)
        requires
            old(self).well_formed(),
        ensures
            final(self)@ == (PieceModel {
                color: old(self)@.color,
                cells: rotated(old(self)@.cells, direction),
            }),
            final(self).well_formed(),
    {
        let size = self.shape.len();
        let ghost m = self@.cells;
        let ghost n = size as int;
        let ghost target = rotated(m, direction);
        let mut row: usize = 0;
        while row < size / 2
            invariant
                n == size,
                size == self.shape@.len(),
                2 <= n <= 4,
                is_square(m),
                m.len() == n,
                target == rotated(m, direction),
                self@.color == old(self)@.color,
                m == old(self)@.cells,
                is_square(self@.cells),
                self@.cells.len() == n,
                row <= size / 2,
                forall|i: int, j: int| 0 <= i < n && 0 <= j < n ==> #[trigger] self@.cells[i][j] == (
                    if processed(n, row as int, row as int, ring_rep(n, i, j)) { target[i][j] } else { m[i][j] }),
            decreases size / 2 - row,
        {
            let mut col: usize = row;
            while col < size - row - 1
                invariant
                    n == size,
                    size == self.shape@.len(),
                    2 <= n <= 4,
                    is_square(m),
                    m.len() == n,
                    target == rotated(m, direction),
                    self@.color == old(self)@.color,
                    m == old(self)@.cells,
                    is_square(self@.cells),
                    self@.cells.len() == n,
                    row < size / 2,
                    row <= col <= size - row - 1,
                    forall|i: int, j: int| 0 <= i < n && 0 <= j < n ==> #[trigger] self@.cells[i][j] == (
                        if processed(n, row as int, col as int, ring_rep(n, i, j)) { target[i][j] } else { m[i][j] }),
                decreases size - row - 1 - col,
            {
                let ghost before = self@.cells;
                proof {
                    lemma_ring_step(n, row as int, col as int);
                    assert(self@.cells[row as int] == self.shape@[row as int]@);
                    assert(self@.cells[(size - col - 1) as int] == self.shape@[(size - col - 1) as int]@);
                    assert(self@.cells[(size - row - 1) as int] == self.shape@[(size - row - 1) as int]@);
                    assert(self@.cells[col as int] == self.shape@[col as int]@);
                    assert(self.shape@[row as int]@.len() == n);
                    assert(self.shape@[(size - col - 1) as int]@.len() == n);
                    assert(self.shape@[(size - row - 1) as int]@.len() == n);
                    assert(self.shape@[col as int]@.len() == n);
                }
                let last = size - row - 1;
                let opp = size - col - 1;
                let t = self.shape[row][col];
                match direction {
                    Direction::CCW => {
                        let v = self.shape[col][last];
                        self.put(row, col, v);
                        let v = self.shape[last][opp];
                        self.put(col, last, v);
                        let v = self.shape[opp][row];
                        self.put(last, opp, v);
                        self.put(opp, row, t);
                    },
                    Direction::CW => {
                        let v = self.shape[opp][row];
                        self.put(row, col, v);
                        let v = self.shape[last][opp];
                        self.put(opp, row, v);
                        let v = self.shape[col][last];
                        self.put(last, opp, v);
                        self.put(col, last, t);
                    },
                }
                proof {
                    let r = row as int;
                    let c = col as int;
                    let l = last as int;
                    let o = opp as int;
                    assert forall|i: int, j: int| 0 <= i < n && 0 <= j < n implies #[trigger] self@.cells[i][j] == (
                        if processed(n, r, c + 1, ring_rep(n, i, j)) { target[i][j] } else { m[i][j] }) by {
                        if (i == r && j == c) || (i == o && j == r) || (i == l && j == o) || (i == c && j == l) {
                            assert(before[r][c] == m[r][c]);
                            assert(before[o][r] == m[o][r]);
                            assert(before[l][o] == m[l][o]);
                            assert(before[c][l] == m[c][l]);
                        } else {
                            assert(self@.cells[i][j] == before[i][j]);
                        }
                    }
                    assert(is_square(self@.cells));
                }
                col += 1;
            }
            proof {
                assert forall|i: int, j: int| 0 <= i < n && 0 <= j < n implies #[trigger] self@.cells[i][j] == (
                    if processed(n, row + 1, row + 1, ring_rep(n, i, j)) { target[i][j] } else { m[i][j] }) by {
                    lemma_ring_rep_range(n, i, j);
                }
            }
            row += 1;
        }
        proof {
            assert forall|i: int, j: int| 0 <= i < n && 0 <= j < n implies #[trigger] self@.cells[i][j] == target[i][j] by {
                lemma_ring_rep_range(n, i, j);
            }
            assert(self@.cells =~~= target);
            lemma_rotation_keeps_valid(old(self)@, direction);
        }
    }

    /// The occupied cells as `(row, col)` pairs, in row-major order.
    pub fn each_point(&self) -> (r: Vec<(i32, i32)>)
        requires
            self.well_formed(),
        ensures
            forall|k: int| 0 <= k < r@.len() ==> occupied(self@.cells, (#[trigger] r@[k]).0 as int, r@[k].1 as int),
            forall|row: int, col: int| #[trigger] occupied(self@.cells, row, col) ==>
                exists|k: int| 0 <= k < r@.len() && r@[k] == (row as i32, col as i32),
            forall|a: int, b: int| 0 <= a < b < r@.len() ==> lex_before(#[trigger] r@[a], #[trigger] r@[b]),
    {
        let n = self.shape.len();
        let ghost m = self@.cells;
        let mut out: Vec<(i32, i32)> = Vec::new();
        let mut i: usize = 0;
        while i < n
            invariant
                n == self.shape@.len(),
                m == self@.cells,
                valid_piece(self@),
                i <= n,
                forall|k: int| 0 <= k < out@.len() ==> occupied(m, (#[trigger] out@[k]).0 as int, out@[k].1 as int),
                forall|k: int| 0 <= k < out@.len() ==> (#[trigger] out@[k]).0 < i,
                forall|row: int, col: int| #[trigger] occupied(m, row, col) && row < i ==>
                    exists|k: int| 0 <= k < out@.len() && out@[k] == (row as i32, col as i32),
                forall|a: int, b: int| 0 <= a < b < out@.len() ==> lex_before(#[trigger] out@[a], #[trigger] out@[b]),
            decreases n - i,
        {
            let mut j: usize = 0;
            while j < n
                invariant
                    n == self.shape@.len(),
                    m == self@.cells,
                    valid_piece(self@),
                    i < n,
                    j <= n,
                    forall|k: int| 0 <= k < out@.len() ==> occupied(m, (#[trigger] out@[k]).0 as int, out@[k].1 as int),
                    forall|k: int| 0 <= k < out@.len() ==> lex_before(#[trigger] out@[k], (i as i32, j as i32)),
                    forall|row: int, col: int| #[trigger] occupied(m, row, col) && (row < i || (row == i && col < j)) ==>
                        exists|k: int| 0 <= k < out@.len() && out@[k] == (row as i32, col as i32),
                    forall|a: int, b: int| 0 <= a < b < out@.len() ==> lex_before(#[trigger] out@[a], #[trigger] out@[b]),
                decreases n - j,
            {
                assert(m[i as int].len() == n);
                if self.shape[i][j] != 0 {
                    let ghost before = out@;
                    out.push((i as i32, j as i32));
                    assert forall|row: int, col: int| #[trigger] occupied(m, row, col) && (row < i || (row == i && col < j + 1)) implies
                        exists|k: int| 0 <= k < out@.len() && out@[k] == (row as i32, col as i32) by {
                        if row == i && col == j {
                            assert(out@[before.len() as int] == (row as i32, col as i32));
                        } else {
                            let k = choose|k: int| 0 <= k < before.len() && before[k] == (row as i32, col as i32);
                            assert(out@[k] == before[k]);
                        }
                    }
                } else {
                    assert forall|row: int, col: int| #[trigger] occupied(m, row, col) && (row < i || (row == i && col < j + 1)) implies
                        exists|k: int| 0 <= k < out@.len() && out@[k] == (row as i32, col as i32) by {
                        if row == i && col == j {
                            assert(false);
                        }
                    }
                }
                j += 1;
            }
            i += 1;
        }
        out
    }

    pub fn new_o() -> (t: Tetromino)
        ensures
            t@ == canonical(0),
    {
        proof {
            reveal(canonical);
        }
        let mut shape: Vec<Vec<u8>> = Vec::new();
        shape.push(row2(1, 1));
        shape.push(row2(1, 1));
        let t = Tetromino { color: Color::Cyan, shape };
        assert(t@.cells =~= canonical(0).cells);
        t
    }

    pub fn new_l() -> (t: Tetromino)
        ensures
            t@ == canonical(1),
    {
        proof {
            reveal(canonical);
        }
        three_rows(Color::Orange, row3(0, 0, 1), row3(1, 1, 1), row3(0, 0, 0))
    }

    pub fn new_j() -> (t: Tetromino)
        ensures
            t@ == canonical(2),
    {
        proof {
            reveal(canonical);
        }
        three_rows(Color::Blue, row3(1, 0, 0), row3(1, 1, 1), row3(0, 0, 0))
    }

    pub fn new_t() -> (t: Tetromino)
        ensures
            t@ == canonical(3),
    {
        proof {
            reveal(canonical);
        }
        three_rows(Color::Purple, row3(0, 1, 0), row3(1, 1, 1), row3(0, 0, 0))
    }

    pub fn new_s() -> (t: Tetromino)
        ensures
            t@ == canonical(4),
    {
        proof {
            reveal(canonical);
        }
        three_rows(Color::Green, row3(0, 1, 1), row3(1, 1, 0), row3(0, 0, 0))
    }

    pub fn new_z() -> (t: Tetromino)
        ensures
            t@ == canonical(5),
    {
        proof {
            reveal(canonical);
        }
        three_rows(Color::Red, row3(1, 1, 0), row3(0, 1, 1), row3(0, 0, 0))
    }

    pub fn new_i() -> (t: Tetromino)
        ensures
            t@ == canonical(6),
    {
        proof {
            reveal(canonical);
        }
        let mut shape: Vec<Vec<u8>> = Vec::new();
        shape.push(row4(0, 0, 0, 0));
        shape.push(row4(1, 1, 1, 1));
        shape.push(row4(0, 0, 0, 0));
        shape.push(row4(0, 0, 0, 0));
        let t = Tetromino { color: Color::Black, shape };
        assert(t@.cells =~= canonical(6).cells);
        t
    }
}

} // verus!

verus! {

/// Relies on `rand::thread_rng().gen_range(0..n)`: a value drawn from `0..n`,
/// which it returns for every non-empty range.
#[verifier::external_body]
fn random_below(n: usize) -> (r: usize)
    requires
        n > 0,
    ensures
        r < n,
{
    rand::thread_rng().gen_range(0..n)
}

/// The piece is one of the seven canonical ones.
#[verifier::opaque]
pub open spec fn is_canonical(p: PieceModel) -> bool {
    exists|k: int| 0 <= k < 7 && p == canonical(k)
}

/// Seven pieces holding each canonical piece exactly once.
#[verifier::opaque]
pub open spec fn is_bag(s: Seq<PieceModel>) -> bool {
    &&& s.len() == 7
    &&& forall|k: int| 0 <= k < 7 ==> exists|i: int| 0 <= i < 7 && s[i] == #[trigger] canonical(k)
    &&& forall|i: int| 0 <= i < 7 ==> is_canonical(#[trigger] s[i])
    &&& forall|i: int, j: int| 0 <= i < j < 7 ==> #[trigger] s[i] != #[trigger] s[j]
}

/// Every piece of the sequence is a canonical one.
#[verifier::opaque]
pub open spec fn all_canonical(s: Seq<PieceModel>) -> bool {
    forall|i: int| 0 <= i < s.len() ==> is_canonical(#[trigger] s[i])
}

/// Loop state while a bag is drawn: kinds already drawn and kinds left, each
/// of the seven exactly once over both.
spec fn draw_state(drawn: Seq<int>, left: Seq<u8>) -> bool {
    &&& drawn.len() + left.len() == 7
    &&& forall|i: int| 0 <= i < drawn.len() ==> 0 <= #[trigger] drawn[i] < 7
    &&& forall|i: int| 0 <= i < left.len() ==> #[trigger] left[i] < 7
    &&& drawn.no_duplicates()
    &&& left.no_duplicates()
    &&& forall|i: int, j: int| 0 <= i < drawn.len() && 0 <= j < left.len() ==> #[trigger] drawn[i] != #[trigger] left[j] as int
    &&& forall|k: int| 0 <= k < 7 ==> drawn.contains(k) || left.contains(k as u8)
}

proof fn lemma_draw_step(drawn: Seq<int>, left: Seq<u8>, i: int)
    requires
        draw_state(drawn, left),
        0 <= i < left.len(),
    ensures
        draw_state(drawn.push(left[i] as int), left.remove(i)),
{
    let d2 = drawn.push(left[i] as int);
    let l2 = left.remove(i);
    assert forall|a: int, b: int| 0 <= a < b < l2.len() implies l2[a] != l2[b] by {
        let a0 = if a < i { a } else { a + 1 };
        let b0 = if b < i { b } else { b + 1 };
        assert(l2[a] == left[a0] && l2[b] == left[b0]);
    }
    assert forall|a: int, b: int| 0 <= a < b < d2.len() implies d2[a] != d2[b] by {
        if b == d2.len() - 1 {
            assert(d2[a] == drawn[a]);
        } else {
            assert(d2[a] == drawn[a] && d2[b] == drawn[b]);
        }
    }
    assert forall|a: int, b: int| 0 <= a < d2.len() && 0 <= b < l2.len() implies #[trigger] d2[a] != #[trigger] l2[b] as int by {
        let b0 = if b < i { b } else { b + 1 };
        assert(l2[b] == left[b0]);
        if a < d2.len() - 1 {
            assert(d2[a] == drawn[a]);
        }
    }
    assert forall|i2: int| 0 <= i2 < d2.len() implies 0 <= #[trigger] d2[i2] < 7 by {
        if i2 < drawn.len() {
            assert(d2[i2] == drawn[i2]);
        }
    }
    assert forall|i2: int| 0 <= i2 < l2.len() implies #[trigger] l2[i2] < 7 by {
        let b0 = if i2 < i { i2 } else { i2 + 1 };
        assert(l2[i2] == left[b0]);
    }
    assert forall|k: int| 0 <= k < 7 implies d2.contains(k) || l2.contains(k as u8) by {
        if drawn.contains(k) {
            let a = choose|a: int| 0 <= a < drawn.len() && drawn[a] == k;
            assert(d2[a] == k);
        } else {
            let j = choose|j: int| 0 <= j < left.len() && left[j] == k as u8;
            if j == i {
                assert(d2[d2.len() - 1] == k);
            } else if j < i {
                assert(l2[j] == k as u8);
            } else {
                assert(l2[j - 1] == k as u8);
            }
        }
    }
}

proof fn lemma_drawn_bag(drawn: Seq<int>)
    requires
        draw_state(drawn, Seq::empty()),
    ensures
        is_bag(drawn.map_values(|d: int| canonical(d))),
{
    reveal(is_bag);
    let batch = drawn.map_values(|d: int| canonical(d));
    assert forall|k: int| 0 <= k < 7 implies exists|i: int| 0 <= i < 7 && batch[i] == #[trigger] canonical(k) by {
        assert(drawn.contains(k) || Seq::<u8>::empty().contains(k as u8));
        let i = choose|i: int| 0 <= i < drawn.len() && drawn[i] == k;
        assert(batch[i] == canonical(drawn[i]));
    }
    assert forall|i: int| 0 <= i < 7 implies is_canonical(#[trigger] batch[i]) by {
        reveal(is_canonical);
        assert(batch[i] == canonical(drawn[i]));
    }
    assert forall|i: int, j: int| 0 <= i < j < 7 implies #[trigger] batch[i] != #[trigger] batch[j] by {
        lemma_canonical(drawn[i]);
        assert(drawn[i] != drawn[j]);
    }
}

proof fn lemma_concat_canonical(a: Seq<PieceModel>, b: Seq<PieceModel>)
    requires
        all_canonical(a),
        all_canonical(b),
    ensures
        all_canonical(a + b),
{
    reveal(all_canonical);
    let s = a + b;
    assert forall|i: int| 0 <= i < s.len() implies is_canonical(#[trigger] s[i]) by {
        if i < a.len() {
            assert(s[i] == a[i]);
        } else {
            assert(s[i] == b[i - a.len()]);
        }
    }
}

proof fn lemma_bag_canonical(s: Seq<PieceModel>)
    requires
        is_bag(s),
    ensures
        all_canonical(s),
{
    reveal(is_bag);
    reveal(all_canonical);
    assert forall|i: int| 0 <= i < s.len() implies is_canonical(#[trigger] s[i]) by {
        assert(0 <= i < 7);
    }
}

/// Pending pieces, refilled a bag of seven at a time.
#[derive(Debug)]
pub struct TetrominoQueue {
    pub tetrominoes: Vec<Tetromino>,
}

impl View for TetrominoQueue {
    type V = Seq<PieceModel>;

    open spec fn view(&self) -> Seq<PieceModel> {
        self.tetrominoes@.map_values(|t: Tetromino| t@)
    }
}

fn piece_of_kind(k: u8) -> (t: Tetromino)
    requires
        k < 7,
    ensures
        t@ == canonical(k as int),
{
    match k {
        0 => Tetromino::new_o(),
        1 => Tetromino::new_l(),
        2 => Tetromino::new_j(),
        3 => Tetromino::new_t(),
        4 => Tetromino::new_s(),
        5 => Tetromino::new_z(),
        _ => Tetromino::new_i(),
    }
}

impl TetrominoQueue {
    /// Well-formed: only canonical pieces are pending.
    pub open spec fn well_formed(&self) -> bool {
        all_canonical(self@)
    }

    /// A queue holding one freshly drawn bag.
    pub fn new() -> (q: TetrominoQueue)
        ensures
            is_bag(q@),
            q.well_formed(),
    {
        let mut q = TetrominoQueue { tetrominoes: Vec::new() };
        q.add_seven();
        proof {
            let batch = choose|b: Seq<PieceModel>| is_bag(b) && q@ == Seq::<PieceModel>::empty() + b;
            assert(q@ =~= batch);
            lemma_bag_canonical(batch);
        }
        q
    }

    /// Appends the seven canonical pieces in an order drawn at random: each
    /// piece is picked uniformly among those not yet taken.
    pub fn add_seven(&mut self)
        ensures
            exists|batch: Seq<PieceModel>| is_bag(batch) && final(self)@ == old(self)@ + batch,
            old(self).well_formed() ==> final(self).well_formed(),
    {
        let mut kinds: Vec<u8> = Vec::new();
        let mut k: u8 = 0;
        while k < 7
            invariant
                k <= 7,
                kinds@.len() == k,
                forall|i: int| 0 <= i < k ==> kinds@[i] == i,
            decreases 7 - k,
        {
            kinds.push(k);
            k += 1;
        }
        let ghost start = self@;
        let ghost mut drawn: Seq<int> = Seq::empty();
        assert forall|k: int| 0 <= k < 7 implies drawn.contains(k) || kinds@.contains(k as u8) by {
            assert(kinds@[k] == k as u8);
        }
        while kinds.len() > 0
            invariant
                self@ == start + drawn.map_values(|d: int| canonical(d)),
                draw_state(drawn, kinds@),
            decreases kinds@.len(),
        {
            let i = random_below(kinds.len());
            let ghost old_kinds = kinds@;
            let kind = kinds.remove(i);
            let t = piece_of_kind(kind);
            let ghost prev = self@;
            self.tetrominoes.push(t);
            proof {
                let old_drawn = drawn;
                lemma_draw_step(drawn, old_kinds, i as int);
                drawn = drawn.push(kind as int);
                assert(self@ =~= prev.push(t@));
                assert(drawn.map_values(|d: int| canonical(d)) =~= old_drawn.map_values(
                    |d: int| canonical(d),
                ).push(canonical(kind as int)));
                assert(self@ =~= start + drawn.map_values(|d: int| canonical(d)));
            }
        }
        proof {
            let batch = drawn.map_values(|d: int| canonical(d));
            lemma_drawn_bag(drawn);
            lemma_bag_canonical(batch);
            if old(self).well_formed() {
                lemma_concat_canonical(start, batch);
            }
        }
    }

    /// A copy of the next pending piece; an empty queue is refilled first.
    pub fn peek(&mut self) -> (t: Tetromino)
        ensures
            old(self)@.len() > 0 ==> final(self)@ == old(self)@ && t@ == old(self)@[0],
            old(self)@.len() == 0 ==> is_bag(final(self)@) && t@ == final(self)@[0],
            old(self).well_formed() ==> final(self).well_formed(),
    {
        if self.tetrominoes.len() == 0 {
            self.add_seven();
            proof {
                let batch = choose|b: Seq<PieceModel>| is_bag(b) && self@ == old(self)@ + b;
                assert(self@ =~= batch);
                reveal(is_bag);
            }
        }
        self.tetrominoes[0].clone()
    }

    /// Removes and returns the next pending piece; an empty queue is refilled first.
    pub fn take_next(&mut self) -> (t: Tetromino)
        ensures
            old(self)@.len() > 0 ==> t@ == old(self)@[0] && final(self)@ == old(self)@.drop_first(),
            old(self)@.len() == 0 ==> exists|batch: Seq<PieceModel>|
                is_bag(batch) && t@ == batch[0] && final(self)@ == batch.drop_first(),
            old(self).well_formed() ==> final(self).well_formed() && valid_piece(t@),
    {
        if self.tetrominoes.len() == 0 {
            self.add_seven();
            proof {
                let batch = choose|b: Seq<PieceModel>| is_bag(b) && self@ == old(self)@ + b;
                assert(self@ =~= batch);
                lemma_bag_canonical(batch);
                reveal(is_bag);
            }
        }
        let ghost before = self@;
        let t = self.tetrominoes.remove(0);
        assert(self@ =~= before.drop_first());
        proof {
            reveal(all_canonical);
            if before.len() > 0 && all_canonical(before) {
                assert(before[0] == t@);
                assert(is_canonical(before[0]));
                reveal(is_canonical);
                let k = choose|k: int| 0 <= k < 7 && before[0] == canonical(k);
                lemma_canonical(k);
                assert forall|i: int| 0 <= i < self@.len() implies is_canonical(#[trigger] self@[i]) by {
                    assert(self@[i] == before[i + 1]);
                }
            }
        }
        t
    }
}

} // verus!
