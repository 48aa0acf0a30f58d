//! A player's grid: collision testing, locking, line clearing, garbage rows
//! and top-out detection.
use vstd::prelude::*;
use crate::tetromino::{occupied, Color, PieceModel, Tetromino};

verus! {

pub const BOARD_WIDTH: usize = 10;

pub const BOARD_HEIGHT: usize = 40;

/// Rows at the top that are never shown; a cell in them means the player lost.
pub const HIDDEN_ROWS: usize = 4;

/// Colour of injected garbage rows.
pub const GARBAGE_COLOR: Color = Color::Red;

/// Origin (top-left corner of the bounding box) of a piece on a board.
#[derive(Debug, Default, Copy, Clone)]
pub struct Point {
    pub x: i32,
    pub y: i32,
}

/// A grid of cells indexed `[row][col]`, row 0 at the top.
pub type Grid = Seq<Seq<Option<Color>>>;

#[derive(Debug)]
pub struct Board {
    cells: Vec<Vec<Option<Color>>>,
}

impl View for Board {
    type V = Grid;

    closed spec fn view(&self) -> Grid {
        self.cells@.map_values(|r: Vec<Option<Color>>| r@)
    }
}

/// The grid has the board's dimensions.
pub open spec fn grid_ok(g: Grid) -> bool {
    &&& g.len() == BOARD_HEIGHT
    &&& forall|r: int| 0 <= r < BOARD_HEIGHT ==> (#[trigger] g[r]).len() == BOARD_WIDTH
}

pub open spec fn empty_row() -> Seq<Option<Color>> {
    Seq::new(BOARD_WIDTH as nat, |c: int| None)
}

pub open spec fn garbage_row() -> Seq<Option<Color>> {
    Seq::new(BOARD_WIDTH as nat, |c: int| Some(GARBAGE_COLOR))
}

pub open spec fn empty_grid() -> Grid {
    Seq::new(BOARD_HEIGHT as nat, |r: int| empty_row())
}

/// Cell `(row, col)` lies on the board and is empty.
pub open spec fn cell_free(g: Grid, row: int, col: int) -> bool {
    0 <= row < BOARD_HEIGHT && 0 <= col < BOARD_WIDTH && g[row][col] is None
}

/// Some occupied cell of the piece, placed with its origin at `(x, y)`, is off
/// the board or on an occupied cell.
pub open spec fn collides(g: Grid, p: PieceModel, x: int, y: int) -> bool {
    exists|pr: int, pc: int| occupied(p.cells, pr, pc) && !cell_free(g, y + pr, x + pc)
}

/// The grid with the piece's colour written into every cell it covers.
pub open spec fn locked(g: Grid, p: PieceModel, x: int, y: int) -> Grid {
    Seq::new(
        BOARD_HEIGHT as nat,
        |r: int|
            Seq::new(
                BOARD_WIDTH as nat,
                |c: int| if occupied(p.cells, r - y, c - x) { Some(p.color) } else { g[r][c] },
            ),
    )
}

/// Every cell of the row is occupied.
pub open spec fn row_full(row: Seq<Option<Color>>) -> bool {
    forall|c: int| 0 <= c < row.len() ==> (#[trigger] row[c]) is Some
}

pub open spec fn incomplete() -> spec_fn(Seq<Option<Color>>) -> bool {
    |row: Seq<Option<Color>>| !row_full(row)
}

/// The rows that are not complete, top to bottom.
pub open spec fn surviving_rows(g: Grid) -> Grid {
    g.filter(incomplete())
}

/// Number of complete rows.
pub open spec fn full_count(g: Grid) -> int {
    g.len() - surviving_rows(g).len()
}

/// The grid after its complete rows are removed: the other rows keep their
/// order and sink to the bottom, with empty rows above them.
pub open spec fn cleared(g: Grid) -> Grid {
    Seq::new(full_count(g) as nat, |r: int| empty_row()) + surviving_rows(g)
}

/// The grid after `n` garbage rows are pushed in from the bottom: each row from
/// the first visible one down moves up by `n`, rows above them stay, and the
/// bottom `n` rows are solid garbage.
pub open spec fn garbage_added(g: Grid, n: int) -> Grid {
    Seq::new(
        BOARD_HEIGHT as nat,
        |r: int|
            if r >= BOARD_HEIGHT - n {
                garbage_row()
            } else if r + n >= HIDDEN_ROWS {
                g[r + n]
            } else {
                g[r]
            },
    )
}

/// Some cell of the hidden rows is occupied.
pub open spec fn topped_out(g: Grid) -> bool {
    exists|r: int, c: int| 0 <= r < HIDDEN_ROWS && 0 <= c < BOARD_WIDTH && g[r][c] is Some
}

/// Cell `(pr, pc)` of a piece comes before `(i, j)` in row-major order.
spec fn before(pr: int, pc: int, i: int, j: int) -> bool {
    pr < i || (pr == i && pc < j)
}

spec fn locked_before(g: Grid, p: PieceModel, x: int, y: int, i: int, j: int) -> Grid {
    Seq::new(
        BOARD_HEIGHT as nat,
        |r: int|
            Seq::new(
                BOARD_WIDTH as nat,
                |c: int|
                    if occupied(p.cells, r - y, c - x) && before(r - y, c - x, i, j) {
                        Some(p.color)
                    } else {
                        g[r][c]
                    },
            ),
    )
}

pub open spec fn complete() -> spec_fn(Seq<Option<Color>>) -> bool {
    |row: Seq<Option<Color>>| row_full(row)
}

proof fn lemma_filter_split(s: Grid)
    ensures
        s.filter(complete()).len() + s.filter(incomplete()).len() == s.len(),
    decreases s.len(),
{
    if s.len() == 0 {
        reveal(Seq::filter);
    } else {
        let rest = s.drop_first();
        assert(s =~= seq![s[0]] + rest);
        rest.lemma_filter_prepend(s[0], complete());
        rest.lemma_filter_prepend(s[0], incomplete());
        lemma_filter_split(rest);
    }
}

proof fn lemma_filter_keeps_all(s: Grid)
    requires
        forall|i: int| 0 <= i < s.len() ==> !row_full(#[trigger] s[i]),
    ensures
        s.filter(incomplete()) == s,
    decreases s.len(),
{
    if s.len() == 0 {
        reveal(Seq::filter);
        assert(s.filter(incomplete()) =~= s);
    } else {
        let rest = s.drop_first();
        assert(s =~= seq![s[0]] + rest);
        rest.lemma_filter_prepend(s[0], incomplete());
        assert forall|i: int| 0 <= i < rest.len() implies !row_full(#[trigger] rest[i]) by {
            assert(rest[i] == s[i + 1]);
        }
        lemma_filter_keeps_all(rest);
    }
}

/// Clearing removes exactly the complete rows: their number is returned, and
/// the rows that remain are the incomplete ones, in the top-to-bottom order
/// they had before, under empty rows.
pub proof fn lemma_clear_keeps_order(g: Grid)
    requires
        grid_ok(g),
    ensures
        full_count(g) == g.filter(complete()).len(),
        cleared(g).len() == BOARD_HEIGHT,
        cleared(g).subrange(full_count(g), BOARD_HEIGHT as int) == g.filter(incomplete()),
        forall|i: int| 0 <= i < full_count(g) ==> #[trigger] cleared(g)[i] == empty_row(),
{
    lemma_filter_split(g);
    g.lemma_filter_len(incomplete());
    assert(cleared(g).subrange(full_count(g), BOARD_HEIGHT as int) =~= g.filter(incomplete()));
}

/// With exactly one complete row, clearing returns 1: the rows above it move
/// down by one, the rows below it stay, and the top row becomes empty.
pub proof fn lemma_clear_single_row(g: Grid, k: int)
    requires
        grid_ok(g),
        0 <= k < BOARD_HEIGHT,
        row_full(g[k]),
        forall|i: int| 0 <= i < BOARD_HEIGHT && i != k ==> !row_full(#[trigger] g[i]),
    ensures
        full_count(g) == 1,
        cleared(g)[0] == empty_row(),
        forall|i: int| 0 <= i < k ==> #[trigger] cleared(g)[i + 1] == g[i],
        forall|i: int| k < i < BOARD_HEIGHT ==> #[trigger] cleared(g)[i] == g[i],
{
    let a = g.subrange(0, k);
    let b = g.subrange(k + 1, BOARD_HEIGHT as int);
    assert(g =~= a + seq![g[k]] + b);
    assert forall|i: int| 0 <= i < a.len() implies !row_full(#[trigger] a[i]) by {
        assert(a[i] == g[i]);
    }
    assert forall|i: int| 0 <= i < b.len() implies !row_full(#[trigger] b[i]) by {
        assert(b[i] == g[i + k + 1]);
    }
    lemma_filter_keeps_all(a);
    lemma_filter_keeps_all(b);
    Seq::<Seq<Option<Color>>>::empty().lemma_filter_prepend(g[k], incomplete());
    assert(seq![g[k]] =~= seq![g[k]] + Seq::<Seq<Option<Color>>>::empty());
    assert(Seq::<Seq<Option<Color>>>::empty().filter(incomplete()) =~= Seq::<Seq<Option<Color>>>::empty()) by {
        reveal(Seq::filter);
    }
    Seq::filter_distributes_over_add(a + seq![g[k]], b, incomplete());
    Seq::filter_distributes_over_add(a, seq![g[k]], incomplete());
    assert(surviving_rows(g) =~= a + b);
    assert forall|i: int| 0 <= i < k implies #[trigger] cleared(g)[i + 1] == g[i] by {
        assert(cleared(g)[i + 1] == (a + b)[i]);
    }
    assert forall|i: int| k < i < BOARD_HEIGHT implies #[trigger] cleared(g)[i] == g[i] by {
        assert(cleared(g)[i] == (a + b)[i - 1]);
    }
}

/// On a board that has not topped out, adding `n` garbage rows tops it out
/// exactly when the shift pushes an occupied cell into the hidden rows: one
/// of the rows that land there, from the first visible row down.
pub proof fn lemma_garbage_top_out(g: Grid, n: int)
    requires
        grid_ok(g),
        0 <= n <= BOARD_HEIGHT - HIDDEN_ROWS,
        !topped_out(g),
    ensures
        topped_out(garbage_added(g, n)) <==> exists|r: int, c: int|
            HIDDEN_ROWS <= r < HIDDEN_ROWS + n && n <= r && 0 <= c < BOARD_WIDTH && g[r][c] is Some,
{
    let h = garbage_added(g, n);
    if topped_out(h) {
        let (r, c) = choose|r: int, c: int| 0 <= r < HIDDEN_ROWS && 0 <= c < BOARD_WIDTH && h[r][c] is Some;
        if r + n < HIDDEN_ROWS {
            assert(g[r][c] is Some);
        } else {
            assert(h[r] == g[r + n]);
        }
    }
    if exists|r: int, c: int| HIDDEN_ROWS <= r < HIDDEN_ROWS + n && n <= r && 0 <= c < BOARD_WIDTH && g[r][c] is Some {
        let (r, c) = choose|r: int, c: int|
            HIDDEN_ROWS <= r < HIDDEN_ROWS + n && n <= r && 0 <= c < BOARD_WIDTH && g[r][c] is Some;
        assert(h[r - n] == g[r]);
        assert(h[r - n][c] is Some);
    }
}

fn new_row(value: Option<Color>) -> (row: Vec<Option<Color>>)
    ensures
        row@ == Seq::new(BOARD_WIDTH as nat, |c: int| value),
{
    let mut row: Vec<Option<Color>> = Vec::new();
    let mut c: usize = 0;
    while c < BOARD_WIDTH
        invariant
            c <= BOARD_WIDTH,
            row@.len() == c,
            forall|k: int| 0 <= k < c ==> row@[k] == value,
        decreases BOARD_WIDTH - c,
    {
        row.push(value);
        c += 1;
    }
    assert(row@ =~= Seq::new(BOARD_WIDTH as nat, |c: int| value));
    row
}

proof fn lemma_filter_member(s: Grid, p: spec_fn(Seq<Option<Color>>) -> bool, i: int)
    requires
        0 <= i < s.filter(p).len(),
    ensures
        s.contains(s.filter(p)[i]),
{
    s.lemma_filter_contains_rev(p, s.filter(p)[i]);
    assert(s.filter(p).contains(s.filter(p)[i]));
}

impl Board {
    pub open spec fn well_formed(&self) -> bool {
        grid_ok(self@)
    }

    /// An empty board.
    pub fn new() -> (b: Self)
        ensures
            b@ == empty_grid(),
            b.well_formed(),
    {
        let mut cells: Vec<Vec<Option<Color>>> = Vec::new();
        let mut r: usize = 0;
        while r < BOARD_HEIGHT
            invariant
                r <= BOARD_HEIGHT,
                cells@.len() == r,
                forall|k: int| 0 <= k < r ==> (#[trigger] cells@[k])@ == empty_row(),
            decreases BOARD_HEIGHT - r,
        {
            cells.push(new_row(None));
            r += 1;
        }
        let b = Board { cells };
        assert(b@ =~= empty_grid());
        b
    }

    /// Whether the piece placed at `origin` would leave the board or overlap
    /// an occupied cell.
    pub fn collision_test(&self, tetromino: &Tetromino, origin: Point) -> (collided: bool)
        requires
            self.well_formed(),
            tetromino.well_formed(),
        ensures
            collided == collides(self@, tetromino@, origin.x as int, origin.y as int),
            !collided <==> forall|pr: int, pc: int| #[trigger] occupied(tetromino@.cells, pr, pc)
                ==> cell_free(self@, origin.y + pr, origin.x + pc),
    {
        let n = tetromino.shape.len();
        let ghost m = tetromino@.cells;
        let ghost g = self@;
        let mut i: usize = 0;
        while i < n
            invariant
                n == tetromino.shape@.len(),
                m == tetromino@.cells,
                g == self@,
                grid_ok(g),
                tetromino.well_formed(),
                i <= n,
                forall|pr: int, pc: int| #[trigger] occupied(m, pr, pc) && pr < i
                    ==> cell_free(g, origin.y + pr, origin.x + pc),
            decreases n - i,
        {
            let mut j: usize = 0;
            while j < n
                invariant
                    n == tetromino.shape@.len(),
                    m == tetromino@.cells,
                    g == self@,
                    grid_ok(g),
                    tetromino.well_formed(),
                    i < n,
                    j <= n,
                    forall|pr: int, pc: int| #[trigger] occupied(m, pr, pc) && before(pr, pc, i as int, j as int)
                        ==> cell_free(g, origin.y + pr, origin.x + pc),
                decreases n - j,
            {
                assert(m[i as int].len() == n);
                if tetromino.shape[i][j] != 0 {
                    let x: i64 = origin.x as i64 + j as i64;
                    let y: i64 = origin.y as i64 + i as i64;
                    if x < 0 || x >= BOARD_WIDTH as i64 || y < 0 || y >= BOARD_HEIGHT as i64 {
                        assert(occupied(m, i as int, j as int));
                        return true;
                    }
                    assert(g[y as int] == self.cells@[y as int]@);
                    if self.cells[y as usize][x as usize].is_some() {
                        assert(occupied(m, i as int, j as int));
                        assert(g[y as int][x as int] == self.cells@[y as int]@[x as int]);
                        return true;
                    }
                }
                j += 1;
            }
            i += 1;
        }
        false
    }

    /// Writes the piece's colour into each cell it covers at `origin`.
    pub fn lock_tetromino(&mut self, tetromino: &Tetromino, origin: Point)
        requires
            old(self).well_formed(),
            tetromino.well_formed(),
            !collides(old(self)@, tetromino@, origin.x as int, origin.y as int),
        ensures
            final(self)@ == locked(old(self)@, tetromino@, origin.x as int, origin.y as int),
            final(self).well_formed(),
    {
        let n = tetromino.shape.len();
        let ghost m = tetromino@.cells;
        let ghost g = self@;
        let ghost p = tetromino@;
        let ghost ox = origin.x as int;
        let ghost oy = origin.y as int;
        assert(self@ =~~= locked_before(g, p, ox, oy, 0, 0));
        let mut i: usize = 0;
        while i < n
            invariant
                n == tetromino.shape@.len(),
                m == tetromino@.cells,
                p == tetromino@,
                grid_ok(g),
                tetromino.well_formed(),
                !collides(g, p, ox, oy),
                ox == origin.x,
                oy == origin.y,
                i <= n,
                self@ == locked_before(g, p, ox, oy, i as int, 0),
            decreases n - i,
        {
            let mut j: usize = 0;
            while j < n
                invariant
                    n == tetromino.shape@.len(),
                    m == tetromino@.cells,
                    p == tetromino@,
                    grid_ok(g),
                    tetromino.well_formed(),
                    !collides(g, p, ox, oy),
                    ox == origin.x,
                    oy == origin.y,
                    i < n,
                    j <= n,
                    self@ == locked_before(g, p, ox, oy, i as int, j as int),
                decreases n - j,
            {
                assert(m[i as int].len() == n);
                if tetromino.shape[i][j] != 0 {
                    assert(occupied(m, i as int, j as int));
                    assert(cell_free(g, oy + i, ox + j));
                    let x: usize = (origin.x as i64 + j as i64) as usize;
                    let y: usize = (origin.y as i64 + i as i64) as usize;
                    assert(y == oy + i && x == ox + j);
                    assert(self@.len() == BOARD_HEIGHT);
                    assert(self.cells@.len() == self@.len());
                    assert(self@[y as int] == self.cells@[y as int]@);
                    assert(self@[y as int].len() == BOARD_WIDTH);
                    let ghost prev = self@;
                    self.cells[y][x] = Some(tetromino.color);
                    assert(self@ =~~= prev.update(y as int, prev[y as int].update(x as int, Some(p.color))));
                    assert forall|r: int, c: int| 0 <= r < BOARD_HEIGHT && 0 <= c < BOARD_WIDTH implies
                        self@[r][c] == locked_before(g, p, ox, oy, i as int, j + 1)[r][c] by {
                        if r == y && c == x {
                        } else {
                            assert(self@[r][c] == prev[r][c]);
                        }
                    }
                } else {
                    assert(!occupied(m, i as int, j as int));
                }
                assert(self@ =~~= locked_before(g, p, ox, oy, i as int, j + 1));
                j += 1;
            }
            assert(self@ =~~= locked_before(g, p, ox, oy, i + 1, 0));
            i += 1;
        }
        assert(self@ =~~= locked(g, p, ox, oy));
    }

    fn row_is_full(&self, row: usize) -> (r: bool)
        requires
            row < self.cells@.len(),
            self@[row as int].len() == BOARD_WIDTH,
        ensures
            r == row_full(self@[row as int]),
    {
        assert(self@[row as int] == self.cells@[row as int]@);
        let mut col: usize = 0;
        while col < BOARD_WIDTH
            invariant
                row < self.cells@.len(),
                self@[row as int].len() == BOARD_WIDTH,
                self@[row as int] == self.cells@[row as int]@,
                col <= BOARD_WIDTH,
                forall|c: int| 0 <= c < col ==> self@[row as int][c] is Some,
            decreases BOARD_WIDTH - col,
        {
            if self.cells[row][col].is_none() {
                return false;
            }
            col += 1;
        }
        true
    }

    /// Removes every complete row; the rows above each one sink, and empty
    /// rows come in at the top. Returns the number of rows removed.
    pub fn clear_lines(&mut self) -> (count: usize)
        requires
            old(self).well_formed(),
        ensures
            final(self)@ == cleared(old(self)@),
            count == full_count(old(self)@),
            final(self).well_formed(),
    {
        let ghost g = self@;
        let mut r: usize = BOARD_HEIGHT;
        let mut w: usize = BOARD_HEIGHT;
        proof {
            assert(g.subrange(BOARD_HEIGHT as int, BOARD_HEIGHT as int) =~= Seq::<Seq<Option<Color>>>::empty());
            assert(Seq::<Seq<Option<Color>>>::empty().filter(incomplete()) =~= Seq::<Seq<Option<Color>>>::empty()) by {
                reveal(Seq::filter);
            }
            assert(self@.subrange(w as int, BOARD_HEIGHT as int) =~= Seq::<Seq<Option<Color>>>::empty());
        }
        while r > 0
            invariant
                grid_ok(g),
                self.cells@.len() == BOARD_HEIGHT,
                r <= w <= BOARD_HEIGHT,
                forall|i: int| 0 <= i < r ==> #[trigger] self@[i] == g[i],
                self@.subrange(w as int, BOARD_HEIGHT as int) == g.subrange(r as int, BOARD_HEIGHT as int).filter(incomplete()),
            decreases r,
        {
            r -= 1;
            proof {
                assert(g.subrange(r as int, BOARD_HEIGHT as int) =~= seq![g[r as int]] + g.subrange(r + 1, BOARD_HEIGHT as int));
                g.subrange(r + 1, BOARD_HEIGHT as int).lemma_filter_prepend(g[r as int], incomplete());
            }
            assert(self@[r as int] == g[r as int]);
            let full = self.row_is_full(r);
            if !full {
                let ghost prev = self@;
                w -= 1;
                let mut tmp: Vec<Option<Color>> = Vec::new();
                std::mem::swap(&mut self.cells[r], &mut tmp);
                self.cells.set(w, tmp);
                proof {
                    assert(tmp@ == g[r as int]);
                    assert forall|i: int| 0 <= i < r implies #[trigger] self@[i] == g[i] by {
                        assert(self@[i] == prev[i]);
                    }
                    assert(self@.subrange(w as int, BOARD_HEIGHT as int) =~= seq![g[r as int]] + prev.subrange(w + 1, BOARD_HEIGHT as int));
                }
            }
        }
        let count = w;
        assert(g.subrange(0, BOARD_HEIGHT as int) =~= g);
        let mut i: usize = 0;
        while i < w
            invariant
                grid_ok(g),
                self.cells@.len() == BOARD_HEIGHT,
                i <= w <= BOARD_HEIGHT,
                forall|k: int| 0 <= k < i ==> #[trigger] self@[k] == empty_row(),
                self@.subrange(w as int, BOARD_HEIGHT as int) == g.filter(incomplete()),
            decreases w - i,
        {
            let ghost prev = self@;
            self.cells.set(i, new_row(None));
            proof {
                assert forall|k: int| 0 <= k < i + 1 implies #[trigger] self@[k] == empty_row() by {
                    if k < i {
                        assert(self@[k] == prev[k]);
                    }
                }
                assert(self@.subrange(w as int, BOARD_HEIGHT as int) =~= prev.subrange(w as int, BOARD_HEIGHT as int));
            }
            i += 1;
        }
        proof {
            assert(g.subrange(0, BOARD_HEIGHT as int) =~= g);
            let kept = g.filter(incomplete());
            assert(kept.len() == BOARD_HEIGHT - w);
            assert(self@ =~= cleared(g)) by {
                assert forall|k: int| 0 <= k < BOARD_HEIGHT implies #[trigger] self@[k] == cleared(g)[k] by {
                    if k >= w {
                        assert(self@[k] == self@.subrange(w as int, BOARD_HEIGHT as int)[k - w]);
                    }
                }
            }
            assert forall|k: int| 0 <= k < BOARD_HEIGHT implies (#[trigger] self@[k]).len() == BOARD_WIDTH by {
                if k >= w {
                    kept.lemma_filter_len(incomplete());
                    assert(self@[k] == kept[k - w]);
                    lemma_filter_member(g, incomplete(), k - w);
                }
            }
        }
        count
    }

    /// Pushes `lines` solid garbage rows in from the bottom: content from the
    /// first visible row down moves up by `lines`, and the rows moved out of
    /// the top are lost. Returns `lines`.
    pub fn add_lines(&mut self, lines: usize) -> (r: usize)
        requires
            old(self).well_formed(),
            lines <= BOARD_HEIGHT,
        ensures
            final(self)@ == garbage_added(old(self)@, lines as int),
            r == lines,
            final(self).well_formed(),
    {
        let ghost g = self@;
        let start: usize = if lines < HIDDEN_ROWS { HIDDEN_ROWS - lines } else { 0 };
        let mut j: usize = start;
        while j + lines < BOARD_HEIGHT
            invariant
                grid_ok(g),
                self.cells@.len() == BOARD_HEIGHT,
                lines <= BOARD_HEIGHT,
                start <= j,
                start == (if lines < HIDDEN_ROWS { HIDDEN_ROWS - lines } else { 0int }),
                j <= BOARD_HEIGHT - lines || j == start,
                forall|k: int| 0 <= k < j && k < BOARD_HEIGHT ==> #[trigger] self@[k] == garbage_added(g, lines as int)[k],
                forall|k: int| j + lines <= k < BOARD_HEIGHT ==> #[trigger] self@[k] == g[k],
            decreases BOARD_HEIGHT - j,
        {
            let ghost prev = self@;
            assert(prev[j + lines] == g[j + lines]);
            assert(prev[j + lines] == self.cells@[j + lines]@);
            let mut tmp: Vec<Option<Color>> = Vec::new();
            std::mem::swap(&mut self.cells[j + lines], &mut tmp);
            self.cells.set(j, tmp);
            proof {
                assert(tmp@ == g[j + lines]);
                assert forall|k: int| 0 <= k < j + 1 && k < BOARD_HEIGHT implies #[trigger] self@[k] == garbage_added(g, lines as int)[k] by {
                    if k < j {
                        assert(self@[k] == prev[k]);
                    }
                }
                assert forall|k: int| j + 1 + lines <= k < BOARD_HEIGHT implies #[trigger] self@[k] == g[k] by {
                    assert(self@[k] == prev[k]);
                }
            }
            j += 1;
        }
        let mut k: usize = BOARD_HEIGHT - lines;
        while k < BOARD_HEIGHT
            invariant
                grid_ok(g),
                self.cells@.len() == BOARD_HEIGHT,
                lines <= BOARD_HEIGHT,
                BOARD_HEIGHT - lines <= k <= BOARD_HEIGHT,
                forall|i: int| 0 <= i < BOARD_HEIGHT - lines ==> #[trigger] self@[i] == garbage_added(g, lines as int)[i],
                forall|i: int| BOARD_HEIGHT - lines <= i < k ==> #[trigger] self@[i] == garbage_row(),
            decreases BOARD_HEIGHT - k,
        {
            let ghost prev = self@;
            self.cells.set(k, new_row(Some(GARBAGE_COLOR)));
            proof {
                assert forall|i: int| 0 <= i < BOARD_HEIGHT - lines implies #[trigger] self@[i] == garbage_added(g, lines as int)[i] by {
                    assert(self@[i] == prev[i]);
                }
                assert forall|i: int| BOARD_HEIGHT - lines <= i < k + 1 implies #[trigger] self@[i] == garbage_row() by {
                    if i < k {
                        assert(self@[i] == prev[i]);
                    }
                }
            }
            k += 1;
        }
        assert(self@ =~= garbage_added(g, lines as int));
        lines
    }

    /// The cell at `(row, col)`.
    pub fn cell(&self, row: usize, col: usize) -> (c: Option<Color>)
        requires
            self.well_formed(),
            row < BOARD_HEIGHT,
            col < BOARD_WIDTH,
        ensures
            c == self@[row as int][col as int],
    {
        assert(self@[row as int] == self.cells@[row as int]@);
        self.cells[row][col]
    }

    /// Whether any cell of the hidden rows is occupied.
    pub fn lost(&self) -> (r: bool)
        requires
            self.well_formed(),
        ensures
            r == topped_out(self@),
    {
        let mut row: usize = 0;
        while row < HIDDEN_ROWS
            invariant
                grid_ok(self@),
                row <= HIDDEN_ROWS,
                forall|r: int, c: int| 0 <= r < row && 0 <= c < BOARD_WIDTH ==> self@[r][c] is None,
            decreases HIDDEN_ROWS - row,
        {
            let mut col: usize = 0;
            while col < BOARD_WIDTH
                invariant
                    grid_ok(self@),
                    row < HIDDEN_ROWS,
                    col <= BOARD_WIDTH,
                    forall|r: int, c: int| 0 <= r < row && 0 <= c < BOARD_WIDTH ==> self@[r][c] is None,
                    forall|c: int| 0 <= c < col ==> self@[row as int][c] is None,
                decreases BOARD_WIDTH - col,
            {
                assert(self@[row as int][col as int] == self.cells@[row as int]@[col as int]);
                if self.cells[row][col].is_some() {
                    return true;
                }
                col += 1;
            }
            row += 1;
        }
        false
    }
}

} // verus!
