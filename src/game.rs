//! The session: every player's board, piece queue, active piece, position and
//! alive flag, the moves that act on them, and garbage sent between players.
use vstd::prelude::*;
use crate::board::{
    cleared, collides, empty_grid, full_count, garbage_added, locked, Board, Grid, Point,
    BOARD_HEIGHT, BOARD_WIDTH,
};
use crate::tetromino::{is_bag, rotated, Direction, PieceModel, Tetromino, TetrominoQueue};

verus! {

/// Everything the session keeps for one player.
#[derive(Debug)]
pub struct PlayerState {
    pub id: usize,
    pub name: String,
    pub board: Board,
    pub queue: TetrominoQueue,
    pub current: Tetromino,
    pub position: Point,
    pub alive: bool,
}

pub struct PlayerModel {
    pub id: usize,
    pub name: Seq<char>,
    pub board: Grid,
    pub queue: Seq<PieceModel>,
    pub current: PieceModel,
    pub x: int,
    pub y: int,
    pub alive: bool,
}

impl View for PlayerState {
    type V = PlayerModel;

    open spec fn view(&self) -> PlayerModel {
        PlayerModel {
            id: self.id,
            name: self.name@,
            board: self.board@,
            queue: self.queue@,
            current: self.current@,
            x: self.position.x as int,
            y: self.position.y as int,
            alive: self.alive,
        }
    }
}

impl PlayerState {
    pub open spec fn well_formed(&self) -> bool {
        &&& self.board.well_formed()
        &&& self.queue.well_formed()
        &&& self.current.well_formed()
    }
}

/// The shared match state. A player is registered once; ids are unique.
#[derive(Debug)]
pub struct Game {
    pub players: Vec<PlayerState>,
    pub started: bool,
}

pub struct GameModel {
    pub started: bool,
    pub players: Seq<PlayerModel>,
}

impl View for Game {
    type V = GameModel;

    open spec fn view(&self) -> GameModel {
        GameModel { started: self.started, players: self.players@.map_values(|p: PlayerState| p@) }
    }
}

pub open spec fn ids_unique(m: GameModel) -> bool {
    forall|i: int, j: int|
        0 <= i < j < m.players.len() ==> (#[trigger] m.players[i]).id != (#[trigger] m.players[j]).id
}

pub open spec fn has_player(m: GameModel, id: usize) -> bool {
    exists|i: int| 0 <= i < m.players.len() && m.players[i].id == id
}

/// Index of the player with this id.
pub open spec fn slot(m: GameModel, id: usize) -> int {
    choose|i: int| 0 <= i < m.players.len() && m.players[i].id == id
}

pub open spec fn with_player(m: GameModel, i: int, p: PlayerModel) -> GameModel {
    GameModel { started: m.started, players: m.players.update(i, p) }
}

pub open spec fn moved_to(p: PlayerModel, x: int, y: int) -> PlayerModel {
    PlayerModel { x, y, ..p }
}

pub open spec fn fits_i32(v: int) -> bool {
    i32::MIN <= v <= i32::MAX
}

/// The active piece can be shifted by `(dx, dy)` on the player's own board.
pub open spec fn can_move(p: PlayerModel, dx: int, dy: int) -> bool {
    &&& fits_i32(p.x + dx)
    &&& fits_i32(p.y + dy)
    &&& !collides(p.board, p.current, p.x + dx, p.y + dy)
}

/// Column at which a piece appears: centred on the board.
pub open spec fn spawn_x(p: PieceModel) -> int {
    (BOARD_WIDTH - p.cells.len()) / 2
}

pub open spec fn rotated_piece(p: PieceModel, d: Direction) -> PieceModel {
    PieceModel { color: p.color, cells: rotated(p.cells, d) }
}

/// `cur` and `q2` are what taking the next piece from queue `q` gives: its
/// head, or the head of a freshly drawn bag when it is empty.
pub open spec fn next_piece(q: Seq<PieceModel>, cur: PieceModel, q2: Seq<PieceModel>) -> bool {
    if q.len() > 0 {
        cur == q[0] && q2 == q.drop_first()
    } else {
        exists|b: Seq<PieceModel>| is_bag(b) && cur == b[0] && q2 == b.drop_first()
    }
}

/// Outcome of a move request.
pub open spec fn move_outcome(pre: GameModel, id: usize, dx: int, dy: int, post: GameModel, r: bool) -> bool {
    if has_player(pre, id) {
        let i = slot(pre, id);
        let p = pre.players[i];
        &&& r == can_move(p, dx, dy)
        &&& post == (if r { with_player(pre, i, moved_to(p, p.x + dx, p.y + dy)) } else { pre })
    } else {
        !r && post == pre
    }
}

/// Outcome of a rotation request: a turned copy is tested at the same place.
pub open spec fn rotate_outcome(pre: GameModel, id: usize, d: Direction, post: GameModel, r: bool) -> bool {
    if has_player(pre, id) {
        let i = slot(pre, id);
        let p = pre.players[i];
        let t = rotated_piece(p.current, d);
        &&& r == !collides(p.board, t, p.x, p.y)
        &&& post == (if r { with_player(pre, i, PlayerModel { current: t, ..p }) } else { pre })
    } else {
        !r && post == pre
    }
}

/// Outcome of placing the active piece at the top centre.
pub open spec fn spawn_outcome(pre: GameModel, id: usize, post: GameModel, r: bool) -> bool {
    if has_player(pre, id) {
        let i = slot(pre, id);
        let p = pre.players[i];
        &&& r == !collides(p.board, p.current, spawn_x(p.current), 0)
        &&& post == (if r { with_player(pre, i, moved_to(p, spawn_x(p.current), 0)) } else { pre })
    } else {
        !r && post == pre
    }
}

/// The active piece of `p` is locked where it stands and complete rows are
/// cleared (`count` of them); `q` then holds the next piece from the queue,
/// at the top centre when `spawned`, else where the old one was.
pub open spec fn locked_and_respawned(p: PlayerModel, q: PlayerModel, spawned: bool, count: int) -> bool {
    let g = locked(p.board, p.current, p.x, p.y);
    &&& q.board == cleared(g)
    &&& count == full_count(g)
    &&& next_piece(p.queue, q.current, q.queue)
    &&& q.id == p.id && q.name == p.name && q.alive == p.alive
    &&& spawned == !collides(q.board, q.current, spawn_x(q.current), 0)
    &&& spawned ==> q.x == spawn_x(q.current) && q.y == 0
    &&& !spawned ==> q.x == p.x && q.y == p.y
}

/// What happens to player `i` once its piece cannot move down: if the piece
/// already overlaps the board nothing changes and the player cannot go on;
/// otherwise it is locked and the next piece is spawned.
pub open spec fn settled(pre: GameModel, i: int, post: GameModel, r: bool, count_before: int, count_after: int) -> bool {
    let p = pre.players[i];
    if collides(p.board, p.current, p.x, p.y) {
        !r && post == pre && count_after == count_before
    } else {
        post == with_player(pre, i, post.players[i])
            && locked_and_respawned(p, post.players[i], r, count_after)
    }
}

/// Outcome of one gravity step.
pub open spec fn advance_outcome(pre: GameModel, id: usize, post: GameModel, r: bool, count_before: int, count_after: int) -> bool {
    if has_player(pre, id) {
        let i = slot(pre, id);
        let p = pre.players[i];
        if can_move(p, 0, 1) {
            r && post == with_player(pre, i, moved_to(p, p.x, p.y + 1)) && count_after == count_before
        } else {
            settled(pre, i, post, r, count_before, count_after)
        }
    } else {
        !r && post == pre && count_after == count_before
    }
}

/// Outcome of a hard drop: the piece falls to `y2`, the lowest row reached
/// through free positions, and then settles there.
pub open spec fn drop_outcome(pre: GameModel, id: usize, post: GameModel, r: bool, count_before: int, count_after: int) -> bool {
    if has_player(pre, id) {
        let i = slot(pre, id);
        let p = pre.players[i];
        exists|y2: int|
            #![trigger moved_to(p, p.x, y2)]
            p.y <= y2
            && (forall|yy: int| p.y < yy <= y2 ==> !collides(p.board, p.current, p.x, yy))
            && !can_move(moved_to(p, p.x, y2), 0, 1)
            && settled(with_player(pre, i, moved_to(p, p.x, y2)), i, post, r, count_before, count_after)
    } else {
        !r && post == pre && count_after == count_before
    }
}

/// A freshly registered player: empty board, alive, at the origin, with the
/// first piece of a newly drawn bag active and the other six queued.
pub open spec fn fresh_player(q: PlayerModel, id: usize, name: Seq<char>) -> bool {
    &&& q.id == id
    &&& q.name == name
    &&& q.board == empty_grid()
    &&& q.alive
    &&& q.x == 0 && q.y == 0
    &&& exists|b: Seq<PieceModel>| is_bag(b) && q.current == b[0] && q.queue == b.drop_first()
}

/// Every other alive player receives `count` garbage rows.
pub open spec fn attacked(m: GameModel, source: usize, count: int) -> GameModel {
    GameModel {
        started: m.started,
        players: Seq::new(
            m.players.len(),
            |j: int|
                if m.players[j].id != source && m.players[j].alive && count > 0 {
                    PlayerModel { board: garbage_added(m.players[j].board, count), ..m.players[j] }
                } else {
                    m.players[j]
                },
        ),
    }
}

/// Player `id`, if registered, is marked not alive.
pub open spec fn eliminated(m: GameModel, id: usize) -> GameModel {
    if has_player(m, id) {
        with_player(m, slot(m, id), PlayerModel { alive: false, ..m.players[slot(m, id)] })
    } else {
        m
    }
}

/// Number of alive players among the first `n`.
pub open spec fn alive_count_upto(s: Seq<PlayerModel>, n: int) -> int
    decreases n,
{
    if n <= 0 {
        0
    } else {
        alive_count_upto(s, n - 1) + if s[n - 1].alive { 1int } else { 0int }
    }
}

pub open spec fn alive_total(m: GameModel) -> int {
    alive_count_upto(m.players, m.players.len() as int)
}

/// A command from a player's connection, rotation normalised to a direction.
#[derive(Debug, PartialEq, Eq, Copy, Clone, Structural)]
pub enum Command {
    Left,
    Right,
    Rotate(Direction),
    Drop,
}

/// Outcome of a hard drop as a connection issues it: a player who cannot go
/// on is eliminated; otherwise cleared rows go to every other alive player.
pub open spec fn drop_command_outcome(pre: GameModel, id: usize, post: GameModel, r: bool) -> bool {
    exists|mid: GameModel, alive: bool, count: int|
        drop_outcome(pre, id, mid, alive, 0, count)
        && post == (if !alive { eliminated(mid, id) } else { attacked(mid, id, count) })
        && r == has_player(pre, id)
}

} // verus!

verus! {

proof fn lemma_slot(m: GameModel, i: int)
    requires
        ids_unique(m),
        0 <= i < m.players.len(),
    ensures
        has_player(m, m.players[i].id),
        slot(m, m.players[i].id) == i,
{
    let id = m.players[i].id;
    assert(has_player(m, id));
    let j = slot(m, id);
    if j < i {
        assert(m.players[j].id != m.players[i].id);
    } else if j > i {
        assert(m.players[i].id != m.players[j].id);
    }
}

/// A valid piece that fits with its origin at row `y` has `y` above the
/// bottom of the board.
proof fn lemma_fall_bounded(g: Grid, t: PieceModel, x: int, y: int)
    requires
        crate::tetromino::valid_piece(t),
        !collides(g, t, x, y),
    ensures
        y < BOARD_HEIGHT,
{
    let (r, c) = choose|r: int, c: int| crate::tetromino::occupied(t.cells, r, c);
    assert(crate::board::cell_free(g, y + r, x + c));
}

/// A drop clears no more rows than the board has.
proof fn lemma_drop_count_bounded(pre: GameModel, id: usize, post: GameModel, r: bool, count: int)
    requires
        drop_outcome(pre, id, post, r, 0, count),
        r,
    ensures
        0 <= count <= BOARD_HEIGHT,
{
    if has_player(pre, id) {
        let i = slot(pre, id);
        let p = pre.players[i];
        let y2 = choose|y2: int|
            #![trigger moved_to(p, p.x, y2)]
            p.y <= y2
            && (forall|yy: int| p.y < yy <= y2 ==> !collides(p.board, p.current, p.x, yy))
            && !can_move(moved_to(p, p.x, y2), 0, 1)
            && settled(with_player(pre, i, moved_to(p, p.x, y2)), i, post, r, 0, count);
        let m = with_player(pre, i, moved_to(p, p.x, y2));
        let q = m.players[i];
        assert(q == moved_to(p, p.x, y2));
        let g = locked(q.board, q.current, q.x, q.y);
        g.lemma_filter_len(crate::board::incomplete());
    }
}

impl Game {
    pub open spec fn well_formed(&self) -> bool {
        &&& ids_unique(self@)
        &&& forall|i: int| 0 <= i < self.players@.len() ==> (#[trigger] self.players@[i]).well_formed()
    }

    /// An empty lobby, before the match has started.
    pub fn new() -> (g: Game)
        ensures
            g@.players.len() == 0,
            !g@.started,
            g.well_formed(),
    {
        Game { players: Vec::new(), started: false }
    }

    fn find(&self, id: usize) -> (r: Option<usize>)
        requires
            self.well_formed(),
        ensures
            match r {
                Some(i) => i < self.players@.len() && has_player(self@, id) && slot(self@, id) == i,
                None => !has_player(self@, id),
            },
    {
        let mut i: usize = 0;
        while i < self.players.len()
            invariant
                self.well_formed(),
                i <= self.players@.len(),
                forall|k: int| 0 <= k < i ==> (#[trigger] self.players@[k]).id != id,
            decreases self.players@.len() - i,
        {
            if self.players[i].id == id {
                proof {
                    assert(self@.players[i as int].id == id);
                    lemma_slot(self@, i as int);
                }
                return Some(i);
            }
            i += 1;
        }
        proof {
            if has_player(self@, id) {
                let k = choose|k: int| 0 <= k < self@.players.len() && self@.players[k].id == id;
                assert(self.players@[k].id == id);
            }
        }
        None
    }

    /// Shifts player `id`'s active piece by `(x, y)` when it fits there.
    pub fn move_tetromino(&mut self, id: &usize, x: i32, y: i32) -> (moved: bool)
        requires
            old(self).well_formed(),
        ensures
            final(self).well_formed(),
            move_outcome(old(self)@, *id, x as int, y as int, final(self)@, moved),
    {
        let i = match self.find(*id) {
            Some(i) => i,
            None => return false,
        };
        let nx: i64 = self.players[i].position.x as i64 + x as i64;
        let ny: i64 = self.players[i].position.y as i64 + y as i64;
        if nx < i32::MIN as i64 || nx > i32::MAX as i64 || ny < i32::MIN as i64 || ny > i32::MAX as i64 {
            return false;
        }
        let p = Point { x: nx as i32, y: ny as i32 };
        let collided = self.players[i].board.collision_test(&self.players[i].current, p);
        if !collided {
            let ghost pre = self@;
            self.players[i].position = p;
            proof {
                let pl = pre.players[i as int];
                assert(self@.players =~= pre.players.update(i as int, moved_to(pl, pl.x + x, pl.y + y)));
                assert(self.players@[i as int].well_formed());
            }
        }
        !collided
    }

    /// Turns player `id`'s active piece when the turned copy fits at the
    /// current position; the live piece is not touched otherwise.
    pub fn rotate_tetromino(&mut self, id: &usize, direction: Direction) -> (rotated: bool)
        requires
            old(self).well_formed(),
        ensures
            final(self).well_formed(),
            rotate_outcome(old(self)@, *id, direction, final(self)@, rotated),
    {
        let i = match self.find(*id) {
            Some(i) => i,
            None => return false,
        };
        let mut t = self.players[i].current.clone();
        t.rotate(direction);
        let collided = self.players[i].board.collision_test(&t, self.players[i].position);
        if !collided {
            let ghost pre = self@;
            self.players[i].current = t;
            proof {
                let pl = pre.players[i as int];
                assert(self@.players =~= pre.players.update(
                    i as int,
                    PlayerModel { current: rotated_piece(pl.current, direction), ..pl },
                ));
                assert(self.players@[i as int].well_formed());
            }
        }
        !collided
    }

    fn spawn_slot(&mut self, i: usize) -> (placed: bool)
        requires
            old(self).well_formed(),
            i < old(self).players@.len(),
        ensures
            final(self).well_formed(),
            spawn_outcome(old(self)@, old(self)@.players[i as int].id, final(self)@, placed),
    {
        proof {
            lemma_slot(self@, i as int);
        }
        let n = self.players[i].current.shape.len();
        let origin = Point { x: ((BOARD_WIDTH - n) / 2) as i32, y: 0 };
        let collided = self.players[i].board.collision_test(&self.players[i].current, origin);
        if !collided {
            let ghost pre = self@;
            self.players[i].position = origin;
            proof {
                let pl = pre.players[i as int];
                assert(self@.players =~= pre.players.update(i as int, moved_to(pl, spawn_x(pl.current), 0)));
                assert(self.players@[i as int].well_formed());
            }
        }
        !collided
    }

    /// One gravity step for player `id`: the piece moves down one row if it
    /// can; otherwise it is locked, complete rows are cleared (their number is
    /// written to `cleared_lines`), the player's next piece is taken from its
    /// own queue and spawned. `false` means the board cannot take the next
    /// piece and the player is out.
    pub fn advance_game(&mut self, id: &usize, cleared_lines: &mut usize) -> (alive: bool)
        requires
            old(self).well_formed(),
        ensures
            final(self).well_formed(),
            advance_outcome(old(self)@, *id, final(self)@, alive, *old(cleared_lines) as int, *final(cleared_lines) as int),
    {
        let i = match self.find(*id) {
            Some(i) => i,
            None => return false,
        };
        if self.move_tetromino(id, 0, 1) {
            return true;
        }
        self.settle(i, cleared_lines)
    }

    fn settle(&mut self, i: usize, cleared_lines: &mut usize) -> (alive: bool)
        requires
            old(self).well_formed(),
            i < old(self).players@.len(),
        ensures
            final(self).well_formed(),
            settled(old(self)@, i as int, final(self)@, alive, *old(cleared_lines) as int, *final(cleared_lines) as int),
    {
        let pos = self.players[i].position;
        if self.players[i].board.collision_test(&self.players[i].current, pos) {
            return false;
        }
        let ghost pre = self@;
        let ghost p = pre.players[i as int];
        let mut player = self.players.remove(i);
        proof {
            assert(player.well_formed());
        }
        player.board.lock_tetromino(&player.current, pos);
        let count = player.board.clear_lines();
        *cleared_lines = count;
        player.current = player.queue.take_next();
        self.players.insert(i, player);
        proof {
            assert(self@.players =~= pre.players.update(i as int, player@));
            assert forall|k: int| 0 <= k < self.players@.len() implies (#[trigger] self.players@[k]).well_formed() by {
                if k != i {
                    assert(self.players@[k] == old(self).players@[k]);
                }
            }
            assert(ids_unique(self@));
            lemma_slot(self@, i as int);
            assert(p.queue.len() == 0 ==> exists|b: Seq<PieceModel>| is_bag(b) && player@.current == b[0] && player@.queue == b.drop_first());
        }
        let spawned = self.spawn_slot(i);
        proof {
            assert(self@.players =~= pre.players.update(i as int, self@.players[i as int]));
        }
        spawned
    }

    /// Hard drop for player `id`: the piece moves down until it cannot, then
    /// settles as in [`Game::advance_game`].
    pub fn drop_tetromino(&mut self, id: &usize, cleared_lines: &mut usize) -> (alive: bool)
        requires
            old(self).well_formed(),
        ensures
            final(self).well_formed(),
            drop_outcome(old(self)@, *id, final(self)@, alive, *old(cleared_lines) as int, *final(cleared_lines) as int),
    {
        let i = match self.find(*id) {
            Some(i) => i,
            None => return false,
        };
        let ghost pre = self@;
        let ghost p = pre.players[i as int];
        proof {
            assert(self@.players =~= pre.players.update(i as int, moved_to(p, p.x, p.y)));
        }
        loop
            invariant
                self.well_formed(),
                i < self.players@.len(),
                has_player(pre, *id),
                slot(pre, *id) == i,
                p == pre.players[i as int],
                p.y <= self@.players[i as int].y,
                self@ == with_player(pre, i as int, moved_to(p, p.x, self@.players[i as int].y)),
                forall|yy: int| p.y < yy <= self@.players[i as int].y ==> !collides(p.board, p.current, p.x, yy),
                crate::tetromino::valid_piece(p.current),
            ensures
                self.well_formed(),
                i < self.players@.len(),
                p.y <= self@.players[i as int].y,
                self@ == with_player(pre, i as int, moved_to(p, p.x, self@.players[i as int].y)),
                forall|yy: int| p.y < yy <= self@.players[i as int].y ==> !collides(p.board, p.current, p.x, yy),
                !can_move(self@.players[i as int], 0, 1),
            decreases BOARD_HEIGHT - self@.players[i as int].y,
        {
            let ghost before = self@;
            proof {
                lemma_slot(self@, i as int);
            }
            if !self.move_tetromino(id, 0, 1) {
                break;
            }
            proof {
                let y1 = before.players[i as int].y;
                lemma_fall_bounded(p.board, p.current, p.x, y1 + 1);
                assert(self@.players =~= pre.players.update(i as int, moved_to(p, p.x, y1 + 1)));
            }
        }
        let ghost y2 = self@.players[i as int].y;
        proof {
            lemma_slot(self@, i as int);
            assert(moved_to(p, p.x, y2) == self@.players[i as int]);
        }
        let ghost count_before = *cleared_lines;
        let r = self.settle(i, cleared_lines);
        proof {
            assert(settled(with_player(pre, i as int, moved_to(p, p.x, y2)), i as int, self@, r, count_before as int, *cleared_lines as int));
            assert(!can_move(moved_to(p, p.x, y2), 0, 1));
        }
        r
    }

    /// Registers a player before the match starts: an empty board, an own
    /// piece queue and the alive flag. A player already registered under
    /// `id` starts over; after the start nothing changes.
    pub fn add_player(&mut self, id: usize, name: String)
        requires
            old(self).well_formed(),
        ensures
            final(self).well_formed(),
            old(self)@.started ==> final(self)@ == old(self)@,
            !old(self)@.started ==> has_player(final(self)@, id) && fresh_player(
                final(self)@.players[slot(final(self)@, id)],
                id,
                name@,
            ) && final(self)@ == (if has_player(old(self)@, id) {
                with_player(old(self)@, slot(old(self)@, id), final(self)@.players[slot(final(self)@, id)])
            } else {
                GameModel {
                    started: false,
                    players: old(self)@.players.push(final(self)@.players[slot(final(self)@, id)]),
                }
            }),
    {
        if self.started {
            return;
        }
        let mut queue = TetrominoQueue::new();
        let current = queue.take_next();
        let player = PlayerState {
            id,
            name,
            board: Board::new(),
            queue,
            current,
            position: Point { x: 0, y: 0 },
            alive: true,
        };
        proof {
            assert(fresh_player(player@, id, player@.name));
        }
        let ghost pre = self@;
        match self.find(id) {
            Some(i) => {
                self.players.set(i, player);
                proof {
                    assert(self@.players =~= pre.players.update(i as int, player@));
                    assert forall|a: int, b: int| 0 <= a < b < self@.players.len() implies (#[trigger] self@.players[a]).id != (#[trigger] self@.players[b]).id by {
                        if a != i && b != i {
                            assert(pre.players[a].id != pre.players[b].id);
                        } else if a == i {
                            assert(pre.players[b] == self@.players[b]);
                            lemma_slot(pre, b);
                        } else {
                            assert(pre.players[a] == self@.players[a]);
                            lemma_slot(pre, a);
                        }
                    }
                    lemma_slot(self@, i as int);
                }
            },
            None => {
                self.players.push(player);
                proof {
                    let n = pre.players.len() as int;
                    assert(self@.players =~= pre.players.push(player@));
                    assert forall|a: int, b: int| 0 <= a < b < self@.players.len() implies (#[trigger] self@.players[a]).id != (#[trigger] self@.players[b]).id by {
                        if b == n {
                            assert(self@.players[a] == pre.players[a]);
                        } else {
                            assert(pre.players[a].id != pre.players[b].id);
                        }
                    }
                    lemma_slot(self@, n);
                }
            },
        }
    }

    /// Starts the match: each player's first piece is spawned at the top
    /// centre; a player whose piece does not fit is out.
    pub fn start(&mut self)
        requires
            old(self).well_formed(),
        ensures
            final(self).well_formed(),
            final(self)@.started,
            final(self)@.players.len() == old(self)@.players.len(),
            forall|j: int| 0 <= j < old(self)@.players.len() ==> {
                let p = #[trigger] old(self)@.players[j];
                let ok = !collides(p.board, p.current, spawn_x(p.current), 0);
                final(self)@.players[j] == (if ok {
                    moved_to(p, spawn_x(p.current), 0)
                } else {
                    PlayerModel { alive: false, ..p }
                })
            },
    {
        self.started = true;
        let ghost pre = self@;
        let mut j: usize = 0;
        while j < self.players.len()
            invariant
                self.well_formed(),
                self@.started,
                self@.players.len() == pre.players.len(),
                j <= self@.players.len(),
                forall|k: int| j <= k < pre.players.len() ==> #[trigger] self@.players[k] == pre.players[k],
                forall|k: int| 0 <= k < j ==> {
                    let p = #[trigger] pre.players[k];
                    let ok = !collides(p.board, p.current, spawn_x(p.current), 0);
                    self@.players[k] == (if ok {
                        moved_to(p, spawn_x(p.current), 0)
                    } else {
                        PlayerModel { alive: false, ..p }
                    })
                },
            decreases pre.players.len() - j,
        {
            let ghost before = self@;
            if !self.spawn_slot(j) {
                let ghost mid = self@;
                self.players[j].alive = false;
                proof {
                    assert(self@.players =~= mid.players.update(j as int, PlayerModel { alive: false, ..mid.players[j as int] }));
                    assert(self.players@[j as int].well_formed());
                }
            }
            proof {
                lemma_slot(before, j as int);
                assert forall|k: int| j + 1 <= k < pre.players.len() implies #[trigger] self@.players[k] == pre.players[k] by {
                    assert(self@.players[k] == before.players[k]);
                }
                assert forall|k: int| 0 <= k < j + 1 implies {
                    let p = #[trigger] pre.players[k];
                    let ok = !collides(p.board, p.current, spawn_x(p.current), 0);
                    self@.players[k] == (if ok {
                        moved_to(p, spawn_x(p.current), 0)
                    } else {
                        PlayerModel { alive: false, ..p }
                    })
                } by {
                    if k < j {
                        assert(self@.players[k] == before.players[k]);
                    }
                }
            }
            j += 1;
        }
    }

    /// Sends `count` garbage rows to every alive player other than `source`.
    pub fn on_lines_cleared(&mut self, source: usize, count: usize)
        requires
            old(self).well_formed(),
            count <= BOARD_HEIGHT,
        ensures
            final(self).well_formed(),
            final(self)@ == attacked(old(self)@, source, count as int),
    {
        let ghost pre = self@;
        let mut j: usize = 0;
        while j < self.players.len()
            invariant
                self.well_formed(),
                count <= BOARD_HEIGHT,
                self@.started == pre.started,
                self@.players.len() == pre.players.len(),
                j <= self@.players.len(),
                forall|k: int| j <= k < pre.players.len() ==> #[trigger] self@.players[k] == pre.players[k],
                forall|k: int| 0 <= k < j ==> #[trigger] self@.players[k] == attacked(pre, source, count as int).players[k],
            decreases pre.players.len() - j,
        {
            let ghost before = self@;
            if self.players[j].id != source && self.players[j].alive && count > 0 {
                self.players[j].board.add_lines(count);
                proof {
                    assert(self@.players =~= before.players.update(j as int, PlayerModel {
                        board: garbage_added(before.players[j as int].board, count as int),
                        ..before.players[j as int]
                    }));
                    assert(self.players@[j as int].well_formed());
                }
            }
            proof {
                assert forall|k: int| j + 1 <= k < pre.players.len() implies #[trigger] self@.players[k] == pre.players[k] by {
                    assert(self@.players[k] == before.players[k]);
                }
                assert forall|k: int| 0 <= k < j + 1 implies #[trigger] self@.players[k] == attacked(pre, source, count as int).players[k] by {
                    if k < j {
                        assert(self@.players[k] == before.players[k]);
                    }
                }
            }
            j += 1;
        }
        assert(self@.players =~= attacked(pre, source, count as int).players);
    }

    /// Whether player `id` is registered and still in the match.
    pub fn is_alive(&self, id: &usize) -> (r: bool)
        requires
            self.well_formed(),
        ensures
            r == (has_player(self@, *id) && self@.players[slot(self@, *id)].alive),
    {
        match self.find(*id) {
            Some(i) => self.players[i].alive,
            None => false,
        }
    }

    /// Marks player `id` as out of the match (it topped out or its
    /// connection ended).
    pub fn eliminate(&mut self, id: &usize)
        requires
            old(self).well_formed(),
        ensures
            final(self).well_formed(),
            final(self)@ == eliminated(old(self)@, *id),
    {
        if let Some(i) = self.find(*id) {
            let ghost pre = self@;
            self.players[i].alive = false;
            proof {
                assert(self@.players =~= pre.players.update(i as int, PlayerModel { alive: false, ..pre.players[i as int] }));
                assert(self.players@[i as int].well_formed());
            }
        }
    }

    /// Number of players still in the match.
    pub fn alive_count(&self) -> (n: usize)
        ensures
            n == alive_total(self@),
    {
        let mut n: usize = 0;
        let mut j: usize = 0;
        while j < self.players.len()
            invariant
                j <= self.players@.len(),
                n == alive_count_upto(self@.players, j as int),
                n <= j,
            decreases self.players@.len() - j,
        {
            if self.players[j].alive {
                n += 1;
            }
            j += 1;
        }
        n
    }

    /// The match is over once it has started and no more than one player is
    /// left alive (none, when it was played alone).
    pub fn is_over(&self) -> (r: bool)
        ensures
            r == (self@.started && (alive_total(self@) == 0 || (self@.players.len() >= 2 && alive_total(self@) <= 1))),
    {
        let alive = self.alive_count();
        self.started && (alive == 0 || (self.players.len() >= 2 && alive <= 1))
    }

    /// Applies one command of player `id`. A hard drop that leaves the player
    /// unable to go on eliminates it; rows it clears go to every other alive
    /// player as garbage. Returns whether the move or turn happened, or, for a
    /// drop, whether `id` is registered.
    pub fn process_command(&mut self, id: &usize, command: Command) -> (r: bool)
        requires
            old(self).well_formed(),
        ensures
            final(self).well_formed(),
            match command {
                Command::Left => move_outcome(old(self)@, *id, -1, 0, final(self)@, r),
                Command::Right => move_outcome(old(self)@, *id, 1, 0, final(self)@, r),
                Command::Rotate(d) => rotate_outcome(old(self)@, *id, d, final(self)@, r),
                Command::Drop => drop_command_outcome(old(self)@, *id, final(self)@, r),
            },
    {
        match command {
            Command::Left => self.move_tetromino(id, -1, 0),
            Command::Right => self.move_tetromino(id, 1, 0),
            Command::Rotate(d) => self.rotate_tetromino(id, d),
            Command::Drop => {
                let ghost pre = self@;
                let known = self.find(*id).is_some();
                let mut cleared: usize = 0;
                let alive = self.drop_tetromino(id, &mut cleared);
                let ghost mid = self@;
                if !alive {
                    self.eliminate(id);
                } else {
                    proof {
                        lemma_drop_count_bounded(pre, *id, mid, alive, cleared as int);
                    }
                    self.on_lines_cleared(*id, cleared);
                }
                proof {
                    assert(drop_outcome(pre, *id, mid, alive, 0, cleared as int));
                }
                known
            },
        }
    }

    /// Places player `id`'s active piece at the top centre of its board when
    /// it fits there.
    pub fn place_new_tetromino(&mut self, id: &usize) -> (placed: bool)
        requires
            old(self).well_formed(),
        ensures
            final(self).well_formed(),
            spawn_outcome(old(self)@, *id, final(self)@, placed),
    {
        match self.find(*id) {
            Some(i) => self.spawn_slot(i),
            None => false,
        }
    }
}

} // verus!
