//! The falling-block board: tetrominoes that move, rotate and lock into a
//! 10x20 well, whose full rows are cleared.

use vstd::prelude::*;
use crate::rng::{gen_below_u32, gen_range_usize};
use crate::music::{default_counter, default_leads, shuffled, Arrangement, Tone};

verus! {

/// The width of the well.
pub const COLS: usize = 10;
/// The height of the well.
pub const ROWS: usize = 20;

/// The seven tetrominoes.
#[derive(Clone, Copy, PartialEq, Eq, Structural, Debug)]
pub enum PieceType {
    I,
    O,
    T,
    S,
    Z,
    J,
    L,
}

/// The cells of a piece in its first orientation, in a 4x4 frame.
pub open spec fn base_cells(p: PieceType) -> Seq<(int, int)> {
    match p {
        PieceType::I => seq![(0, 1), (1, 1), (2, 1), (3, 1)],
        PieceType::O => seq![(1, 0), (2, 0), (1, 1), (2, 1)],
        PieceType::T => seq![(1, 0), (0, 1), (1, 1), (2, 1)],
        PieceType::S => seq![(1, 0), (2, 0), (0, 1), (1, 1)],
        PieceType::Z => seq![(0, 0), (1, 0), (1, 1), (2, 1)],
        PieceType::J => seq![(0, 0), (0, 1), (1, 1), (2, 1)],
        PieceType::L => seq![(2, 0), (0, 1), (1, 1), (2, 1)],
    }
}

/// A cell turned a quarter turn clockwise `n` times about the point (1, 1):
/// one turn maps `(x, y)` to `(2 - y, x)`.
pub open spec fn turned(c: (int, int), n: int) -> (int, int) {
    if n % 4 == 0 {
        c
    } else if n % 4 == 1 {
        (2 - c.1, c.0)
    } else if n % 4 == 2 {
        (2 - c.0, 2 - c.1)
    } else {
        (c.1, 2 - c.0)
    }
}

/// The offset of the `k`-th cell of piece `p` turned `rotation` times.
pub open spec fn shape_cell(p: PieceType, rotation: int, k: int) -> (int, int) {
    turned(base_cells(p)[k], rotation)
}

impl PieceType {
    /// The four cell offsets of the piece after `rotation` quarter turns
    /// clockwise (only `rotation % 4` matters).
    pub fn shape(&self, rotation: usize) -> (s: Vec<(i32, i32)>)
        ensures
            s@.len() == 4,
            forall|k: int|
                0 <= k < 4 ==> (#[trigger] s@[k]).0 == shape_cell(*self, rotation as int, k).0 && s@[k].1
                    == shape_cell(*self, rotation as int, k).1,
    {
        let mut cur: Vec<(i32, i32)> = match self {
            PieceType::I => vec![(0, 1), (1, 1), (2, 1), (3, 1)],
            PieceType::O => vec![(1, 0), (2, 0), (1, 1), (2, 1)],
            PieceType::T => vec![(1, 0), (0, 1), (1, 1), (2, 1)],
            PieceType::S => vec![(1, 0), (2, 0), (0, 1), (1, 1)],
            PieceType::Z => vec![(0, 0), (1, 0), (1, 1), (2, 1)],
            PieceType::J => vec![(0, 0), (0, 1), (1, 1), (2, 1)],
            PieceType::L => vec![(2, 0), (0, 1), (1, 1), (2, 1)],
        };
        let turns = rotation % 4;
        let mut t: usize = 0;
        while t < turns
            invariant
                0 <= t <= turns < 4,
                turns == rotation % 4,
                cur@.len() == 4,
                forall|k: int|
                    0 <= k < 4 ==> (#[trigger] cur@[k]).0 == turned(base_cells(*self)[k], t as int).0 && cur@[k].1
                        == turned(base_cells(*self)[k], t as int).1,
            decreases turns - t,
        {
            let mut next: Vec<(i32, i32)> = Vec::new();
            let mut k: usize = 0;
            while k < 4
                invariant
                    0 <= k <= 4,
                    0 <= t < turns < 4,
                    cur@.len() == 4,
                    next@.len() == k,
                    forall|j: int|
                        0 <= j < 4 ==> (#[trigger] cur@[j]).0 == turned(base_cells(*self)[j], t as int).0 && cur@[j].1
                            == turned(base_cells(*self)[j], t as int).1,
                    forall|j: int|
                        0 <= j < k ==> (#[trigger] next@[j]).0 == turned(base_cells(*self)[j], t + 1).0 && next@[j].1
                            == turned(base_cells(*self)[j], t + 1).1,
                decreases 4 - k,
            {
                let (x, y) = cur[k];
                next.push((1 - (y - 1), x));
                k += 1;
            }
            cur = next;
            t += 1;
        }
        cur
    }
}

/// The piece under the player's control.
#[derive(Clone, Copy, PartialEq, Eq, Structural, Debug)]
pub struct ActivePiece {
    pub piece_type: PieceType,
    pub x: i32,
    pub y: i32,
    pub rotation: usize,
}

/// Rows of cells, `grid[y][x]`, holding the piece a block came from.
pub type Well = [[Option<PieceType>; COLS]; ROWS];

/// A block at `(gx, gy)` would leave the well through a side or the floor,
/// or overlap a settled block; cells above the top edge are free.
pub open spec fn blocked(g: Well, gx: int, gy: int) -> bool {
    gx < 0 || gx >= COLS || gy >= ROWS || (gy >= 0 && g[gy][gx] is Some)
}

/// The cells of piece `p` turned `rotation` times with its frame at `(x, y)`
/// lie within `i32`.
pub open spec fn fits_i32(p: PieceType, x: int, y: int, rotation: int) -> bool {
    forall|k: int|
        0 <= k < 4 ==> i32::MIN <= x + #[trigger] shape_cell(p, rotation, k).0 <= i32::MAX && i32::MIN <= y
            + shape_cell(p, rotation, k).1 <= i32::MAX
}

/// Some cell of the piece is blocked.
pub open spec fn collides_spec(g: Well, p: PieceType, x: int, y: int, rotation: int) -> bool {
    exists|k: int|
        0 <= k < 4 && blocked(g, x + #[trigger] shape_cell(p, rotation, k).0, y + shape_cell(p, rotation, k).1)
}

/// Every turned cell offset lies within -1 and 3.
proof fn lemma_shape_cell_small(p: PieceType, rotation: int, k: int)
    requires
        0 <= k < 4,
    ensures
        -1 <= shape_cell(p, rotation, k).0 <= 3,
        -1 <= shape_cell(p, rotation, k).1 <= 3,
{
}

/// The board of settled blocks and the falling piece.
pub struct Board {
    pub grid: Well,
    pub active: Option<ActivePiece>,
}

/// The frame's column where new pieces appear.
pub const SPAWN_X: i32 = 3;
/// The frame's row where new pieces appear (one above the well).
pub const SPAWN_Y: i32 = -1;

impl Board {
    /// An empty well with no piece.
    pub fn new() -> (b: Board)
        ensures
            forall|x: int, y: int| 0 <= x < COLS && 0 <= y < ROWS ==> #[trigger] b.grid[y][x] is None,
            b.active is None,
    {
        Board { grid: [[None; COLS]; ROWS], active: None }
    }

    /// Whether piece `piece_type`, turned `rotation` times with its frame at
    /// `(x, y)`, would be blocked.
    pub fn collides(&self, piece_type: PieceType, x: i32, y: i32, rotation: usize) -> (r: bool)
        requires
            fits_i32(piece_type, x as int, y as int, rotation as int),
        ensures
            r == collides_spec(self.grid, piece_type, x as int, y as int, rotation as int),
    {
        let cells = piece_type.shape(rotation);
        let mut k: usize = 0;
        while k < 4
            invariant
                0 <= k <= 4,
                cells@.len() == 4,
                fits_i32(piece_type, x as int, y as int, rotation as int),
                forall|j: int|
                    0 <= j < 4 ==> (#[trigger] cells@[j]).0 == shape_cell(piece_type, rotation as int, j).0
                        && cells@[j].1 == shape_cell(piece_type, rotation as int, j).1,
                forall|j: int|
                    0 <= j < k ==> !blocked(
                        self.grid,
                        x + #[trigger] shape_cell(piece_type, rotation as int, j).0,
                        y + shape_cell(piece_type, rotation as int, j).1,
                    ),
            decreases 4 - k,
        {
            let (dx, dy) = cells[k];
            assert(cells@[k as int].0 == shape_cell(piece_type, rotation as int, k as int).0);
            let gx = x + dx;
            let gy = y + dy;
            if gx < 0 || gx >= COLS as i32 || gy >= ROWS as i32 {
                return true;
            }
            if gy >= 0 && self.grid[gy as usize][gx as usize].is_some() {
                return true;
            }
            k += 1;
        }
        false
    }

    /// Places a new piece of the given kind at the spawn position unless it
    /// would be blocked there. Returns whether it was placed.
    pub fn spawn_piece_of(&mut self, piece_type: PieceType) -> (placed: bool)
        ensures
            placed == !collides_spec(old(self).grid, piece_type, SPAWN_X as int, SPAWN_Y as int, 0),
            final(self).grid == old(self).grid,
            placed ==> final(self).active == Some(
                ActivePiece { piece_type, x: SPAWN_X, y: SPAWN_Y, rotation: 0 },
            ),
            !placed ==> final(self).active == old(self).active,
    {
        proof {
            assert forall|k: int| 0 <= k < 4 implies i32::MIN <= SPAWN_X + #[trigger] shape_cell(piece_type, 0, k).0 <= i32::MAX
                && i32::MIN <= SPAWN_Y + shape_cell(piece_type, 0, k).1 <= i32::MAX by {
                lemma_shape_cell_small(piece_type, 0, k);
            }
        }
        if !self.collides(piece_type, SPAWN_X, SPAWN_Y, 0) {
            self.active = Some(ActivePiece { piece_type, x: SPAWN_X, y: SPAWN_Y, rotation: 0 });
            true
        } else {
            false
        }
    }

    /// Draws a random kind of piece and places it at the spawn position
    /// unless it would be blocked there. Returns whether it was placed.
    pub fn spawn_piece(&mut self) -> (placed: bool)
        ensures
            final(self).grid == old(self).grid,
            placed ==> (final(self).active matches Some(a) && a.x == SPAWN_X && a.y == SPAWN_Y && a.rotation == 0
                && !collides_spec(old(self).grid, a.piece_type, SPAWN_X as int, SPAWN_Y as int, 0)),
            !placed ==> final(self).active == old(self).active && exists|p: PieceType|
                #[trigger] collides_spec(old(self).grid, p, SPAWN_X as int, SPAWN_Y as int, 0),
    {
        let piece_types = [
            PieceType::I,
            PieceType::O,
            PieceType::T,
            PieceType::S,
            PieceType::Z,
            PieceType::J,
            PieceType::L,
        ];
        let piece_type = piece_types[gen_range_usize(0, 7)];
        self.spawn_piece_of(piece_type)
    }

    /// Moves the active piece by `(dx, dy)` unless it would be blocked there.
    /// Returns whether it moved.
    pub fn move_piece(&mut self, dx: i32, dy: i32) -> (moved: bool)
        requires
            old(self).active matches Some(a) ==> i32::MIN <= a.x + dx <= i32::MAX && i32::MIN <= a.y + dy <= i32::MAX
                && fits_i32(a.piece_type, a.x + dx, a.y + dy, a.rotation as int),
        ensures
            final(self).grid == old(self).grid,
            moved == (old(self).active is Some && !collides_spec(
                old(self).grid,
                old(self).active->0.piece_type,
                old(self).active->0.x + dx,
                old(self).active->0.y + dy,
                old(self).active->0.rotation as int,
            )),
            moved ==> final(self).active == Some(
                ActivePiece {
                    x: (old(self).active->0.x + dx) as i32,
                    y: (old(self).active->0.y + dy) as i32,
                    ..old(self).active->0
                },
            ),
            !moved ==> final(self).active == old(self).active,
    {
        if let Some(active) = self.active {
            let nx = active.x + dx;
            let ny = active.y + dy;
            if !self.collides(active.piece_type, nx, ny, active.rotation) {
                self.active = Some(ActivePiece { x: nx, y: ny, ..active });
                return true;
            }
        }
        false
    }

    /// Moves the active piece one step the way the gravity wells pull it:
    /// `dx` and `dy` are the directions of the pull (each -1, 0 or 1), and
    /// no pull leaves the piece where it is. Returns whether it moved.
    pub fn apply_pull(&mut self, dx: i32, dy: i32) -> (moved: bool)
        requires
            -1 <= dx <= 1,
            -1 <= dy <= 1,
            old(self).active matches Some(a) ==> i32::MIN <= a.x + dx <= i32::MAX && i32::MIN <= a.y + dy <= i32::MAX
                && fits_i32(a.piece_type, a.x + dx, a.y + dy, a.rotation as int),
        ensures
            final(self).grid == old(self).grid,
            moved == ((dx != 0 || dy != 0) && old(self).active is Some && !collides_spec(
                old(self).grid,
                old(self).active->0.piece_type,
                old(self).active->0.x + dx,
                old(self).active->0.y + dy,
                old(self).active->0.rotation as int,
            )),
            moved ==> final(self).active == Some(
                ActivePiece {
                    x: (old(self).active->0.x + dx) as i32,
                    y: (old(self).active->0.y + dy) as i32,
                    ..old(self).active->0
                },
            ),
            !moved ==> final(self).active == old(self).active,
    {
        if dx != 0 || dy != 0 {
            return self.move_piece(dx, dy);
        }
        false
    }

    /// Turns the active piece a quarter turn clockwise unless it would be
    /// blocked. Returns whether it turned.
    pub fn rotate_piece(&mut self) -> (rotated: bool)
        requires
            old(self).active matches Some(a) ==> a.rotation < usize::MAX && fits_i32(
                a.piece_type,
                a.x as int,
                a.y as int,
                (a.rotation + 1) % 4,
            ),
        ensures
            final(self).grid == old(self).grid,
            rotated == (old(self).active is Some && !collides_spec(
                old(self).grid,
                old(self).active->0.piece_type,
                old(self).active->0.x as int,
                old(self).active->0.y as int,
                (old(self).active->0.rotation + 1) % 4,
            )),
            rotated ==> final(self).active == Some(
                ActivePiece { rotation: ((old(self).active->0.rotation + 1) % 4) as usize, ..old(self).active->0 },
            ),
            !rotated ==> final(self).active == old(self).active,
    {
        if let Some(active) = self.active {
            let nr = (active.rotation + 1) % 4;
            if !self.collides(active.piece_type, active.x, active.y, nr) {
                self.active = Some(ActivePiece { rotation: nr, ..active });
                return true;
            }
        }
        false
    }
}


/// Cell `k` of the piece lands on `(x, y)` of the well.
pub open spec fn covers(a: ActivePiece, k: int, x: int, y: int) -> bool {
    a.x + shape_cell(a.piece_type, a.rotation as int, k).0 == x && a.y + shape_cell(a.piece_type, a.rotation as int, k).1 == y
}

/// The cell `(x, y)` of the well after piece `a` is locked into `g`.
pub open spec fn locked_cell(g: Well, a: ActivePiece, x: int, y: int) -> Option<PieceType> {
    if exists|k: int| 0 <= k < 4 && #[trigger] covers(a, k, x, y) {
        Some(a.piece_type)
    } else {
        g[y][x]
    }
}

/// One row of the well.
pub type Row = Seq<Option<PieceType>>;

/// The rows of the well, top first.
pub open spec fn rows(g: Well) -> Seq<Row> {
    Seq::new(ROWS as nat, |i: int| g[i]@)
}

/// Every cell of the row holds a block.
pub open spec fn is_full_row(r: Row) -> bool {
    forall|x: int| 0 <= x < COLS ==> #[trigger] r[x] is Some
}

/// A row without blocks.
pub open spec fn empty_row() -> Row {
    Seq::new(COLS as nat, |x: int| None)
}

/// `n` empty rows.
pub open spec fn empty_rows(n: nat) -> Seq<Row> {
    Seq::new(n, |i: int| empty_row())
}

/// The rows of `s` that are not full, in order.
pub open spec fn kept_rows(s: Seq<Row>) -> Seq<Row>
    decreases s.len(),
{
    if s.len() == 0 {
        s
    } else if is_full_row(s[0]) {
        kept_rows(s.drop_first())
    } else {
        seq![s[0]] + kept_rows(s.drop_first())
    }
}

/// The well after its full rows are removed: the other rows keep their
/// order and sink to the bottom, with empty rows above them.
pub open spec fn cleared_rows(s: Seq<Row>) -> Seq<Row> {
    empty_rows((s.len() - kept_rows(s).len()) as nat) + kept_rows(s)
}

proof fn lemma_kept_rows_len(s: Seq<Row>)
    ensures
        kept_rows(s).len() <= s.len(),
    decreases s.len(),
{
    if s.len() > 0 {
        lemma_kept_rows_len(s.drop_first());
    }
}

impl Board {
    /// Writes the active piece's blocks into the well (those inside it) and
    /// removes the active piece.
    pub fn lock_piece(&mut self)
        requires
            old(self).active matches Some(a) ==> fits_i32(a.piece_type, a.x as int, a.y as int, a.rotation as int),
        ensures
            final(self).active is None,
            old(self).active is None ==> final(self).grid == old(self).grid,
            old(self).active matches Some(a) ==> forall|x: int, y: int|
                0 <= x < COLS && 0 <= y < ROWS ==> #[trigger] final(self).grid[y][x] == locked_cell(old(self).grid, a, x, y),
    {
        if let Some(active) = self.active {
            self.active = None;
            let cells = active.piece_type.shape(active.rotation);
            let ghost g0 = self.grid;
            let mut k: usize = 0;
            while k < 4
                invariant
                    0 <= k <= 4,
                    cells@.len() == 4,
                    self.active is None,
                    old(self).active == Some(active),
                    g0 == old(self).grid,
                    fits_i32(active.piece_type, active.x as int, active.y as int, active.rotation as int),
                    forall|j: int|
                        0 <= j < 4 ==> (#[trigger] cells@[j]).0 == shape_cell(active.piece_type, active.rotation as int, j).0
                            && cells@[j].1 == shape_cell(active.piece_type, active.rotation as int, j).1,
                    forall|x: int, y: int|
                        0 <= x < COLS && 0 <= y < ROWS ==> #[trigger] self.grid[y][x] == if exists|j: int|
                            0 <= j < k && #[trigger] covers(active, j, x, y) {
                            Some(active.piece_type)
                        } else {
                            g0[y][x]
                        },
                decreases 4 - k,
            {
                let (dx, dy) = cells[k];
                let gx = active.x + dx;
                let gy = active.y + dy;
                let ghost before = self.grid;
                if gx >= 0 && gx < COLS as i32 && gy >= 0 && gy < ROWS as i32 {
                    self.grid[gy as usize][gx as usize] = Some(active.piece_type);
                }
                assert forall|x: int, y: int| 0 <= x < COLS && 0 <= y < ROWS implies #[trigger] self.grid[y][x] == if exists|j: int|
                    0 <= j < k + 1 && #[trigger] covers(active, j, x, y) {
                    Some(active.piece_type)
                } else {
                    g0[y][x]
                } by {
                    if covers(active, k as int, x, y) {
                        assert(x == gx && y == gy);
                    } else {
                        assert(self.grid[y][x] == before[y][x]);
                        if exists|j: int| 0 <= j < k + 1 && #[trigger] covers(active, j, x, y) {
                            let j = choose|j: int| 0 <= j < k + 1 && #[trigger] covers(active, j, x, y);
                            assert(j != k);
                            assert(0 <= j < k && covers(active, j, x, y));
                        }
                    }
                }
                k += 1;
            }
        }
    }

    /// Whether every cell of row `y` holds a block.
    fn row_is_full(&self, y: usize) -> (r: bool)
        requires
            y < ROWS,
        ensures
            r == is_full_row(self.grid[y as int]@),
    {
        let mut x: usize = 0;
        while x < COLS
            invariant
                y < ROWS,
                0 <= x <= COLS,
                forall|i: int| 0 <= i < x ==> (#[trigger] self.grid[y as int]@[i]) is Some,
            decreases COLS - x,
        {
            if self.grid[y][x].is_none() {
                return false;
            }
            x += 1;
        }
        true
    }

    /// Removes row `y`: the rows above it move down by one and the top row
    /// becomes empty.
    fn drop_row(&mut self, y: usize)
        requires
            y < ROWS,
        ensures
            rows(final(self).grid) == seq![empty_row()] + rows(old(self).grid).take(y as int) + rows(old(self).grid).skip(y + 1),
            final(self).active == old(self).active,
    {
        let ghost g0 = self.grid;
        let mut row = y;
        while row >= 1
            invariant
                y < ROWS,
                0 <= row <= y,
                self.active == old(self).active,
                g0 == old(self).grid,
                forall|r: int| 0 <= r <= row ==> #[trigger] self.grid[r] == g0[r],
                forall|r: int| row < r <= y ==> #[trigger] self.grid[r] == g0[r - 1],
                forall|r: int| y < r < ROWS ==> #[trigger] self.grid[r] == g0[r],
            decreases row,
        {
            self.grid[row] = self.grid[row - 1];
            row -= 1;
        }
        self.grid[0] = [None; COLS];
        let ghost expected = seq![empty_row()] + rows(g0).take(y as int) + rows(g0).skip(y + 1);
        assert(rows(self.grid) =~= expected) by {
            assert forall|r: int| 0 <= r < ROWS implies #[trigger] rows(self.grid)[r] == expected[r] by {
                if r == 0 {
                    assert(self.grid[0]@ =~= empty_row());
                } else if r <= y {
                    assert(self.grid[r] == g0[r - 1]);
                } else {
                    assert(self.grid[r] == g0[r]);
                }
            }
        }
    }

    /// Removes every full row: the other rows keep their order and sink to
    /// the bottom, with empty rows entering at the top. Returns the number of
    /// rows removed.
    pub fn clear_lines(&mut self) -> (cleared: usize)
        ensures
            rows(final(self).grid) == cleared_rows(rows(old(self).grid)),
            cleared == ROWS - kept_rows(rows(old(self).grid)).len(),
            final(self).active == old(self).active,
    {
        let ghost orig = rows(self.grid);
        let mut cleared: usize = 0;
        let mut y: usize = ROWS - 1;
        let ghost mut e: nat = 0;
        let ghost mut d: nat = 0;
        let ghost mut p: nat = ROWS as nat;
        proof {
            assert(orig.take(ROWS as int) =~= orig);
            assert(orig.skip(ROWS as int) =~= Seq::<Row>::empty());
            assert(rows(self.grid) =~= empty_rows(0) + orig.take(p as int) + empty_rows(0) + kept_rows(orig.skip(p as int)));
        }
        loop
            invariant_except_break
                e + p == y + 1,
            invariant
                y < ROWS,
                p <= ROWS,
                d > 0 ==> p == 0,
                orig.len() == ROWS,
                self.active == old(self).active,
                orig == rows(old(self).grid),
                rows(self.grid) == empty_rows(e) + orig.take(p as int) + empty_rows(d) + kept_rows(orig.skip(p as int)),
                cleared == (ROWS - p) - kept_rows(orig.skip(p as int)).len(),
            ensures
                rows(self.grid) == cleared_rows(orig),
                cleared == ROWS - kept_rows(orig).len(),
                self.active == old(self).active,
            decreases y + p,
        {
            let ghost cur = rows(self.grid);
            assert(cur.len() == ROWS);
            assert(cur[y as int] == self.grid[y as int]@);
            proof {
                lemma_kept_rows_len(orig.skip(p as int));
            }
            if self.row_is_full(y) {
                proof {
                    if p == 0 {
                        assert(cur[y as int] == empty_rows(e)[y as int]);
                        assert(!is_full_row(empty_row())) by {
                            assert(empty_row()[0] is None);
                        }
                        assert(false);
                    }
                    assert(cur[y as int] == orig[p - 1]);
                }
                cleared += 1;
                self.drop_row(y);
                proof {
                    let t = orig.skip(p - 1);
                    assert(t.drop_first() =~= orig.skip(p as int));
                    assert(t[0] == orig[p - 1]);
                    assert(kept_rows(t) == kept_rows(orig.skip(p as int)));
                    let np = (p - 1) as nat;
                    let ne = e + 1;
                    assert(rows(self.grid) =~= empty_rows(ne) + orig.take(np as int) + empty_rows(d) + kept_rows(orig.skip(np as int))) by {
                        assert(cur.take(y as int) =~= empty_rows(e) + orig.take(np as int));
                        assert(cur.skip(y + 1) =~= empty_rows(d) + kept_rows(orig.skip(p as int)));
                        assert(seq![empty_row()] + empty_rows(e) =~= empty_rows(ne));
                    }
                    p = np;
                    e = ne;
                }
            } else {
                proof {
                    if p > 0 {
                        assert(cur[y as int] == orig[p - 1]);
                        let t = orig.skip(p - 1);
                        assert(t.drop_first() =~= orig.skip(p as int));
                        assert(t[0] == orig[p - 1]);
                        assert(kept_rows(t) == seq![orig[p - 1]] + kept_rows(orig.skip(p as int)));
                        let np = (p - 1) as nat;
                        assert(cur =~= empty_rows(e) + orig.take(np as int) + empty_rows(d) + kept_rows(orig.skip(np as int)));
                        p = np;
                    } else {
                        assert(e >= 1);
                        let ne = (e - 1) as nat;
                        assert(cur =~= empty_rows(ne) + orig.take(0) + empty_rows(d + 1) + kept_rows(orig.skip(0)));
                        e = ne;
                        d = d + 1;
                    }
                }
                if y == 0 {
                    proof {
                        assert(p == 0);
                        assert(orig.skip(0) =~= orig);
                        lemma_kept_rows_len(orig);
                        assert(rows(self.grid) =~= cleared_rows(orig));
                    }
                    break;
                }
                y -= 1;
            }
        }
        cleared
    }
}

/// The cells of `g1` are those of `g0` with piece `a` locked in.
pub open spec fn landed(g0: Well, a: ActivePiece, g1: Well) -> bool {
    forall|x: int, y: int| 0 <= x < COLS && 0 <= y < ROWS ==> #[trigger] g1[y][x] == locked_cell(g0, a, x, y)
}

/// The frame of the piece lies far enough inside the range of `i32` for it
/// to move and turn.
pub open spec fn in_range(a: ActivePiece) -> bool {
    i32::MIN + 8 <= a.x <= i32::MAX - 8 && i32::MIN + 8 <= a.y <= i32::MAX - 8
}

proof fn lemma_fits_at(p: PieceType, x: int, y: int, rotation: int)
    requires
        i32::MIN + 4 <= x <= i32::MAX - 4,
        i32::MIN + 4 <= y <= i32::MAX - 4,
    ensures
        fits_i32(p, x, y, rotation),
{
    assert forall|k: int| 0 <= k < 4 implies i32::MIN <= x + #[trigger] shape_cell(p, rotation, k).0 <= i32::MAX
        && i32::MIN <= y + shape_cell(p, rotation, k).1 <= i32::MAX by {
        lemma_shape_cell_small(p, rotation, k);
    }
}

impl Board {
    /// Drops the active piece straight down as far as it goes.
    pub fn hard_drop(&mut self)
        requires
            old(self).active matches Some(a) ==> in_range(a),
        ensures
            final(self).grid == old(self).grid,
            old(self).active is None ==> final(self).active is None,
            old(self).active matches Some(a) ==> (final(self).active matches Some(b) && b == (ActivePiece { y: b.y, ..a })
                && a.y <= b.y && (forall|t: int|
                a.y < t <= b.y ==> !#[trigger] collides_spec(old(self).grid, a.piece_type, a.x as int, t, a.rotation as int))
                && collides_spec(old(self).grid, a.piece_type, a.x as int, b.y + 1, a.rotation as int)),
    {
        if self.active.is_none() {
            return;
        }
        let ghost a = self.active->0;
        loop
            invariant
                self.grid == old(self).grid,
                old(self).active == Some(a),
                in_range(a),
                self.active matches Some(b) && b == (ActivePiece { y: b.y, ..a }) && a.y <= b.y && (b.y <= ROWS + 2
                    || b.y == a.y),
                forall|t: int|
                    a.y < t <= self.active->0.y ==> !#[trigger] collides_spec(self.grid, a.piece_type, a.x as int, t, a.rotation as int),
            ensures
                self.grid == old(self).grid,
                self.active matches Some(b) && b == (ActivePiece { y: b.y, ..a }) && a.y <= b.y,
                forall|t: int|
                    a.y < t <= self.active->0.y ==> !#[trigger] collides_spec(self.grid, a.piece_type, a.x as int, t, a.rotation as int),
                collides_spec(self.grid, a.piece_type, a.x as int, self.active->0.y + 1, a.rotation as int),
            decreases ROWS + 2 - self.active->0.y,
        {
            let ghost b = self.active->0;
            proof {
                lemma_fits_at(a.piece_type, a.x as int, b.y + 1, a.rotation as int);
                lemma_shape_cell_small(a.piece_type, a.rotation as int, 0);
                if b.y + 1 > ROWS + 1 {
                    assert(blocked(self.grid, a.x + shape_cell(a.piece_type, a.rotation as int, 0).0, b.y + 1 + shape_cell(
                        a.piece_type,
                        a.rotation as int,
                        0,
                    ).1));
                    assert(collides_spec(self.grid, a.piece_type, a.x as int, b.y + 1, a.rotation as int));
                }
            }
            if !self.move_piece(0, 1) {
                break;
            }
        }
    }

    /// Ends the fall of the active piece: locks it into the well, removes
    /// the full rows and brings in a new random piece. Returns the number of
    /// rows removed and whether the new piece found room (the game is over
    /// when it did not).
    pub fn land_piece(&mut self) -> (r: (usize, bool))
        requires
            old(self).active matches Some(a) ==> fits_i32(a.piece_type, a.x as int, a.y as int, a.rotation as int),
        ensures
            old(self).active matches Some(a) ==> exists|g1: Well|
                #[trigger] landed(old(self).grid, a, g1) && rows(final(self).grid) == cleared_rows(rows(g1)) && r.0 == ROWS
                    - kept_rows(rows(g1)).len(),
            old(self).active is None ==> rows(final(self).grid) == cleared_rows(rows(old(self).grid)) && r.0 == ROWS
                - kept_rows(rows(old(self).grid)).len(),
            r.1 ==> (final(self).active matches Some(b) && b.x == SPAWN_X && b.y == SPAWN_Y && b.rotation == 0
                && !collides_spec(final(self).grid, b.piece_type, SPAWN_X as int, SPAWN_Y as int, 0)),
            !r.1 ==> final(self).active is None && exists|p: PieceType|
                #[trigger] collides_spec(final(self).grid, p, SPAWN_X as int, SPAWN_Y as int, 0),
    {
        self.lock_piece();
        let ghost g1 = self.grid;
        let cleared = self.clear_lines();
        let placed = self.spawn_piece();
        proof {
            if old(self).active is Some {
                assert(landed(old(self).grid, old(self).active->0, g1));
            }
        }
        (cleared, placed)
    }
}

/// The lead tones of the well's music: square and saw in turn.
pub open spec fn music_tones() -> Seq<Tone> {
    Seq::new(8, |i: int| if i % 2 == 0 { Tone::Square } else { Tone::Saw })
}

/// The drum patterns of the well's music: the first six patterns, then the
/// first two again.
pub open spec fn music_drums() -> Seq<u8> {
    Seq::new(8, |i: int| (i % 6) as u8)
}

/// The arrangement of the well's music: the lead phrases and the
/// counter-melody shuffled by `seed`, with tones and drums of its own.
pub fn music_arrangement(seed: u32) -> (r: Arrangement)
    ensures
        r.lead_var@ == shuffled(default_leads(), seed, 1, 7),
        r.cp_active@ == shuffled(default_counter(), seed, 3, 7),
        r.lead_tone@ == music_tones(),
        r.drum_var@ == music_drums(),
{
    let mut a = Arrangement::from_seed(seed);
    let mut i: usize = 0;
    while i < 8
        invariant
            0 <= i <= 8,
            a.lead_var@ == shuffled(default_leads(), seed, 1, 7),
            a.cp_active@ == shuffled(default_counter(), seed, 3, 7),
            forall|k: int| 0 <= k < i ==> #[trigger] a.lead_tone@[k] == music_tones()[k],
            forall|k: int| 0 <= k < i ==> #[trigger] a.drum_var@[k] == music_drums()[k],
        decreases 8 - i,
    {
        a.lead_tone[i] = if i % 2 == 0 {
            Tone::Square
        } else {
            Tone::Saw
        };
        a.drum_var[i] = (i % 6) as u8;
        i += 1;
    }
    assert(a.lead_tone@ =~= music_tones());
    assert(a.drum_var@ =~= music_drums());
    a
}

/// The arrangement of the well's music for a seed drawn below `0x7FFFFFFF`.
pub fn random_music_arrangement() -> (r: Arrangement)
    ensures
        exists|seed: u32|
            seed < 0x7FFFFFFF && r.lead_var@ == #[trigger] shuffled(default_leads(), seed, 1, 7) && r.cp_active@
                == shuffled(default_counter(), seed, 3, 7),
        r.lead_tone@ == music_tones(),
        r.drum_var@ == music_drums(),
{
    let seed = gen_below_u32(0x7FFFFFFF);
    music_arrangement(seed)
}

// ---------------------------------------------------------------------------
// Laws of the well.

/// Four quarter turns give a piece back its shape.
pub proof fn lemma_four_turns(p: PieceType, rotation: int, k: int)
    requires
        0 <= rotation,
    ensures
        shape_cell(p, rotation + 4, k) == shape_cell(p, rotation, k),
{
    assert((rotation + 4) % 4 == rotation % 4);
}

proof fn lemma_kept_rows_concat(a: Seq<Row>, b: Seq<Row>)
    ensures
        kept_rows(a + b) == kept_rows(a) + kept_rows(b),
    decreases a.len(),
{
    if a.len() == 0 {
        assert(a + b =~= b);
        assert(kept_rows(a) + kept_rows(b) =~= kept_rows(b));
    } else {
        assert((a + b).drop_first() =~= a.drop_first() + b);
        lemma_kept_rows_concat(a.drop_first(), b);
        assert((a + b)[0] == a[0]);
        if !is_full_row(a[0]) {
            assert(seq![a[0]] + (kept_rows(a.drop_first()) + kept_rows(b)) =~= (seq![a[0]] + kept_rows(a.drop_first()))
                + kept_rows(b));
        }
    }
}

proof fn lemma_kept_rows_none_full(s: Seq<Row>)
    requires
        forall|i: int| 0 <= i < s.len() ==> !is_full_row(#[trigger] s[i]),
    ensures
        kept_rows(s) == s,
    decreases s.len(),
{
    if s.len() > 0 {
        assert(!is_full_row(s[0]));
        lemma_kept_rows_none_full(s.drop_first());
        assert(seq![s[0]] + s.drop_first() =~= s);
    }
}

proof fn lemma_kept_rows_not_full(s: Seq<Row>)
    ensures
        forall|i: int| 0 <= i < kept_rows(s).len() ==> !is_full_row(#[trigger] kept_rows(s)[i]),
    decreases s.len(),
{
    if s.len() > 0 {
        lemma_kept_rows_not_full(s.drop_first());
        if !is_full_row(s[0]) {
            let t = kept_rows(s.drop_first());
            assert(kept_rows(s) == seq![s[0]] + t);
            assert forall|i: int| 0 <= i < kept_rows(s).len() implies !is_full_row(#[trigger] kept_rows(s)[i]) by {
                if i > 0 {
                    assert(kept_rows(s)[i] == t[i - 1]);
                } else {
                    assert(kept_rows(s)[0] == s[0]);
                }
            }
        } else {
            assert(kept_rows(s) == kept_rows(s.drop_first()));
        }
    }
}

/// After the full rows are removed no row is full, the well keeps its
/// height, and removing the full rows once more changes nothing.
pub proof fn lemma_cleared_rows(s: Seq<Row>)
    ensures
        cleared_rows(s).len() == s.len(),
        forall|i: int| 0 <= i < cleared_rows(s).len() ==> !is_full_row(#[trigger] cleared_rows(s)[i]),
        cleared_rows(cleared_rows(s)) == cleared_rows(s),
{
    lemma_kept_rows_len(s);
    lemma_kept_rows_not_full(s);
    let n = (s.len() - kept_rows(s).len()) as nat;
    let e = empty_rows(n);
    let c = cleared_rows(s);
    assert forall|i: int| 0 <= i < c.len() implies !is_full_row(#[trigger] c[i]) by {
        if i < n {
            assert(c[i] == empty_row());
            assert(!(empty_row()[0] is Some));
        } else {
            assert(c[i] == kept_rows(s)[i - n]);
        }
    }
    lemma_kept_rows_none_full(c);
    assert(empty_rows(0) + c =~= c);
}

/// Some cell of the row, in one of its `COLS` columns, is empty.
pub open spec fn has_hole(r: Row) -> bool {
    exists|x: int| 0 <= x < COLS && #[trigger] r[x] is None
}

/// A row with an empty cell in any of its `COLS` columns, the last one
/// included, survives the clearing of full rows; and every row that
/// survives has an empty cell.
pub proof fn lemma_rows_with_holes_stay(s: Seq<Row>)
    ensures
        forall|i: int, x: int|
            0 <= i < s.len() && 0 <= x < COLS && (#[trigger] s[i][x]) is None ==> kept_rows(s).contains(s[i]),
        forall|j: int| 0 <= j < kept_rows(s).len() ==> has_hole(#[trigger] kept_rows(s)[j]),
    decreases s.len(),
{
    lemma_kept_rows_not_full(s);
    if s.len() > 0 {
        lemma_rows_with_holes_stay(s.drop_first());
        let t = kept_rows(s.drop_first());
        assert forall|i: int, x: int|
            0 <= i < s.len() && 0 <= x < COLS && (#[trigger] s[i][x]) is None implies kept_rows(s).contains(s[i]) by {
            if i == 0 {
                assert(!is_full_row(s[0]));
                assert(kept_rows(s) == seq![s[0]] + t);
                assert(kept_rows(s)[0] == s[0]);
            } else {
                assert(s.drop_first()[i - 1] == s[i]);
                assert(s.drop_first()[i - 1][x] is None);
                assert(t.contains(s[i]));
                let j = choose|j: int| 0 <= j < t.len() && t[j] == s[i];
                if is_full_row(s[0]) {
                    assert(kept_rows(s) == t);
                } else {
                    assert(kept_rows(s) == seq![s[0]] + t);
                    assert(kept_rows(s)[j + 1] == s[i]);
                }
            }
        }
    }
    assert forall|j: int| 0 <= j < kept_rows(s).len() implies has_hole(#[trigger] kept_rows(s)[j]) by {
        let r = kept_rows(s)[j];
        assert(!is_full_row(r));
        let x = choose|x: int| 0 <= x < COLS && !(#[trigger] r[x] is Some);
        assert(r[x] is None);
    }
}

/// The cells of piece `p` after `rotation` turns include `c`.
pub open spec fn in_piece(p: PieceType, rotation: int, c: (int, int)) -> bool {
    exists|k: int| 0 <= k < 4 && #[trigger] shape_cell(p, rotation, k) == c
}

/// Some cell of piece `p` in its first orientation is not a cell of piece
/// `q` in its first orientation.
pub open spec fn has_cell_outside(p: PieceType, q: PieceType) -> bool {
    exists|k: int| 0 <= k < 4 && !in_piece(q, 0, #[trigger] shape_cell(p, 0, k))
}

/// `c` reflected left to right within the three columns of a 3-wide piece.
pub open spec fn mirrored(c: (int, int)) -> (int, int) {
    (2 - c.0, c.1)
}

/// The pieces in their first orientation: J and L are mirror images of each
/// other, and so are S and Z; T is its own mirror image.
pub proof fn lemma_piece_mirrors()
    ensures
        forall|c: (int, int)| in_piece(PieceType::L, 0, c) <==> in_piece(PieceType::J, 0, mirrored(c)),
        forall|c: (int, int)| in_piece(PieceType::S, 0, c) <==> in_piece(PieceType::Z, 0, mirrored(c)),
        forall|c: (int, int)| in_piece(PieceType::T, 0, c) <==> in_piece(PieceType::T, 0, mirrored(c)),
{
    assert forall|c: (int, int)| in_piece(PieceType::L, 0, c) <==> in_piece(PieceType::J, 0, mirrored(c)) by {
        lemma_in_first_orientation(PieceType::L, c);
        lemma_in_first_orientation(PieceType::J, mirrored(c));
    }
    assert forall|c: (int, int)| in_piece(PieceType::S, 0, c) <==> in_piece(PieceType::Z, 0, mirrored(c)) by {
        lemma_in_first_orientation(PieceType::S, c);
        lemma_in_first_orientation(PieceType::Z, mirrored(c));
    }
    assert forall|c: (int, int)| in_piece(PieceType::T, 0, c) <==> in_piece(PieceType::T, 0, mirrored(c)) by {
        lemma_in_first_orientation(PieceType::T, c);
        lemma_in_first_orientation(PieceType::T, mirrored(c));
    }
}

/// No two kinds of piece have the same cells in their first orientation.
pub proof fn lemma_piece_kinds_differ(p: PieceType, q: PieceType)
    requires
        p != q,
    ensures
        has_cell_outside(p, q),
{
    lemma_in_first_orientation(q, shape_cell(p, 0, 0));
    lemma_in_first_orientation(q, shape_cell(p, 0, 1));
    lemma_in_first_orientation(q, shape_cell(p, 0, 2));
    lemma_in_first_orientation(q, shape_cell(p, 0, 3));
    match p {
        PieceType::I => {},
        PieceType::O => {},
        PieceType::T => {},
        PieceType::S => {},
        PieceType::Z => {},
        PieceType::J => {},
        PieceType::L => {},
    }
    assert(!in_piece(q, 0, shape_cell(p, 0, 0)) || !in_piece(q, 0, shape_cell(p, 0, 1)) || !in_piece(
        q,
        0,
        shape_cell(p, 0, 2),
    ) || !in_piece(q, 0, shape_cell(p, 0, 3)));
}

proof fn lemma_in_first_orientation(p: PieceType, c: (int, int))
    ensures
        in_piece(p, 0, c) <==> (c == base_cells(p)[0] || c == base_cells(p)[1] || c == base_cells(p)[2] || c
            == base_cells(p)[3]),
{
    if c == base_cells(p)[0] {
        assert(shape_cell(p, 0, 0) == c);
    } else if c == base_cells(p)[1] {
        assert(shape_cell(p, 0, 1) == c);
    } else if c == base_cells(p)[2] {
        assert(shape_cell(p, 0, 2) == c);
    } else if c == base_cells(p)[3] {
        assert(shape_cell(p, 0, 3) == c);
    }
}

} // verus!
