//! The colour-block puzzle: 2x2 blocks of two colours fall into a 16x10
//! field; same-coloured 2x2 squares are marked, and a timeline sweeping from
//! left to right clears the marked cells and scores the squares.

use vstd::prelude::*;
use crate::theme::BlockColor;
use crate::rng::gen_range_usize;
use crate::leaderboard::{add_ranked, qualifies, qualifies_spec, ranked_with, ScoreEntry};

verus! {

/// The width of the field.
pub const COLS: usize = 16;
/// The height of the field.
pub const ROWS: usize = 10;
/// Points for each 2x2 square cleared.
pub const SCORE_PER_SQUARE: u32 = 50;
/// Squares a sweep must clear for the combo to grow.
pub const COMBO_MIN_SQUARES: u32 = 4;
/// Chance, in percent, that a new block holds a chain cell.
pub const CHAIN_PROBABILITY: usize = 12;

/// The colours of a block, `colors[row][col]`.
pub type Colors = [[BlockColor; 2]; 2];
/// Which cells of a block are chain cells.
pub type Chains = [[bool; 2]; 2];

/// The colour a draw from `0..2` gives: the first colour for 0, the second
/// otherwise.
pub open spec fn roll_color(r: usize) -> BlockColor {
    if r == 0 {
        BlockColor::ColorA
    } else {
        BlockColor::ColorB
    }
}

/// The colours `c` of a block are those of the four draws `rolls` from
/// `0..2`, row after row.
pub open spec fn colors_from_rolls(c: Colors, rolls: [usize; 4]) -> bool {
    &&& forall|k: int| 0 <= k < 4 ==> #[trigger] rolls[k] < 2
    &&& forall|i: int, j: int| 0 <= i < 2 && 0 <= j < 2 ==> #[trigger] c[i][j] == roll_color(rolls[2 * i + j])
}

/// The colour for the draw `r`.
pub fn color_for_roll(r: usize) -> (c: BlockColor)
    ensures
        c == roll_color(r),
{
    if r == 0 {
        BlockColor::ColorA
    } else {
        BlockColor::ColorB
    }
}

/// The colours of a block for four draws, row after row.
pub fn block_for_rolls(rolls: [usize; 4]) -> (c: Colors)
    ensures
        forall|i: int, j: int| 0 <= i < 2 && 0 <= j < 2 ==> #[trigger] c[i][j] == roll_color(rolls[2 * i + j]),
{
    let c = [[color_for_roll(rolls[0]), color_for_roll(rolls[1])], [color_for_roll(rolls[2]), color_for_roll(rolls[3])]];
    assert forall|i: int, j: int| 0 <= i < 2 && 0 <= j < 2 implies #[trigger] c[i][j] == roll_color(rolls[2 * i + j]) by {
        if i == 0 && j == 0 {
        } else if i == 0 && j == 1 {
        } else if i == 1 && j == 0 {
        } else {
        }
    }
    c
}

/// A uniformly drawn colour: the colour for one draw from `0..2`.
pub fn random_color() -> (c: BlockColor)
    ensures
        exists|r: usize| r < 2 && c == roll_color(r),
{
    let r = gen_range_usize(0, 2);
    color_for_roll(r)
}

/// A block of four random colours: the colours for four draws from `0..2`.
pub fn random_2x2() -> (c: Colors)
    ensures
        exists|rolls: [usize; 4]| #[trigger] colors_from_rolls(c, rolls),
{
    let rolls = [gen_range_usize(0, 2), gen_range_usize(0, 2), gen_range_usize(0, 2), gen_range_usize(0, 2)];
    let c = block_for_rolls(rolls);
    assert(colors_from_rolls(c, rolls));
    c
}

/// The chain cells of a block for the draws made: when `roll` is below
/// `CHAIN_PROBABILITY` the cell at `(row, col)` is a chain cell, otherwise
/// none is.
pub fn chains_for(roll: usize, row: usize, col: usize) -> (c: Chains)
    requires
        row < 2,
        col < 2,
    ensures
        forall|i: int, j: int|
            0 <= i < 2 && 0 <= j < 2 ==> #[trigger] c[i][j] == (roll < CHAIN_PROBABILITY && i == row && j == col),
{
    let mut chains = [[false; 2]; 2];
    if roll < CHAIN_PROBABILITY {
        chains[row][col] = true;
    }
    chains
}

/// At most one cell of a block is a chain cell.
pub open spec fn at_most_one_chain(c: Chains) -> bool {
    forall|i: int, j: int, k: int, l: int|
        0 <= i < 2 && 0 <= j < 2 && 0 <= k < 2 && 0 <= l < 2 && (#[trigger] c[i][j]) && (#[trigger] c[k][l]) ==> i == k && j
            == l
}

/// A random block; with probability `CHAIN_PROBABILITY` percent one random
/// cell of it is a chain cell, otherwise none is.
pub fn random_block_with_chain() -> (r: (Colors, Chains))
    ensures
        exists|rolls: [usize; 4]| #[trigger] colors_from_rolls(r.0, rolls),
        at_most_one_chain(r.1),
{
    let colors = random_2x2();
    let roll = gen_range_usize(0, 100);
    let chains = if roll < CHAIN_PROBABILITY {
        let row = gen_range_usize(0, 2);
        let col = gen_range_usize(0, 2);
        chains_for(roll, row, col)
    } else {
        chains_for(roll, 0, 0)
    };
    proof {
        let rolls = choose|rolls: [usize; 4]| colors_from_rolls(colors, rolls);
        assert(colors_from_rolls((colors, chains).0, rolls));
    }
    (colors, chains)
}

/// The falling 2x2 block: its top-left cell is at column `x`, row `y`.
#[derive(Clone, Copy, Debug)]
pub struct ActiveBlock {
    pub x: i32,
    pub y: i32,
    pub colors: Colors,
    pub is_chain: Chains,
}

/// `n` is block `b` turned a quarter turn clockwise in place.
pub open spec fn is_cw_turn(b: ActiveBlock, n: ActiveBlock) -> bool {
    &&& n.x == b.x
    &&& n.y == b.y
    &&& n.colors[0][0] == b.colors[1][0]
    &&& n.colors[0][1] == b.colors[0][0]
    &&& n.colors[1][0] == b.colors[1][1]
    &&& n.colors[1][1] == b.colors[0][1]
    &&& n.is_chain[0][0] == b.is_chain[1][0]
    &&& n.is_chain[0][1] == b.is_chain[0][0]
    &&& n.is_chain[1][0] == b.is_chain[1][1]
    &&& n.is_chain[1][1] == b.is_chain[0][1]
}

/// `n` is block `b` turned a quarter turn counter-clockwise in place.
pub open spec fn is_ccw_turn(b: ActiveBlock, n: ActiveBlock) -> bool {
    is_cw_turn(n, b)
}

/// Two blocks at the same place with the same cells.
pub open spec fn same_block(a: ActiveBlock, b: ActiveBlock) -> bool {
    &&& a.x == b.x
    &&& a.y == b.y
    &&& forall|i: int, j: int| 0 <= i < 2 && 0 <= j < 2 ==> #[trigger] a.colors[i][j] == b.colors[i][j] && a.is_chain[i][j] == b.is_chain[i][j]
}

impl ActiveBlock {
    /// A block entering above the middle of the field.
    pub fn new(colors: Colors, is_chain: Chains) -> (b: ActiveBlock)
        ensures
            b.x == 7,
            b.y == -2,
            b.colors == colors,
            b.is_chain == is_chain,
    {
        ActiveBlock { x: COLS as i32 / 2 - 1, y: -2, colors, is_chain }
    }

    /// Turns the block a quarter turn clockwise.
    pub fn rotate_cw(&mut self)
        ensures
            is_cw_turn(*old(self), *final(self)),
    {
        let tmp = self.colors[0][0];
        self.colors[0][0] = self.colors[1][0];
        self.colors[1][0] = self.colors[1][1];
        self.colors[1][1] = self.colors[0][1];
        self.colors[0][1] = tmp;

        let tmp = self.is_chain[0][0];
        self.is_chain[0][0] = self.is_chain[1][0];
        self.is_chain[1][0] = self.is_chain[1][1];
        self.is_chain[1][1] = self.is_chain[0][1];
        self.is_chain[0][1] = tmp;
    }

    /// Turns the block a quarter turn counter-clockwise.
    pub fn rotate_ccw(&mut self)
        ensures
            is_ccw_turn(*old(self), *final(self)),
    {
        let tmp = self.colors[0][0];
        self.colors[0][0] = self.colors[0][1];
        self.colors[0][1] = self.colors[1][1];
        self.colors[1][1] = self.colors[1][0];
        self.colors[1][0] = tmp;

        let tmp = self.is_chain[0][0];
        self.is_chain[0][0] = self.is_chain[0][1];
        self.is_chain[0][1] = self.is_chain[1][1];
        self.is_chain[1][1] = self.is_chain[1][0];
        self.is_chain[1][0] = tmp;
    }
}

/// A counter-clockwise turn undoes a clockwise turn, and four clockwise
/// turns give back the block.
pub proof fn lemma_rotations(b: ActiveBlock, t1: ActiveBlock, t2: ActiveBlock, t3: ActiveBlock, t4: ActiveBlock, back: ActiveBlock)
    ensures
        is_cw_turn(b, t1) && is_ccw_turn(t1, back) ==> same_block(b, back),
        is_cw_turn(b, t1) && is_cw_turn(t1, t2) && is_cw_turn(t2, t3) && is_cw_turn(t3, t4) ==> same_block(b, t4),
{
    if is_cw_turn(b, t1) && is_ccw_turn(t1, back) {
        assert forall|i: int, j: int| 0 <= i < 2 && 0 <= j < 2 implies #[trigger] b.colors[i][j] == back.colors[i][j] && b.is_chain[i][j] == back.is_chain[i][j] by {
            if i == 0 && j == 0 {} else if i == 0 {} else if j == 0 {} else {}
        }
    }
    if is_cw_turn(b, t1) && is_cw_turn(t1, t2) && is_cw_turn(t2, t3) && is_cw_turn(t3, t4) {
        assert forall|i: int, j: int| 0 <= i < 2 && 0 <= j < 2 implies #[trigger] b.colors[i][j] == t4.colors[i][j] && b.is_chain[i][j] == t4.is_chain[i][j] by {
            if i == 0 && j == 0 {} else if i == 0 {} else if j == 0 {} else {}
        }
    }
}


/// Rows of cells, `grid[y][x]`.
pub type Field = [[Option<BlockColor>; COLS]; ROWS];
/// Cells marked for clearing by the timeline, `marked[y][x]`.
pub type Marks = [[bool; COLS]; ROWS];

/// A block at `(gx, gy)` would leave the field through a side or the floor,
/// or overlap a settled block; cells above the top edge are free.
pub open spec fn blocked(g: Field, gx: int, gy: int) -> bool {
    gx < 0 || gx >= COLS || gy >= ROWS || (gy >= 0 && g[gy][gx] is Some)
}

/// A 2x2 block with its top-left cell at `(x, y)` would be blocked.
pub open spec fn collides_spec(g: Field, x: int, y: int) -> bool {
    blocked(g, x, y) || blocked(g, x + 1, y) || blocked(g, x, y + 1) || blocked(g, x + 1, y + 1)
}

/// The four cells with top-left corner `(x, y)` lie on the field and hold
/// one colour.
pub open spec fn square_at(g: Field, x: int, y: int) -> bool {
    &&& 0 <= x && x + 1 < COLS
    &&& 0 <= y && y + 1 < ROWS
    &&& g[y][x] is Some
    &&& g[y][x + 1] == g[y][x]
    &&& g[y + 1][x] == g[y][x]
    &&& g[y + 1][x + 1] == g[y][x]
}

/// The cell `(x, y)` belongs to some one-colour 2x2 square.
pub open spec fn in_square(g: Field, x: int, y: int) -> bool {
    square_at(g, x, y) || square_at(g, x - 1, y) || square_at(g, x, y - 1) || square_at(g, x - 1, y - 1)
}

/// Column `x`, top first.
pub open spec fn column(g: Field, x: int) -> Seq<Option<BlockColor>> {
    Seq::new(ROWS as nat, |y: int| g[y][x])
}

/// The blocks of a column in order, without the empty cells.
pub open spec fn blocks(s: Seq<Option<BlockColor>>) -> Seq<Option<BlockColor>>
    decreases s.len(),
{
    if s.len() == 0 {
        s
    } else if s[0] is Some {
        seq![s[0]] + blocks(s.drop_first())
    } else {
        blocks(s.drop_first())
    }
}

/// A column after its blocks sink to the bottom in the same order.
pub open spec fn compacted(s: Seq<Option<BlockColor>>) -> Seq<Option<BlockColor>> {
    Seq::new((s.len() - blocks(s).len()) as nat, |i: int| None) + blocks(s)
}

/// The number of empty cells below row `y` of a column.
pub open spec fn gaps_below(s: Seq<Option<BlockColor>>, y: int) -> nat {
    ((s.len() - 1 - y) - blocks(s.skip(y + 1)).len()) as nat
}

proof fn lemma_blocks_len(s: Seq<Option<BlockColor>>)
    ensures
        blocks(s).len() <= s.len(),
        forall|i: int| 0 <= i < blocks(s).len() ==> (#[trigger] blocks(s)[i]) is Some,
    decreases s.len(),
{
    if s.len() > 0 {
        lemma_blocks_len(s.drop_first());
    }
}

/// The playing field, the falling block, the next block and the score.
pub struct Playfield {
    pub grid: Field,
    pub marked: Marks,
    pub active: ActiveBlock,
    pub next_block: Colors,
    pub next_chain: Chains,
    pub score: u32,
    pub combo: u32,
    pub squares_cleared_this_sweep: u32,
    pub game_over: bool,
    pub high_scores: Vec<ScoreEntry>,
    pub new_score_rank: Option<usize>,
}

impl Playfield {
    /// An empty field with a random falling block and a random next block.
    pub fn new() -> (p: Playfield)
        ensures
            forall|x: int, y: int| 0 <= x < COLS && 0 <= y < ROWS ==> #[trigger] p.grid[y][x] is None && !p.marked[y][x],
            p.active.x == 7,
            p.active.y == -2,
            p.score == 0,
            p.combo == 0,
            p.squares_cleared_this_sweep == 0,
            !p.game_over,
            p.high_scores@.len() == 0,
            p.new_score_rank is None,
            at_most_one_chain(p.active.is_chain),
            at_most_one_chain(p.next_chain),
    {
        let (init_colors, init_chain) = random_block_with_chain();
        let (next_colors, next_chain) = random_block_with_chain();
        Playfield {
            grid: [[None; COLS]; ROWS],
            marked: [[false; COLS]; ROWS],
            active: ActiveBlock::new(init_colors, init_chain),
            next_block: next_colors,
            next_chain,
            score: 0,
            combo: 0,
            squares_cleared_this_sweep: 0,
            game_over: false,
            high_scores: Vec::new(),
            new_score_rank: None,
        }
    }

    /// Whether a 2x2 block with its top-left cell at `(x, y)` would be blocked.
    pub fn collides(&self, x: i32, y: i32) -> (r: bool)
        requires
            x < i32::MAX,
            y < i32::MAX,
        ensures
            r == collides_spec(self.grid, x as int, y as int),
    {
        let mut r: i32 = 0;
        while r < 2
            invariant
                0 <= r <= 2,
                x < i32::MAX,
                y < i32::MAX,
                forall|gx: int, gy: int| x <= gx < x + 2 && y <= gy < y + r ==> !#[trigger] blocked(self.grid, gx, gy),
            decreases 2 - r,
        {
            let mut c: i32 = 0;
            while c < 2
                invariant
                    0 <= r < 2,
                    0 <= c <= 2,
                    x < i32::MAX,
                    y < i32::MAX,
                    forall|gx: int, gy: int| x <= gx < x + 2 && y <= gy < y + r ==> !#[trigger] blocked(self.grid, gx, gy),
                    forall|gx: int| x <= gx < x + c ==> !#[trigger] blocked(self.grid, gx, y + r),
                decreases 2 - c,
            {
                let gx = x + c;
                let gy = y + r;
                if gx < 0 || gx >= COLS as i32 || gy >= ROWS as i32 {
                    assert(blocked(self.grid, x + c, y + r));
                    return true;
                }
                if gy >= 0 && self.grid[gy as usize][gx as usize].is_some() {
                    assert(blocked(self.grid, x + c, y + r));
                    return true;
                }
                c += 1;
            }
            r += 1;
        }
        assert(!blocked(self.grid, x as int, y as int));
        assert(!blocked(self.grid, x + 1, y as int));
        assert(!blocked(self.grid, x as int, y + 1));
        assert(!blocked(self.grid, x + 1, y + 1));
        false
    }

    /// Moves the falling block by `(dx, dy)` unless it would be blocked there.
    /// Returns whether it moved.
    pub fn move_active(&mut self, dx: i32, dy: i32) -> (moved: bool)
        requires
            i32::MIN <= old(self).active.x + dx < i32::MAX,
            i32::MIN <= old(self).active.y + dy < i32::MAX,
        ensures
            moved == !collides_spec(old(self).grid, old(self).active.x + dx, old(self).active.y + dy),
            moved ==> final(self).active.x == old(self).active.x + dx && final(self).active.y == old(self).active.y + dy,
            !moved ==> final(self).active.x == old(self).active.x && final(self).active.y == old(self).active.y,
            final(self).active.colors == old(self).active.colors,
            final(self).active.is_chain == old(self).active.is_chain,
            *final(self) == (Playfield { active: final(self).active, ..*old(self) }),
    {
        let nx = self.active.x + dx;
        let ny = self.active.y + dy;
        if !self.collides(nx, ny) {
            self.active.x = nx;
            self.active.y = ny;
            return true;
        }
        false
    }

    /// Turns the falling block a quarter turn clockwise, and back again when
    /// it would be blocked where it is. Returns whether it stayed turned.
    pub fn rotate_active(&mut self) -> (turned: bool)
        requires
            old(self).active.x < i32::MAX,
            old(self).active.y < i32::MAX,
        ensures
            turned == !collides_spec(old(self).grid, old(self).active.x as int, old(self).active.y as int),
            turned ==> is_cw_turn(old(self).active, final(self).active),
            !turned ==> same_block(old(self).active, final(self).active),
            *final(self) == (Playfield { active: final(self).active, ..*old(self) }),
    {
        let ghost a0 = self.active;
        self.active.rotate_cw();
        if self.collides(self.active.x, self.active.y) {
            let ghost a1 = self.active;
            self.active.rotate_ccw();
            proof {
                lemma_rotations(a0, a1, a1, a1, a1, self.active);
            }
            return false;
        }
        true
    }

    /// Lets the falling block drop straight down as far as it goes.
    pub fn drop_active(&mut self)
        requires
            old(self).active.x < i32::MAX - 1,
            old(self).active.y < i32::MAX - 2,
        ensures
            final(self).active.x == old(self).active.x,
            old(self).active.y <= final(self).active.y,
            final(self).active.colors == old(self).active.colors,
            final(self).active.is_chain == old(self).active.is_chain,
            forall|t: int|
                old(self).active.y < t <= final(self).active.y ==> !#[trigger] collides_spec(
                    old(self).grid,
                    old(self).active.x as int,
                    t,
                ),
            collides_spec(old(self).grid, old(self).active.x as int, final(self).active.y + 1),
            *final(self) == (Playfield { active: final(self).active, ..*old(self) }),
    {
        loop
            invariant
                *self == (Playfield { active: self.active, ..*old(self) }),
                self.active.x == old(self).active.x,
                self.active.colors == old(self).active.colors,
                self.active.is_chain == old(self).active.is_chain,
                old(self).active.x < i32::MAX - 1,
                old(self).active.y < i32::MAX - 2,
                old(self).active.y <= self.active.y,
                self.active.y <= ROWS || self.active.y == old(self).active.y,
                forall|t: int|
                    old(self).active.y < t <= self.active.y ==> !#[trigger] collides_spec(
                        old(self).grid,
                        old(self).active.x as int,
                        t,
                    ),
            ensures
                *self == (Playfield { active: self.active, ..*old(self) }),
                self.active.x == old(self).active.x,
                self.active.colors == old(self).active.colors,
                self.active.is_chain == old(self).active.is_chain,
                old(self).active.y <= self.active.y,
                forall|t: int|
                    old(self).active.y < t <= self.active.y ==> !#[trigger] collides_spec(
                        old(self).grid,
                        old(self).active.x as int,
                        t,
                    ),
                collides_spec(old(self).grid, old(self).active.x as int, self.active.y + 1),
            decreases ROWS + 1 - self.active.y,
        {
            if !self.move_active(0, 1) {
                break;
            }
        }
    }

    /// Marks every cell of every one-colour 2x2 square. Returns whether some
    /// square's top-left cell was not marked before.
    pub fn update_matches(&mut self) -> (new_match: bool)
        ensures
            forall|x: int, y: int|
                0 <= x < COLS && 0 <= y < ROWS ==> #[trigger] final(self).marked[y][x] == (old(self).marked[y][x] || in_square(
                    old(self).grid,
                    x,
                    y,
                )),
            new_match == exists|x: int, y: int| #[trigger] square_at(old(self).grid, x, y) && !old(self).marked[y][x],
            final(self).grid == old(self).grid,
            final(self).active == old(self).active,
            final(self).score == old(self).score,
            final(self).combo == old(self).combo,
            final(self).squares_cleared_this_sweep == old(self).squares_cleared_this_sweep,
            final(self).game_over == old(self).game_over,
            final(self).next_block == old(self).next_block,
            final(self).next_chain == old(self).next_chain,
            final(self).high_scores == old(self).high_scores,
            final(self).new_score_rank == old(self).new_score_rank,
    {
        let mut new_match = false;
        let mut new_marked = [[false; COLS]; ROWS];
        for y in 0..ROWS - 1
            invariant
                self.grid == old(self).grid,
                self.marked == old(self).marked,
                forall|a: int, b: int|
                    0 <= a < COLS && 0 <= b < ROWS ==> #[trigger] new_marked[b][a] == (exists|sx: int, sy: int|
                        0 <= sy < y && a - 1 <= sx <= a && b - 1 <= sy <= b && #[trigger] square_at(self.grid, sx, sy)),
                new_match == exists|sx: int, sy: int|
                    0 <= sy < y && #[trigger] square_at(self.grid, sx, sy) && !self.marked[sy][sx],
        {
            for x in 0..COLS - 1
                invariant
                    y < ROWS - 1,
                    self.grid == old(self).grid,
                    self.marked == old(self).marked,
                    forall|a: int, b: int|
                        0 <= a < COLS && 0 <= b < ROWS ==> #[trigger] new_marked[b][a] == (exists|sx: int, sy: int|
                            (0 <= sy < y || (sy == y && sx < x)) && a - 1 <= sx <= a && b - 1 <= sy <= b
                                && #[trigger] square_at(self.grid, sx, sy)),
                    new_match == exists|sx: int, sy: int|
                        (0 <= sy < y || (sy == y && sx < x)) && #[trigger] square_at(self.grid, sx, sy) && !self.marked[sy][sx],
            {
                let ghost before = new_marked;
                let ghost before_match = new_match;
                if let Some(c1) = self.grid[y][x] {
                    if self.grid[y][x + 1] == Some(c1) && self.grid[y + 1][x] == Some(c1) && self.grid[y + 1][x + 1]
                        == Some(c1) {
                        new_marked[y][x] = true;
                        new_marked[y][x + 1] = true;
                        new_marked[y + 1][x] = true;
                        new_marked[y + 1][x + 1] = true;
                        if !self.marked[y][x] {
                            new_match = true;
                        }
                    }
                }
                proof {
                    let sq = square_at(self.grid, x as int, y as int);
                    assert forall|a: int, b: int| 0 <= a < COLS && 0 <= b < ROWS implies #[trigger] new_marked[b][a] == (exists|sx: int, sy: int|
                        (0 <= sy < y || (sy == y && sx < x + 1)) && a - 1 <= sx <= a && b - 1 <= sy <= b
                            && #[trigger] square_at(self.grid, sx, sy)) by {
                        let in_new = x <= a <= x + 1 && y <= b <= y + 1;
                        if sq && in_new {
                            assert((0 <= y < y || (y == y && x < x + 1)) && a - 1 <= x <= a && b - 1 <= y <= b && square_at(self.grid, x as int, y as int));
                        } else {
                            assert(new_marked[b][a] == before[b][a]);
                            if exists|sx: int, sy: int|
                                (0 <= sy < y || (sy == y && sx < x + 1)) && a - 1 <= sx <= a && b - 1 <= sy <= b
                                    && #[trigger] square_at(self.grid, sx, sy) {
                                let (sx, sy) = choose|sx: int, sy: int|
                                    (0 <= sy < y || (sy == y && sx < x + 1)) && a - 1 <= sx <= a && b - 1 <= sy <= b
                                        && #[trigger] square_at(self.grid, sx, sy);
                                assert(!(sx == x && sy == y));
                            }
                        }
                    }
                    if new_match && !before_match {
                        assert(square_at(self.grid, x as int, y as int) && !self.marked[y as int][x as int]);
                    }
                    if !new_match {
                        assert forall|sx: int, sy: int|
                            (0 <= sy < y || (sy == y && sx < x + 1)) implies !(#[trigger] square_at(self.grid, sx, sy) && !self.marked[sy][sx]) by {
                            if sx == x && sy == y {
                            } else {
                                assert(!((0 <= sy < y || (sy == y && sx < x)) && square_at(self.grid, sx, sy) && !self.marked[sy][sx]));
                            }
                        }
                    }
                }
            }
        }
        if new_match {
            // audio and glow are the caller's concern
        }
        let ghost g = self.grid;
        let ghost m0 = self.marked;
        for y in 0..ROWS
            invariant
                self.grid == g,
                g == old(self).grid,
                m0 == old(self).marked,
                self.active == old(self).active,
                self.score == old(self).score,
                self.combo == old(self).combo,
                self.squares_cleared_this_sweep == old(self).squares_cleared_this_sweep,
                self.game_over == old(self).game_over,
                self.next_block == old(self).next_block,
                self.next_chain == old(self).next_chain,
                self.high_scores == old(self).high_scores,
                self.new_score_rank == old(self).new_score_rank,
                forall|a: int, b: int|
                    0 <= a < COLS && 0 <= b < ROWS ==> #[trigger] new_marked[b][a] == (exists|sx: int, sy: int|
                        0 <= sy < ROWS - 1 && a - 1 <= sx <= a && b - 1 <= sy <= b && #[trigger] square_at(g, sx, sy)),
                forall|a: int, b: int|
                    0 <= a < COLS && 0 <= b < ROWS ==> #[trigger] self.marked[b][a] == if b < y {
                        m0[b][a] || new_marked[b][a]
                    } else {
                        m0[b][a]
                    },
        {
            for x in 0..COLS
                invariant
                    y < ROWS,
                    self.grid == g,
                    g == old(self).grid,
                    m0 == old(self).marked,
                    self.active == old(self).active,
                    self.score == old(self).score,
                    self.combo == old(self).combo,
                    self.squares_cleared_this_sweep == old(self).squares_cleared_this_sweep,
                    self.game_over == old(self).game_over,
                    self.next_block == old(self).next_block,
                    self.next_chain == old(self).next_chain,
                    self.high_scores == old(self).high_scores,
                    self.new_score_rank == old(self).new_score_rank,
                    forall|a: int, b: int|
                        0 <= a < COLS && 0 <= b < ROWS ==> #[trigger] self.marked[b][a] == if b < y || (b == y && a < x) {
                            m0[b][a] || new_marked[b][a]
                        } else {
                            m0[b][a]
                        },
            {
                if new_marked[y][x] {
                    self.marked[y][x] = true;
                }
            }
        }
        proof {
            assert forall|a: int, b: int| 0 <= a < COLS && 0 <= b < ROWS implies (exists|sx: int, sy: int|
                0 <= sy < ROWS - 1 && a - 1 <= sx <= a && b - 1 <= sy <= b && #[trigger] square_at(g, sx, sy)) == in_square(g, a, b) by {
                if in_square(g, a, b) {
                    if square_at(g, a, b) {
                        assert(0 <= b < ROWS - 1 && square_at(g, a, b));
                    } else if square_at(g, a - 1, b) {
                        assert(0 <= b < ROWS - 1 && square_at(g, a - 1, b));
                    } else if square_at(g, a, b - 1) {
                        assert(0 <= b - 1 < ROWS - 1 && square_at(g, a, b - 1));
                    } else {
                        assert(0 <= b - 1 < ROWS - 1 && square_at(g, a - 1, b - 1));
                    }
                }
            }
            assert forall|sx: int, sy: int| #[trigger] square_at(g, sx, sy) implies 0 <= sy < ROWS - 1 by {}
        }
        new_match
    }
}


proof fn lemma_blocks_step(s: Seq<Option<BlockColor>>, y: int)
    requires
        0 <= y < s.len(),
    ensures
        blocks(s.skip(y)) == if s[y] is Some {
            seq![s[y]] + blocks(s.skip(y + 1))
        } else {
            blocks(s.skip(y + 1))
        },
{
    let t = s.skip(y);
    assert(t.drop_first() =~= s.skip(y + 1));
    assert(t[0] == s[y]);
}

/// `d` lists, for every block of `old` that has empty cells below it, its
/// column, its row, and the row it sinks to (lower by the number of empty
/// cells below it); and nothing else.
pub open spec fn is_drop_list(old: Field, d: Seq<(usize, usize, usize)>) -> bool {
    &&& forall|i: int|
        0 <= i < d.len() ==> {
            let (a, from, to) = #[trigger] d[i];
            &&& a < COLS
            &&& from < to < ROWS
            &&& old[from as int][a as int] is Some
            &&& to == from + gaps_below(column(old, a as int), from as int)
        }
    &&& forall|a: int, from: int|
        0 <= a < COLS && 0 <= from < ROWS && old[from][a] is Some && #[trigger] gaps_below(column(old, a), from) > 0
            ==> exists|i: int|
            0 <= i < d.len() && #[trigger] d[i] == (a as usize, from as usize, (from + gaps_below(column(old, a), from)) as usize)
}

impl Playfield {
    /// Lets every block sink to the bottom of its column, keeping the order
    /// of the blocks in each column. The marks stay where they are. Returns
    /// the blocks that moved, with the rows they moved from and to.
    pub fn apply_gravity(&mut self) -> (drops: Vec<(usize, usize, usize)>)
        ensures
            forall|x: int| 0 <= x < COLS ==> #[trigger] column(final(self).grid, x) == compacted(column(old(self).grid, x)),
            is_drop_list(old(self).grid, drops@),
            final(self).marked == old(self).marked,
            final(self).active == old(self).active,
            final(self).score == old(self).score,
            final(self).combo == old(self).combo,
            final(self).squares_cleared_this_sweep == old(self).squares_cleared_this_sweep,
            final(self).game_over == old(self).game_over,
            final(self).next_block == old(self).next_block,
            final(self).next_chain == old(self).next_chain,
            final(self).high_scores == old(self).high_scores,
            final(self).new_score_rank == old(self).new_score_rank,
    {
        let ghost g0 = self.grid;
        let mut drops: Vec<(usize, usize, usize)> = Vec::new();
        for x in 0..COLS
            invariant
                g0 == old(self).grid,
                self.marked == old(self).marked,
                self.active == old(self).active,
                self.score == old(self).score,
                self.combo == old(self).combo,
                self.squares_cleared_this_sweep == old(self).squares_cleared_this_sweep,
                self.game_over == old(self).game_over,
                self.next_block == old(self).next_block,
                self.next_chain == old(self).next_chain,
                self.high_scores == old(self).high_scores,
                self.new_score_rank == old(self).new_score_rank,
                forall|a: int| 0 <= a < x ==> #[trigger] column(self.grid, a) == compacted(column(g0, a)),
                forall|a: int, b: int| x <= a < COLS && 0 <= b < ROWS ==> #[trigger] self.grid[b][a] == g0[b][a],
                forall|i: int|
                    0 <= i < drops@.len() ==> {
                        let (a, from, to) = #[trigger] drops@[i];
                        &&& a < x
                        &&& from < to < ROWS
                        &&& g0[from as int][a as int] is Some
                        &&& to == from + gaps_below(column(g0, a as int), from as int)
                    },
                forall|a: int, from: int|
                    0 <= a < x && 0 <= from < ROWS && g0[from][a] is Some && #[trigger] gaps_below(column(g0, a), from) > 0
                        ==> exists|i: int|
                        0 <= i < drops@.len() && #[trigger] drops@[i] == (a as usize, from as usize, (from + gaps_below(
                            column(g0, a),
                            from,
                        )) as usize),
        {
            let ghost col = column(g0, x as int);
            let ghost before_drops = drops@;
            let mut write_y: usize = ROWS - 1;
            let mut num_blocks: usize = 0;
            let mut yy: usize = ROWS;
            while yy > 0
                invariant
                    x < COLS,
                    0 <= yy <= ROWS,
                    g0 == old(self).grid,
                    col == column(g0, x as int),
                    self.marked == old(self).marked,
                    self.active == old(self).active,
                    self.score == old(self).score,
                    self.combo == old(self).combo,
                    self.squares_cleared_this_sweep == old(self).squares_cleared_this_sweep,
                    self.game_over == old(self).game_over,
                    self.next_block == old(self).next_block,
                    self.next_chain == old(self).next_chain,
                    self.high_scores == old(self).high_scores,
                    self.new_score_rank == old(self).new_score_rank,
                    num_blocks == blocks(col.skip(yy as int)).len(),
                    num_blocks <= ROWS - yy,
                    write_y == if ROWS - 1 - num_blocks >= 0 { ROWS - 1 - num_blocks } else { 0 },
                    forall|a: int| 0 <= a < x ==> #[trigger] column(self.grid, a) == compacted(column(g0, a)),
                    forall|a: int, b: int| x < a < COLS && 0 <= b < ROWS ==> #[trigger] self.grid[b][a] == g0[b][a],
                    forall|r: int| 0 <= r < yy ==> #[trigger] self.grid[r][x as int] == col[r],
                    forall|r: int| yy <= r < ROWS - num_blocks ==> #[trigger] self.grid[r][x as int] is None,
                    forall|r: int|
                        ROWS - num_blocks <= r < ROWS ==> #[trigger] self.grid[r][x as int] == blocks(col.skip(yy as int))[r
                            - (ROWS - num_blocks)],
                    forall|i: int| 0 <= i < before_drops.len() ==> #[trigger] drops@[i] == before_drops[i],
                    drops@.len() >= before_drops.len(),
                    forall|i: int|
                        before_drops.len() <= i < drops@.len() ==> {
                            let (a, from, to) = #[trigger] drops@[i];
                            &&& a == x
                            &&& yy <= from < to < ROWS
                            &&& g0[from as int][a as int] is Some
                            &&& to == from + gaps_below(column(g0, a as int), from as int)
                        },
                    forall|from: int|
                        yy <= from < ROWS && g0[from][x as int] is Some && #[trigger] gaps_below(column(g0, x as int), from) > 0
                            ==> exists|i: int|
                            0 <= i < drops@.len() && #[trigger] drops@[i] == (x as usize, from as usize, (from + gaps_below(
                                column(g0, x as int),
                                from,
                            )) as usize),
                decreases yy,
            {
                let y = yy - 1;
                proof {
                    lemma_blocks_step(col, y as int);
                    lemma_blocks_len(col.skip(yy as int));
                    assert(col[y as int] == g0[y as int][x as int]);
                    assert(col.skip(y as int).len() == ROWS - y);
                }
                let ghost before = self.grid;
                let ghost before_d = drops@;
                if let Some(color) = self.grid[y][x] {
                    let drop = write_y - y;
                    self.grid[y][x] = None;
                    self.grid[write_y][x] = Some(color);
                    if drop > 0 {
                        drops.push((x, y, write_y));
                    }
                    proof {
                        assert(gaps_below(col, y as int) == drop);
                        assert(col.len() == ROWS);
                    }
                    num_blocks += 1;
                    write_y = if write_y > 0 { write_y - 1 } else { 0 };
                }
                proof {
                    assert forall|a: int| 0 <= a < x implies #[trigger] column(self.grid, a) == compacted(column(g0, a)) by {
                        assert(column(self.grid, a) =~= column(before, a));
                    }
                    assert forall|from: int|
                        y <= from < ROWS && g0[from][x as int] is Some && #[trigger] gaps_below(column(g0, x as int), from) > 0
                            implies exists|i: int|
                            0 <= i < drops@.len() && #[trigger] drops@[i] == (x as usize, from as usize, (from + gaps_below(
                                column(g0, x as int),
                                from,
                            )) as usize) by {
                        if from == y {
                            assert(drops@[drops@.len() - 1] == (x as usize, from as usize, (from + gaps_below(column(g0, x as int), from)) as usize));
                        } else {
                            let i = choose|i: int|
                                0 <= i < before_d.len() && #[trigger] before_d[i] == (x as usize, from as usize, (from + gaps_below(
                                    column(g0, x as int),
                                    from,
                                )) as usize);
                            assert(drops@[i] == before_d[i]);
                        }
                    }
                }
                yy = y;
            }
            proof {
                assert(col.skip(0) =~= col);
                assert(column(self.grid, x as int) =~= compacted(col)) by {
                    lemma_blocks_len(col);
                }
                assert forall|a: int, from: int|
                    0 <= a < x + 1 && 0 <= from < ROWS && g0[from][a] is Some && #[trigger] gaps_below(column(g0, a), from) > 0
                        implies exists|i: int|
                        0 <= i < drops@.len() && #[trigger] drops@[i] == (a as usize, from as usize, (from + gaps_below(
                            column(g0, a),
                            from,
                        )) as usize) by {
                    if a < x {
                        let i = choose|i: int|
                            0 <= i < before_drops.len() && #[trigger] before_drops[i] == (a as usize, from as usize, (from + gaps_below(
                                column(g0, a),
                                from,
                            )) as usize);
                        assert(drops@[i] == before_drops[i]);
                    }
                }
                assert forall|a: int| 0 <= a < x + 1 implies #[trigger] column(self.grid, a) == compacted(column(g0, a)) by {
                    if a < x {
                    }
                }
            }
        }
        drops
    }
}


// ---------------------------------------------------------------------------
// Chain cells: marking a connected same-coloured group.

/// The cell `p` (column, row) lies on the field.
pub open spec fn in_field(p: (int, int)) -> bool {
    0 <= p.0 < COLS && 0 <= p.1 < ROWS
}

/// `p` and `q` are horizontal or vertical neighbours.
pub open spec fn adjacent(p: (int, int), q: (int, int)) -> bool {
    ||| (q.0 == p.0 + 1 || q.0 == p.0 - 1) && q.1 == p.1
    ||| (q.1 == p.1 + 1 || q.1 == p.1 - 1) && q.0 == p.0
}

/// The cell `p` lies on the field and holds colour `t`.
pub open spec fn has_color(g: Field, t: BlockColor, p: (int, int)) -> bool {
    in_field(p) && g[p.1][p.0] == Some(t)
}

/// Every neighbour of colour `t` of a cell of `s` is in `s` too.
pub open spec fn closed_under(g: Field, t: BlockColor, s: Set<(int, int)>) -> bool {
    forall|p: (int, int), q: (int, int)| #[trigger] s.contains(p) && adjacent(p, q) && #[trigger] has_color(g, t, q) ==> s.contains(q)
}

/// `p` belongs to the group of colour-`t` cells connected to `start`: it is
/// in every set that holds `start` and is closed under colour-`t`
/// neighbours.
pub open spec fn in_group(g: Field, t: BlockColor, start: (int, int), p: (int, int)) -> bool {
    forall|s: Set<(int, int)>| #[trigger] closed_under(g, t, s) && s.contains(start) ==> s.contains(p)
}

/// The number of cells among the first `k` in row-major order that are
/// marked in `after` and not in `before`.
pub open spec fn newly_marked_before(before: Marks, after: Marks, k: int) -> nat
    decreases k,
{
    if k <= 0 {
        0
    } else {
        let x = (k - 1) % (COLS as int);
        let y = (k - 1) / (COLS as int);
        newly_marked_before(before, after, k - 1) + if after[y][x] && !before[y][x] {
            1nat
        } else {
            0nat
        }
    }
}

/// The number of cells marked in `after` and not in `before`.
pub open spec fn newly_marked(before: Marks, after: Marks) -> nat {
    newly_marked_before(before, after, (COLS * ROWS) as int)
}

/// The number of cells among the first `k` in row-major order not yet visited.
pub open spec fn unvisited_before(v: Marks, k: int) -> nat
    decreases k,
{
    if k <= 0 {
        0
    } else {
        unvisited_before(v, k - 1) + if !v[(k - 1) / (COLS as int)][(k - 1) % (COLS as int)] {
            1nat
        } else {
            0nat
        }
    }
}

proof fn lemma_row_major(k: int)
    requires
        0 <= k,
    ensures
        0 <= k % (COLS as int) < COLS,
        k / (COLS as int) >= 0,
        k == (k / (COLS as int)) * (COLS as int) + k % (COLS as int),
{
}

/// Setting one unset cell raises the count of newly set cells by one, over
/// every prefix that covers it.
proof fn lemma_newly_marked_set_one(before: Marks, m1: Marks, m2: Marks, x: int, y: int, k: int)
    requires
        0 <= x < COLS,
        0 <= y < ROWS,
        !m1[y][x],
        m2[y][x],
        forall|a: int, b: int| 0 <= a < COLS && 0 <= b < ROWS && (a != x || b != y) ==> #[trigger] m2[b][a] == m1[b][a],
        0 <= k <= COLS * ROWS,
    ensures
        newly_marked_before(before, m2, k) == newly_marked_before(before, m1, k) + if y * COLS + x < k && !before[y][x] {
            1nat
        } else {
            0nat
        },
    decreases k,
{
    if k > 0 {
        lemma_newly_marked_set_one(before, m1, m2, x, y, k - 1);
        lemma_row_major(k - 1);
        let cx = (k - 1) % (COLS as int);
        let cy = (k - 1) / (COLS as int);
        assert(cy < ROWS) by (nonlinear_arith)
            requires
                k - 1 < 160,
                k - 1 == cy * 16 + cx,
                0 <= cx < 16,
        ;
        if cx == x && cy == y {
            assert(y * COLS + x == k - 1);
        } else {
            assert(m2[cy][cx] == m1[cy][cx]);
            assert(y * COLS + x != k - 1) by (nonlinear_arith)
                requires
                    k - 1 == cy * 16 + cx,
                    0 <= cx < 16,
                    0 <= x < 16,
                    cx != x || cy != y,
            ;
        }
    }
}

/// Setting one unvisited cell lowers the count of unvisited cells.
proof fn lemma_unvisited_set_one(v1: Marks, v2: Marks, x: int, y: int, k: int)
    requires
        0 <= x < COLS,
        0 <= y < ROWS,
        !v1[y][x],
        v2[y][x],
        forall|a: int, b: int| 0 <= a < COLS && 0 <= b < ROWS && (a != x || b != y) ==> #[trigger] v2[b][a] == v1[b][a],
        0 <= k <= COLS * ROWS,
    ensures
        unvisited_before(v2, k) + (if y * COLS + x < k { 1nat } else { 0nat }) == unvisited_before(v1, k),
    decreases k,
{
    if k > 0 {
        lemma_unvisited_set_one(v1, v2, x, y, k - 1);
        lemma_row_major(k - 1);
        let cx = (k - 1) % (COLS as int);
        let cy = (k - 1) / (COLS as int);
        assert(cy < ROWS) by (nonlinear_arith)
            requires
                k - 1 < 160,
                k - 1 == cy * 16 + cx,
                0 <= cx < 16,
        ;
        if cx == x && cy == y {
            assert(y * COLS + x == k - 1);
        } else {
            assert(v2[cy][cx] == v1[cy][cx]);
            assert(y * COLS + x != k - 1) by (nonlinear_arith)
                requires
                    k - 1 == cy * 16 + cx,
                    0 <= cx < 16,
                    0 <= x < 16,
                    cx != x || cy != y,
            ;
        }
    }
}

proof fn lemma_newly_marked_bound(before: Marks, after: Marks, k: int)
    requires
        0 <= k,
    ensures
        newly_marked_before(before, after, k) <= k,
    decreases k,
{
    if k > 0 {
        lemma_newly_marked_bound(before, after, k - 1);
    }
}

proof fn lemma_newly_marked_same(before: Marks, m: Marks, k: int)
    requires
        forall|a: int, b: int| 0 <= a < COLS && 0 <= b < ROWS ==> #[trigger] m[b][a] == before[b][a],
        0 <= k <= COLS * ROWS,
    ensures
        newly_marked_before(before, m, k) == 0,
    decreases k,
{
    if k > 0 {
        lemma_newly_marked_same(before, m, k - 1);
        lemma_row_major(k - 1);
        let cx = (k - 1) % (COLS as int);
        let cy = (k - 1) / (COLS as int);
        assert(cy < ROWS) by (nonlinear_arith)
            requires
                k - 1 < 160,
                k - 1 == cy * 16 + cx,
                0 <= cx < 16,
        ;
        assert(m[cy][cx] == before[cy][cx]);
    }
}

impl Playfield {
    /// Marks every cell of the group of same-coloured cells connected to
    /// `(x, y)` (searching through horizontal and vertical neighbours).
    /// Returns how many cells it newly marked; an empty start cell marks
    /// nothing.
    pub fn flood_mark_chain(&mut self, x: usize, y: usize) -> (count: usize)
        requires
            x < COLS,
            y < ROWS,
        ensures
            old(self).grid[y as int][x as int] is None ==> final(self).marked == old(self).marked,
            old(self).grid[y as int][x as int] matches Some(t) ==> forall|a: int, b: int|
                0 <= a < COLS && 0 <= b < ROWS ==> #[trigger] final(self).marked[b][a] == (old(self).marked[b][a] || in_group(
                    old(self).grid,
                    t,
                    (x as int, y as int),
                    (a, b),
                )),
            count == newly_marked(old(self).marked, final(self).marked),
            final(self).grid == old(self).grid,
            final(self).active == old(self).active,
            final(self).score == old(self).score,
            final(self).combo == old(self).combo,
            final(self).squares_cleared_this_sweep == old(self).squares_cleared_this_sweep,
            final(self).game_over == old(self).game_over,
            final(self).next_block == old(self).next_block,
            final(self).next_chain == old(self).next_chain,
            final(self).high_scores == old(self).high_scores,
            final(self).new_score_rank == old(self).new_score_rank,
    {
        let target_color = match self.grid[y][x] {
            Some(c) => c,
            None => {
                proof {
                    lemma_newly_marked_same(self.marked, self.marked, (COLS * ROWS) as int);
                }
                return 0;
            },
        };
        let ghost g = self.grid;
        let ghost m0 = self.marked;
        let ghost start = (x as int, y as int);
        let mut count: usize = 0;
        let mut stack: Vec<(usize, usize)> = vec![(x, y)];
        let mut visited = [[false; COLS]; ROWS];
        proof {
            lemma_newly_marked_same(m0, self.marked, (COLS * ROWS) as int);
        }
        while stack.len() > 0
            invariant
                x < COLS,
                y < ROWS,
                g == old(self).grid,
                self.grid == g,
                m0 == old(self).marked,
                g[y as int][x as int] == Some(target_color),
                self.active == old(self).active,
                self.score == old(self).score,
                self.combo == old(self).combo,
                self.squares_cleared_this_sweep == old(self).squares_cleared_this_sweep,
                self.game_over == old(self).game_over,
                self.next_block == old(self).next_block,
                self.next_chain == old(self).next_chain,
                self.high_scores == old(self).high_scores,
                self.new_score_rank == old(self).new_score_rank,
                count == newly_marked(m0, self.marked),
                count <= COLS * ROWS,
                forall|a: int, b: int| 0 <= a < COLS && 0 <= b < ROWS && #[trigger] m0[b][a] ==> self.marked[b][a],
                forall|i: int| 0 <= i < stack@.len() ==> in_field((#[trigger] stack@[i].0 as int, stack@[i].1 as int)),
                // Visited cells of the colour are marked.
                forall|a: int, b: int|
                    0 <= a < COLS && 0 <= b < ROWS && #[trigger] visited[b][a] && g[b][a] == Some(target_color)
                        ==> self.marked[b][a],
                // Only those are newly marked.
                forall|a: int, b: int|
                    0 <= a < COLS && 0 <= b < ROWS && #[trigger] self.marked[b][a] ==> m0[b][a] || (visited[b][a] && g[b][a]
                        == Some(target_color)),
                // Everything visited of the colour, and everything waiting of
                // the colour, lies in every closed set holding the start.
                forall|s: Set<(int, int)>|
                    #[trigger] closed_under(g, target_color, s) && s.contains(start) ==> (forall|a: int, b: int|
                        0 <= a < COLS && 0 <= b < ROWS && visited[b][a] && g[b][a] == Some(target_color)
                            ==> #[trigger] s.contains((a, b))),
                forall|s: Set<(int, int)>|
                    #[trigger] closed_under(g, target_color, s) && s.contains(start) ==> (forall|i: int|
                        0 <= i < stack@.len() && #[trigger] has_color(g, target_color, (stack@[i].0 as int, stack@[i].1 as int))
                            ==> s.contains((stack@[i].0 as int, stack@[i].1 as int))),
                // Neighbours of visited cells of the colour are visited or waiting.
                forall|a: int, b: int, q: (int, int)|
                    0 <= a < COLS && 0 <= b < ROWS && #[trigger] visited[b][a] && g[b][a] == Some(target_color) && adjacent(
                        (a, b),
                        q,
                    ) && #[trigger] in_field(q) ==> visited[q.1][q.0] || exists|i: int|
                        0 <= i < stack@.len() && #[trigger] stack@[i] == (q.0 as usize, q.1 as usize),
                visited[y as int][x as int] || exists|i: int| 0 <= i < stack@.len() && #[trigger] stack@[i] == (x, y),
            decreases unvisited_before(visited, (COLS * ROWS) as int), stack@.len(),
        {
            let ghost old_stack = stack@;
            let (cx, cy) = stack.pop().unwrap();
            let ghost popped = (cx as int, cy as int);
            proof {
                assert(old_stack =~= stack@.push((cx, cy)));
                assert(in_field((old_stack[old_stack.len() - 1].0 as int, old_stack[old_stack.len() - 1].1 as int)));
            }
            if visited[cy][cx] {
                proof {
                    assert forall|a: int, b: int, q: (int, int)|
                        0 <= a < COLS && 0 <= b < ROWS && #[trigger] visited[b][a] && g[b][a] == Some(target_color) && adjacent(
                            (a, b),
                            q,
                        ) && #[trigger] in_field(q) implies visited[q.1][q.0] || exists|i: int|
                            0 <= i < stack@.len() && #[trigger] stack@[i] == (q.0 as usize, q.1 as usize) by {
                        if !visited[q.1][q.0] {
                            let i = choose|i: int| 0 <= i < old_stack.len() && #[trigger] old_stack[i] == (q.0 as usize, q.1 as usize);
                            if i == old_stack.len() - 1 {
                                assert(q == popped);
                            } else {
                                assert(stack@[i] == old_stack[i]);
                            }
                        }
                    }
                    if !visited[y as int][x as int] {
                        let i = choose|i: int| 0 <= i < old_stack.len() && #[trigger] old_stack[i] == (x, y);
                        assert(i != old_stack.len() - 1);
                        assert(stack@[i] == old_stack[i]);
                    }
                    assert forall|s: Set<(int, int)>| #[trigger] closed_under(g, target_color, s) && s.contains(start) implies (forall|i: int|
                        0 <= i < stack@.len() && #[trigger] has_color(g, target_color, (stack@[i].0 as int, stack@[i].1 as int))
                            ==> s.contains((stack@[i].0 as int, stack@[i].1 as int))) by {
                        assert forall|i: int| 0 <= i < stack@.len() && #[trigger] has_color(g, target_color, (stack@[i].0 as int, stack@[i].1 as int)) implies s.contains((stack@[i].0 as int, stack@[i].1 as int)) by {
                            assert(stack@[i] == old_stack[i]);
                        }
                    }
                }
                continue;
            }
            let ghost v_before = visited;
            let ghost m_before = self.marked;
            visited[cy][cx] = true;
            proof {
                lemma_unvisited_set_one(v_before, visited, cx as int, cy as int, (COLS * ROWS) as int);
                assert(cy * COLS + cx < COLS * ROWS) by (nonlinear_arith)
                    requires
                        cy < 10,
                        cx < 16,
                ;
                // A popped cell of the colour lies in every closed set holding the start.
                assert forall|s: Set<(int, int)>| #[trigger] closed_under(g, target_color, s) && s.contains(start) && has_color(g, target_color, popped) implies s.contains(popped) by {
                    let i = old_stack.len() - 1;
                    assert(has_color(g, target_color, (old_stack[i].0 as int, old_stack[i].1 as int)));
                }
            }
            let is_target = self.grid[cy][cx] == Some(target_color);
            if is_target {
                if !self.marked[cy][cx] {
                    self.marked[cy][cx] = true;
                    proof {
                        assert(!m0[cy as int][cx as int]);
                        lemma_newly_marked_set_one(m0, m_before, self.marked, cx as int, cy as int, (COLS * ROWS) as int);
                        lemma_newly_marked_bound(m0, self.marked, (COLS * ROWS) as int);
                    }
                    count += 1;
                }
                if cx > 0 {
                    stack.push((cx - 1, cy));
                }
                if cx + 1 < COLS {
                    stack.push((cx + 1, cy));
                }
                if cy > 0 {
                    stack.push((cx, cy - 1));
                }
                if cy + 1 < ROWS {
                    stack.push((cx, cy + 1));
                }
            }
            proof {
                let rest = old_stack.drop_last();
                assert(stack@.len() >= rest.len());
                assert forall|i: int| 0 <= i < rest.len() implies #[trigger] stack@[i] == rest[i] by {}
                // Entries past the old stack are neighbours of the popped cell.
                assert forall|i: int| rest.len() <= i < stack@.len() implies is_target && adjacent(popped, (#[trigger] stack@[i].0 as int, stack@[i].1 as int)) && in_field((stack@[i].0 as int, stack@[i].1 as int)) by {}
                // Every in-field neighbour of a popped cell of the colour is now waiting.
                assert forall|q: (int, int)| is_target && adjacent(popped, q) && #[trigger] in_field(q) implies exists|i: int|
                    0 <= i < stack@.len() && #[trigger] stack@[i] == (q.0 as usize, q.1 as usize) by {
                    let k: int = if q.0 == popped.0 - 1 {
                        rest.len() as int
                    } else if q.0 == popped.0 + 1 {
                        rest.len() + (if cx > 0 { 1int } else { 0 })
                    } else if q.1 == popped.1 - 1 {
                        rest.len() + (if cx > 0 { 1int } else { 0 }) + (if cx + 1 < COLS { 1int } else { 0 })
                    } else {
                        rest.len() + (if cx > 0 { 1int } else { 0 }) + (if cx + 1 < COLS { 1int } else { 0 }) + (if cy > 0 { 1int } else { 0 })
                    };
                    assert(stack@[k] == (q.0 as usize, q.1 as usize));
                }
                assert forall|a: int, b: int, q: (int, int)|
                    0 <= a < COLS && 0 <= b < ROWS && #[trigger] visited[b][a] && g[b][a] == Some(target_color) && adjacent(
                        (a, b),
                        q,
                    ) && #[trigger] in_field(q) implies visited[q.1][q.0] || exists|i: int|
                        0 <= i < stack@.len() && #[trigger] stack@[i] == (q.0 as usize, q.1 as usize) by {
                    if a == cx && b == cy {
                        assert(is_target);
                    } else {
                        assert(v_before[b][a]);
                        if !visited[q.1][q.0] {
                            assert(!v_before[q.1][q.0]);
                            let i = choose|i: int| 0 <= i < old_stack.len() && #[trigger] old_stack[i] == (q.0 as usize, q.1 as usize);
                            if i == old_stack.len() - 1 {
                                assert(q == popped);
                            } else {
                                assert(stack@[i] == old_stack[i]);
                            }
                        }
                    }
                }
                if !visited[y as int][x as int] {
                    let i = choose|i: int| 0 <= i < old_stack.len() && #[trigger] old_stack[i] == (x, y);
                    assert(i != old_stack.len() - 1);
                    assert(stack@[i] == old_stack[i]);
                }
                assert forall|s: Set<(int, int)>| #[trigger] closed_under(g, target_color, s) && s.contains(start) implies (forall|a: int, b: int|
                    0 <= a < COLS && 0 <= b < ROWS && visited[b][a] && g[b][a] == Some(target_color)
                        ==> #[trigger] s.contains((a, b))) by {
                    assert forall|a: int, b: int| 0 <= a < COLS && 0 <= b < ROWS && visited[b][a] && g[b][a] == Some(target_color) implies #[trigger] s.contains((a, b)) by {
                        if a == cx && b == cy {
                            assert(has_color(g, target_color, popped));
                        } else {
                            assert(v_before[b][a]);
                        }
                    }
                }
                assert forall|s: Set<(int, int)>| #[trigger] closed_under(g, target_color, s) && s.contains(start) implies (forall|i: int|
                    0 <= i < stack@.len() && #[trigger] has_color(g, target_color, (stack@[i].0 as int, stack@[i].1 as int))
                        ==> s.contains((stack@[i].0 as int, stack@[i].1 as int))) by {
                    assert forall|i: int| 0 <= i < stack@.len() && #[trigger] has_color(g, target_color, (stack@[i].0 as int, stack@[i].1 as int)) implies s.contains((stack@[i].0 as int, stack@[i].1 as int)) by {
                        if i < rest.len() {
                            assert(stack@[i] == old_stack[i]);
                        } else {
                            assert(has_color(g, target_color, popped));
                            assert(s.contains(popped));
                            let q = (stack@[i].0 as int, stack@[i].1 as int);
                            assert(adjacent(popped, q));
                        }
                    }
                }
                assert forall|a: int, b: int|
                    0 <= a < COLS && 0 <= b < ROWS && #[trigger] visited[b][a] && g[b][a] == Some(target_color)
                        implies self.marked[b][a] by {
                    if a != cx || b != cy {
                        assert(v_before[b][a]);
                    }
                }
                assert forall|a: int, b: int|
                    0 <= a < COLS && 0 <= b < ROWS && #[trigger] self.marked[b][a] implies m0[b][a] || (visited[b][a] && g[b][a]
                        == Some(target_color)) by {
                    if a != cx || b != cy {
                        assert(self.marked[b][a] == m_before[b][a]);
                    }
                }
                assert forall|a: int, b: int| 0 <= a < COLS && 0 <= b < ROWS && #[trigger] m0[b][a] implies self.marked[b][a] by {
                    if a != cx || b != cy {
                        assert(self.marked[b][a] == m_before[b][a]);
                    }
                }
            }
        }
        proof {
            let r = Set::new(|p: (int, int)| in_field(p) && visited[p.1][p.0] && g[p.1][p.0] == Some(target_color));
            assert(closed_under(g, target_color, r)) by {
                assert forall|p: (int, int), q: (int, int)| #[trigger] r.contains(p) && adjacent(p, q) && #[trigger] has_color(g, target_color, q) implies r.contains(q) by {
                    assert(in_field(q));
                    assert(visited[p.1][p.0] && g[p.1][p.0] == Some(target_color));
                }
            }
            assert(r.contains(start));
            assert forall|a: int, b: int| 0 <= a < COLS && 0 <= b < ROWS implies #[trigger] self.marked[b][a] == (m0[b][a] || in_group(g, target_color, start, (a, b))) by {
                if in_group(g, target_color, start, (a, b)) {
                    assert(closed_under(g, target_color, r) && r.contains(start));
                    assert(r.contains((a, b)));
                    assert(visited[b][a] && g[b][a] == Some(target_color));
                    assert(self.marked[b][a]);
                } else {
                    if self.marked[b][a] && !m0[b][a] {
                        assert(visited[b][a] && g[b][a] == Some(target_color));
                        assert forall|s: Set<(int, int)>| #[trigger] closed_under(g, target_color, s) && s.contains(start) implies s.contains((a, b)) by {
                        }
                        assert(in_group(g, target_color, start, (a, b)));
                    }
                }
                if self.marked[b][a] && !m0[b][a] {
                    assert(visited[b][a] && g[b][a] == Some(target_color));
                    assert forall|s: Set<(int, int)>| #[trigger] closed_under(g, target_color, s) && s.contains(start) implies s.contains((a, b)) by {
                    }
                }
            }
        }
        count
    }
}


// ---------------------------------------------------------------------------
// Locking the falling block.

/// The cell `(x, y)` after block `a` is written into `g`.
pub open spec fn placed_cell(g: Field, a: ActiveBlock, x: int, y: int) -> Option<BlockColor> {
    if a.x <= x <= a.x + 1 && a.y <= y <= a.y + 1 {
        Some(a.colors[y - a.y][x - a.x])
    } else {
        g[y][x]
    }
}

/// `(x, y)` lies on the field and holds a chain cell of block `a`.
pub open spec fn chain_at(a: ActiveBlock, x: int, y: int) -> bool {
    0 <= x < COLS && 0 <= y < ROWS && a.x <= x <= a.x + 1 && a.y <= y <= a.y + 1 && a.is_chain[y - a.y][x - a.x]
}

/// `(x, y)` is in the group of some chain cell of `a`, in field `g`.
pub open spec fn chained_cell(g: Field, a: ActiveBlock, x: int, y: int) -> bool {
    exists|cx: int, cy: int|
        #[trigger] chain_at(a, cx, cy) && g[cy][cx] is Some && in_group(g, g[cy][cx]->0, (cx, cy), (x, y))
}

/// What locking the falling block set off.
pub struct LockOutcome {
    /// A chain cell newly marked some cell.
    pub chained: bool,
    /// A new one-colour square was marked after the blocks settled.
    pub new_match: bool,
    /// The blocks that sank, as `apply_gravity` lists them.
    pub drops: Vec<(usize, usize, usize)>,
}

impl Playfield {
    /// Writes the falling block's cells that lie on the field into the grid
    /// and lists its chain cells among them (row by row). A block reaching
    /// above the top of the field ends the game.
    pub fn place_active(&mut self) -> (chains: Vec<(usize, usize)>)
        requires
            old(self).active.x < i32::MAX,
            old(self).active.y < i32::MAX,
        ensures
            forall|x: int, y: int|
                0 <= x < COLS && 0 <= y < ROWS ==> #[trigger] final(self).grid[y][x] == placed_cell(old(self).grid, old(self).active, x, y),
            final(self).game_over == (old(self).game_over || old(self).active.y < 0),
            forall|i: int|
                0 <= i < chains@.len() ==> #[trigger] chain_at(old(self).active, chains@[i].0 as int, chains@[i].1 as int),
            forall|x: int, y: int|
                #[trigger] chain_at(old(self).active, x, y) ==> exists|i: int|
                    0 <= i < chains@.len() && #[trigger] chains@[i] == (x as usize, y as usize),
            final(self).marked == old(self).marked,
            final(self).active == old(self).active,
            final(self).score == old(self).score,
            final(self).combo == old(self).combo,
            final(self).squares_cleared_this_sweep == old(self).squares_cleared_this_sweep,
            final(self).next_block == old(self).next_block,
            final(self).next_chain == old(self).next_chain,
            final(self).high_scores == old(self).high_scores,
            final(self).new_score_rank == old(self).new_score_rank,
    {
        let mut chains: Vec<(usize, usize)> = Vec::new();
        let ghost g0 = self.grid;
        let ax = self.active.x;
        let ay = self.active.y;
        let mut r: usize = 0;
        while r < 2
            invariant
                0 <= r <= 2,
                ax == self.active.x,
                ay == self.active.y,
                self.active == old(self).active,
                g0 == old(self).grid,
                ax < i32::MAX,
                ay < i32::MAX,
                self.marked == old(self).marked,
                self.score == old(self).score,
                self.combo == old(self).combo,
                self.squares_cleared_this_sweep == old(self).squares_cleared_this_sweep,
                self.next_block == old(self).next_block,
                self.next_chain == old(self).next_chain,
                self.high_scores == old(self).high_scores,
                self.new_score_rank == old(self).new_score_rank,
                self.game_over == (old(self).game_over || (r > 0 && ay < 0)),
                forall|x: int, y: int|
                    0 <= x < COLS && 0 <= y < ROWS ==> #[trigger] self.grid[y][x] == if ay <= y < ay + r {
                        placed_cell(g0, self.active, x, y)
                    } else {
                        g0[y][x]
                    },
                forall|i: int|
                    0 <= i < chains@.len() ==> #[trigger] chain_at(self.active, chains@[i].0 as int, chains@[i].1 as int),
                forall|x: int, y: int|
                    #[trigger] chain_at(self.active, x, y) && y < ay + r ==> exists|i: int|
                        0 <= i < chains@.len() && #[trigger] chains@[i] == (x as usize, y as usize),
            decreases 2 - r,
        {
            let mut c: usize = 0;
            while c < 2
                invariant
                    0 <= r < 2,
                    0 <= c <= 2,
                    ax == self.active.x,
                    ay == self.active.y,
                    self.active == old(self).active,
                    g0 == old(self).grid,
                    ax < i32::MAX,
                    ay < i32::MAX,
                    self.marked == old(self).marked,
                    self.score == old(self).score,
                    self.combo == old(self).combo,
                    self.squares_cleared_this_sweep == old(self).squares_cleared_this_sweep,
                    self.next_block == old(self).next_block,
                    self.next_chain == old(self).next_chain,
                    self.high_scores == old(self).high_scores,
                    self.new_score_rank == old(self).new_score_rank,
                    self.game_over == (old(self).game_over || ((r > 0 || c > 0) && ay < 0)),
                    forall|x: int, y: int|
                        0 <= x < COLS && 0 <= y < ROWS ==> #[trigger] self.grid[y][x] == if ay <= y < ay + r || (y == ay + r && ax <= x < ax + c) {
                            placed_cell(g0, self.active, x, y)
                        } else {
                            g0[y][x]
                        },
                    forall|i: int|
                        0 <= i < chains@.len() ==> #[trigger] chain_at(self.active, chains@[i].0 as int, chains@[i].1 as int),
                    forall|x: int, y: int|
                        #[trigger] chain_at(self.active, x, y) && (y < ay + r || (y == ay + r && x < ax + c)) ==> exists|i: int|
                            0 <= i < chains@.len() && #[trigger] chains@[i] == (x as usize, y as usize),
                decreases 2 - c,
            {
                let gx = ax + c as i32;
                let gy = ay + r as i32;
                let ghost before = self.grid;
                let ghost before_chains = chains@;
                if gy >= 0 && gy < ROWS as i32 && gx >= 0 && gx < COLS as i32 {
                    self.grid[gy as usize][gx as usize] = Some(self.active.colors[r][c]);
                    if self.active.is_chain[r][c] {
                        chains.push((gx as usize, gy as usize));
                    }
                } else if gy < 0 {
                    self.game_over = true;
                }
                proof {
                    assert forall|i: int| 0 <= i < chains@.len() implies #[trigger] chain_at(self.active, chains@[i].0 as int, chains@[i].1 as int) by {
                        if i < before_chains.len() {
                            assert(chains@[i] == before_chains[i]);
                        } else {
                            assert(chains@[i] == (gx as usize, gy as usize));
                            assert(chains@[i].0 as int == gx && chains@[i].1 as int == gy);
                        }
                    }
                    assert forall|x: int, y: int|
                        #[trigger] chain_at(self.active, x, y) && (y < ay + r || (y == ay + r && x < ax + c + 1)) implies exists|i: int|
                            0 <= i < chains@.len() && #[trigger] chains@[i] == (x as usize, y as usize) by {
                        if x == gx && y == gy {
                            assert(chains@[chains@.len() - 1] == (x as usize, y as usize));
                        } else {
                            let i = choose|i: int| 0 <= i < before_chains.len() && #[trigger] before_chains[i] == (x as usize, y as usize);
                            assert(chains@[i] == before_chains[i]);
                        }
                    }
                }
                c += 1;
            }
            r += 1;
        }
        chains
    }
}


/// Some cell is marked in `after` and not in `before` exactly when the count
/// of newly marked cells is positive.
proof fn lemma_newly_marked_positive(before: Marks, after: Marks, k: int)
    requires
        0 <= k <= COLS * ROWS,
    ensures
        (newly_marked_before(before, after, k) > 0) == exists|a: int, b: int|
            0 <= a < COLS && 0 <= b < ROWS && b * COLS + a < k && #[trigger] after[b][a] && !before[b][a],
    decreases k,
{
    if k > 0 {
        lemma_newly_marked_positive(before, after, k - 1);
        lemma_row_major(k - 1);
        let cx = (k - 1) % (COLS as int);
        let cy = (k - 1) / (COLS as int);
        assert(cy < ROWS) by (nonlinear_arith)
            requires
                k - 1 < 160,
                k - 1 == cy * 16 + cx,
                0 <= cx < 16,
        ;
        if exists|a: int, b: int| 0 <= a < COLS && 0 <= b < ROWS && b * COLS + a < k && #[trigger] after[b][a] && !before[b][a] {
            let (a, b) = choose|a: int, b: int| 0 <= a < COLS && 0 <= b < ROWS && b * COLS + a < k && #[trigger] after[b][a] && !before[b][a];
            if b * COLS + a == k - 1 {
                assert(a == cx && b == cy) by (nonlinear_arith)
                    requires
                        b * 16 + a == cy * 16 + cx,
                        0 <= a < 16,
                        0 <= cx < 16,
                ;
            }
        }
        if after[cy][cx] && !before[cy][cx] {
            assert(cy * COLS + cx < k);
        }
    }
}

/// What locking block `a` into `g` (with marks `m`) did, given the field `p`
/// right after the block was written: every column of `g2` is the column of
/// `p` with its blocks sunk, the drops are listed, the marks `m2` add the
/// groups of the chain cells (found in `p`) and the one-colour squares of
/// `g2`, and the outcome flags say whether any of that was new.
pub open spec fn settled_after_lock(
    g: Field,
    m: Marks,
    a: ActiveBlock,
    p: Field,
    g2: Field,
    m2: Marks,
    outcome: LockOutcome,
) -> bool {
    &&& forall|x: int, y: int| 0 <= x < COLS && 0 <= y < ROWS ==> #[trigger] p[y][x] == placed_cell(g, a, x, y)
    &&& forall|x: int| 0 <= x < COLS ==> #[trigger] column(g2, x) == compacted(column(p, x))
    &&& is_drop_list(p, outcome.drops@)
    &&& forall|x: int, y: int|
        0 <= x < COLS && 0 <= y < ROWS ==> #[trigger] m2[y][x] == (m[y][x] || chained_cell(p, a, x, y) || in_square(g2, x, y))
    &&& outcome.chained == exists|x: int, y: int|
        0 <= x < COLS && 0 <= y < ROWS && !m[y][x] && #[trigger] chained_cell(p, a, x, y)
    &&& outcome.new_match == exists|x: int, y: int| #[trigger] square_at(g2, x, y) && !m[y][x] && !chained_cell(p, a, x, y)
}

impl Playfield {
    /// Locks the falling block: writes it into the field (a block reaching
    /// above the top ends the game). Unless the game is over, each of its
    /// chain cells then marks its same-coloured group, the blocks sink, new
    /// one-colour squares are marked, the next block starts falling and a new
    /// random next block is drawn; the game ends if the new falling block is
    /// blocked at once.
    pub fn lock_active(&mut self) -> (outcome: LockOutcome)
        requires
            old(self).active.x < i32::MAX,
            old(self).active.y < i32::MAX,
        ensures
            ({
                let stopped = old(self).game_over || old(self).active.y < 0;
                &&& stopped ==> {
                    &&& forall|x: int, y: int|
                        0 <= x < COLS && 0 <= y < ROWS ==> #[trigger] final(self).grid[y][x] == placed_cell(
                            old(self).grid,
                            old(self).active,
                            x,
                            y,
                        )
                    &&& final(self).game_over
                    &&& final(self).marked == old(self).marked
                    &&& final(self).active == old(self).active
                    &&& final(self).next_block == old(self).next_block
                    &&& final(self).next_chain == old(self).next_chain
                    &&& !outcome.chained && !outcome.new_match && outcome.drops@.len() == 0
                }
                &&& !stopped ==> {
                    &&& exists|p: Field| #[trigger] settled_after_lock(
                        old(self).grid,
                        old(self).marked,
                        old(self).active,
                        p,
                        final(self).grid,
                        final(self).marked,
                        outcome,
                    )
                    &&& final(self).active.x == 7 && final(self).active.y == -2
                    &&& final(self).active.colors == old(self).next_block
                    &&& final(self).active.is_chain == old(self).next_chain
                    &&& at_most_one_chain(final(self).next_chain)
                    &&& final(self).game_over == collides_spec(final(self).grid, 7, -2)
                }
            }),
            final(self).score == old(self).score,
            final(self).combo == old(self).combo,
            final(self).squares_cleared_this_sweep == old(self).squares_cleared_this_sweep,
            final(self).high_scores == old(self).high_scores,
            final(self).new_score_rank == old(self).new_score_rank,
    {
        let ghost a0 = self.active;
        let ghost m_start = self.marked;
        let chain_cells = self.place_active();
        let ghost placed = self.grid;
        let mut chained = false;
        let mut new_match = false;
        let mut drops: Vec<(usize, usize, usize)> = Vec::new();
        if !self.game_over {
            let mut i: usize = 0;
            while i < chain_cells.len()
                invariant
                    0 <= i <= chain_cells@.len(),
                    self.grid == placed,
                    self.active == a0,
                    !self.game_over,
                    a0 == old(self).active,
                    m_start == old(self).marked,
                    self.score == old(self).score,
                    self.combo == old(self).combo,
                    self.squares_cleared_this_sweep == old(self).squares_cleared_this_sweep,
                    self.next_block == old(self).next_block,
                    self.next_chain == old(self).next_chain,
                    self.high_scores == old(self).high_scores,
                    self.new_score_rank == old(self).new_score_rank,
                    forall|k: int| 0 <= k < chain_cells@.len() ==> #[trigger] chain_at(a0, chain_cells@[k].0 as int, chain_cells@[k].1 as int),
                    forall|a: int, b: int|
                        0 <= a < COLS && 0 <= b < ROWS ==> #[trigger] self.marked[b][a] == (m_start[b][a] || exists|k: int|
                            0 <= k < i && placed[chain_cells@[k].1 as int][chain_cells@[k].0 as int] is Some && #[trigger] in_group(
                                placed,
                                placed[chain_cells@[k].1 as int][chain_cells@[k].0 as int]->0,
                                (chain_cells@[k].0 as int, chain_cells@[k].1 as int),
                                (a, b),
                            )),
                    chained == exists|a: int, b: int| 0 <= a < COLS && 0 <= b < ROWS && #[trigger] self.marked[b][a] && !m_start[b][a],
                decreases chain_cells@.len() - i,
            {
                let (cx, cy) = chain_cells[i];
                let ghost mb = self.marked;
                assert(chain_at(a0, cx as int, cy as int));
                let n = self.flood_mark_chain(cx, cy);
                proof {
                    lemma_newly_marked_positive(mb, self.marked, (COLS * ROWS) as int);
                    assert forall|a: int, b: int| 0 <= a < COLS && 0 <= b < ROWS implies #[trigger] self.marked[b][a] == (m_start[b][a] || exists|k: int|
                        0 <= k < i + 1 && placed[chain_cells@[k].1 as int][chain_cells@[k].0 as int] is Some && #[trigger] in_group(
                            placed,
                            placed[chain_cells@[k].1 as int][chain_cells@[k].0 as int]->0,
                            (chain_cells@[k].0 as int, chain_cells@[k].1 as int),
                            (a, b),
                        )) by {
                        let here = placed[cy as int][cx as int] is Some && in_group(
                            placed,
                            placed[cy as int][cx as int]->0,
                            (cx as int, cy as int),
                            (a, b),
                        );
                        if exists|k: int|
                            0 <= k < i + 1 && placed[chain_cells@[k].1 as int][chain_cells@[k].0 as int] is Some && #[trigger] in_group(
                                placed,
                                placed[chain_cells@[k].1 as int][chain_cells@[k].0 as int]->0,
                                (chain_cells@[k].0 as int, chain_cells@[k].1 as int),
                                (a, b),
                            ) {
                            let k = choose|k: int|
                                0 <= k < i + 1 && placed[chain_cells@[k].1 as int][chain_cells@[k].0 as int] is Some && #[trigger] in_group(
                                    placed,
                                    placed[chain_cells@[k].1 as int][chain_cells@[k].0 as int]->0,
                                    (chain_cells@[k].0 as int, chain_cells@[k].1 as int),
                                    (a, b),
                                );
                            if k == i {
                                assert(here);
                            } else {
                                assert(mb[b][a]);
                            }
                        }
                        if here {
                            assert(chain_cells@[i as int] == (cx, cy));
                        }
                    }
                    if n > 0 {
                        let (a, b) = choose|a: int, b: int|
                            0 <= a < COLS && 0 <= b < ROWS && b * COLS + a < COLS * ROWS && #[trigger] self.marked[b][a] && !mb[b][a];
                        assert(!m_start[b][a]);
                    } else {
                        assert forall|a: int, b: int| 0 <= a < COLS && 0 <= b < ROWS && #[trigger] self.marked[b][a] && !m_start[b][a] implies mb[b][a] by {
                            if !mb[b][a] {
                                assert(b * COLS + a < COLS * ROWS) by (nonlinear_arith)
                                    requires
                                        0 <= a < 16,
                                        0 <= b < 10,
                                ;
                            }
                        }
                    }
                }
                if n > 0 {
                    chained = true;
                }
                i += 1;
            }
            let ghost after_floods = self.marked;
            proof {
                assert forall|a: int, b: int| 0 <= a < COLS && 0 <= b < ROWS implies #[trigger] after_floods[b][a] == (m_start[b][a] || chained_cell(
                    placed,
                    a0,
                    a,
                    b,
                )) by {
                    if chained_cell(placed, a0, a, b) {
                        let (cx, cy) = choose|cx: int, cy: int|
                            #[trigger] chain_at(a0, cx, cy) && placed[cy][cx] is Some && in_group(placed, placed[cy][cx]->0, (cx, cy), (a, b));
                        let k = choose|k: int| 0 <= k < chain_cells@.len() && #[trigger] chain_cells@[k] == (cx as usize, cy as usize);
                        assert(chain_cells@[k].0 as int == cx && chain_cells@[k].1 as int == cy);
                    }
                    if after_floods[b][a] && !m_start[b][a] {
                        let k = choose|k: int|
                            0 <= k < chain_cells@.len() && placed[chain_cells@[k].1 as int][chain_cells@[k].0 as int] is Some && #[trigger] in_group(
                                placed,
                                placed[chain_cells@[k].1 as int][chain_cells@[k].0 as int]->0,
                                (chain_cells@[k].0 as int, chain_cells@[k].1 as int),
                                (a, b),
                            );
                        assert(chain_at(a0, chain_cells@[k].0 as int, chain_cells@[k].1 as int));
                    }
                }
            }
            drops = self.apply_gravity();
            new_match = self.update_matches();
            let colors = self.next_block;
            let is_chain = self.next_chain;
            let (new_next_colors, new_next_chain) = random_block_with_chain();
            self.next_block = new_next_colors;
            self.next_chain = new_next_chain;
            self.active = ActiveBlock::new(colors, is_chain);
            if self.collides(self.active.x, self.active.y) {
                self.game_over = true;
            }
            proof {
                assert(chained == exists|a: int, b: int|
                    0 <= a < COLS && 0 <= b < ROWS && !m_start[b][a] && #[trigger] chained_cell(placed, a0, a, b)) by {
                    if chained {
                        let (a, b) = choose|a: int, b: int| 0 <= a < COLS && 0 <= b < ROWS && #[trigger] after_floods[b][a] && !m_start[b][a];
                        assert(chained_cell(placed, a0, a, b));
                    }
                    if exists|a: int, b: int| 0 <= a < COLS && 0 <= b < ROWS && !m_start[b][a] && #[trigger] chained_cell(placed, a0, a, b) {
                        let (a, b) = choose|a: int, b: int| 0 <= a < COLS && 0 <= b < ROWS && !m_start[b][a] && #[trigger] chained_cell(placed, a0, a, b);
                        assert(after_floods[b][a]);
                    }
                }
                assert forall|a: int, b: int|
                    0 <= a < COLS && 0 <= b < ROWS implies #[trigger] self.marked[b][a] == (m_start[b][a]
                        || chained_cell(placed, a0, a, b) || in_square(self.grid, a, b)) by {
                    assert(after_floods[b][a] == (m_start[b][a] || chained_cell(placed, a0, a, b)));
                }
                assert(new_match == exists|a: int, b: int|
                    #[trigger] square_at(self.grid, a, b) && !m_start[b][a] && !chained_cell(placed, a0, a, b)) by {
                    if new_match {
                        let (a, b) = choose|a: int, b: int| #[trigger] square_at(self.grid, a, b) && !after_floods[b][a];
                        assert(0 <= a < COLS && 0 <= b < ROWS);
                    }
                    if exists|a: int, b: int| #[trigger] square_at(self.grid, a, b) && !m_start[b][a] && !chained_cell(placed, a0, a, b) {
                        let (a, b) = choose|a: int, b: int| #[trigger] square_at(self.grid, a, b) && !m_start[b][a] && !chained_cell(placed, a0, a, b);
                        assert(!after_floods[b][a]);
                    }
                }
            }
        }
        let outcome = LockOutcome { chained, new_match, drops };
        proof {
            if !(old(self).game_over || a0.y < 0) {
                assert(settled_after_lock(old(self).grid, old(self).marked, a0, placed, self.grid, self.marked, outcome));
            }
        }
        outcome
    }
}


// ---------------------------------------------------------------------------
// The timeline and the score.

/// The number of rows `r < k` (with `r + 1 < ROWS`) where column `col` and
/// the column to its right hold a fully marked 2x2 square starting at row `r`.
pub open spec fn squares_before(m: Marks, col: int, k: int) -> nat
    decreases k,
{
    if k <= 0 {
        0
    } else {
        squares_before(m, col, k - 1) + if col + 1 < COLS && k < ROWS && m[k - 1][col] && m[k - 1][col + 1] && m[k][col]
            && m[k][col + 1] {
            1nat
        } else {
            0nat
        }
    }
}

/// Reflecting the marks left to right turns the squares counted at column
/// `col` into those counted at column `COLS - 2 - col`: a square needs all
/// four of its cells marked, whichever side they lie on.
pub proof fn lemma_squares_mirror(m1: Marks, m2: Marks, col: int, k: int)
    requires
        forall|r: int, c: int| 0 <= r < ROWS && 0 <= c < COLS ==> #[trigger] m2[r][c] == m1[r][COLS - 1 - c],
        0 <= col,
        col + 1 < COLS,
        k >= 0,
    ensures
        squares_before(m1, col, k) == squares_before(m2, COLS - 2 - col, k),
    decreases k,
{
    if k > 0 {
        lemma_squares_mirror(m1, m2, col, k - 1);
        if k < ROWS {
            let d = COLS - 2 - col;
            assert(m2[k - 1][d] == m1[k - 1][col + 1]);
            assert(m2[k - 1][d + 1] == m1[k - 1][col]);
            assert(m2[k][d] == m1[k][col + 1]);
            assert(m2[k][d + 1] == m1[k][col]);
        }
    }
}

/// Turning the marks upside down keeps the number of squares a column
/// holds: a square needs its top and its bottom row marked alike.
pub proof fn lemma_squares_flip(m1: Marks, m2: Marks, col: int)
    requires
        forall|r: int, c: int| 0 <= r < ROWS && 0 <= c < COLS ==> #[trigger] m2[r][c] == m1[ROWS - 1 - r][c],
        0 <= col,
        col + 1 < COLS,
    ensures
        squares_before(m1, col, ROWS - 1) == squares_before(m2, col, ROWS - 1),
{
    lemma_squares_flip_prefix(m1, m2, col, ROWS - 1);
}

proof fn lemma_squares_flip_prefix(m1: Marks, m2: Marks, col: int, k: int)
    requires
        forall|r: int, c: int| 0 <= r < ROWS && 0 <= c < COLS ==> #[trigger] m2[r][c] == m1[ROWS - 1 - r][c],
        0 <= col,
        col + 1 < COLS,
        0 <= k <= ROWS - 1,
    ensures
        squares_before(m2, col, k) + squares_before(m1, col, ROWS - 1 - k) == squares_before(m1, col, ROWS - 1),
    decreases k,
{
    if k > 0 {
        lemma_squares_flip_prefix(m1, m2, col, k - 1);
        let j = ROWS - k;
        assert(m2[k - 1][col] == m1[j][col]);
        assert(m2[k - 1][col + 1] == m1[j][col + 1]);
        assert(m2[k][col] == m1[j - 1][col]);
        assert(m2[k][col + 1] == m1[j - 1][col + 1]);
        assert(squares_before(m1, col, j) == squares_before(m1, col, j - 1) + if m1[j - 1][col] && m1[j - 1][col
            + 1] && m1[j][col] && m1[j][col + 1] {
            1nat
        } else {
            0nat
        });
    }
}

/// The number of marked cells among the first `k` rows of column `col`.
pub open spec fn marked_before(m: Marks, col: int, k: int) -> nat
    decreases k,
{
    if k <= 0 {
        0
    } else {
        marked_before(m, col, k - 1) + if m[k - 1][col] {
            1nat
        } else {
            0nat
        }
    }
}

/// Whether the timeline, passing the columns `from..to` of its path (column
/// `c` of the path is column `c % COLS` of the field), passed field column
/// `x`.
pub open spec fn passed(from: int, to: int, x: int) -> bool
    decreases to - from,
{
    if to <= from {
        false
    } else {
        passed(from, to - 1, x) || (to - 1) % (COLS as int) == x
    }
}

/// The squares the timeline scores at column `c` of its path when it
/// started at `from`: the fully marked squares whose left column this is,
/// unless the marks of this column or the next were already cleared on the
/// way.
pub open spec fn step_squares(m: Marks, from: int, c: int) -> nat {
    let col = c % (COLS as int);
    if passed(from, c, col) || passed(from, c, col + 1) {
        0
    } else {
        squares_before(m, col, (ROWS - 1) as int)
    }
}

/// The marked cells the timeline clears at column `c` of its path when it
/// started at `from`: none when it passed the column before.
pub open spec fn step_cleared(m: Marks, from: int, c: int) -> nat {
    let col = c % (COLS as int);
    if passed(from, c, col) {
        0
    } else {
        marked_before(m, col, ROWS as int)
    }
}

/// The squares scored along the path `from..to`.
pub open spec fn path_squares(m: Marks, from: int, to: int) -> nat
    decreases to - from,
{
    if to <= from {
        0
    } else {
        path_squares(m, from, to - 1) + step_squares(m, from, to - 1)
    }
}

/// The cells cleared along the path `from..to`.
pub open spec fn path_cleared(m: Marks, from: int, to: int) -> nat
    decreases to - from,
{
    if to <= from {
        0
    } else {
        path_cleared(m, from, to - 1) + step_cleared(m, from, to - 1)
    }
}

proof fn lemma_squares_agree(m1: Marks, m2: Marks, col: int, k: int)
    requires
        0 <= col < COLS,
        forall|y: int| 0 <= y < ROWS ==> #[trigger] m1[y][col] == m2[y][col],
        col + 1 < COLS ==> forall|y: int| 0 <= y < ROWS ==> #[trigger] m1[y][col + 1] == m2[y][col + 1],
    ensures
        squares_before(m1, col, k) == squares_before(m2, col, k),
    decreases k,
{
    if k > 0 {
        lemma_squares_agree(m1, m2, col, k - 1);
        if col + 1 < COLS && k < ROWS {
            assert(m1[k - 1][col] == m2[k - 1][col]);
            assert(m1[k][col] == m2[k][col]);
            assert(m1[k - 1][col + 1] == m2[k - 1][col + 1]);
            assert(m1[k][col + 1] == m2[k][col + 1]);
        }
    }
}

proof fn lemma_squares_blank(m: Marks, col: int, k: int)
    requires
        0 <= col,
        (forall|y: int| 0 <= y < ROWS ==> !#[trigger] m[y][col]) || (col + 1 < COLS && forall|y: int|
            0 <= y < ROWS ==> !#[trigger] m[y][col + 1]),
    ensures
        squares_before(m, col, k) == 0,
    decreases k,
{
    if k > 0 {
        lemma_squares_blank(m, col, k - 1);
        if col + 1 < COLS && k < ROWS {
            assert(!m[k - 1][col] || !m[k - 1][col + 1]);
        }
    }
}

proof fn lemma_marked_agree(m1: Marks, m2: Marks, col: int, k: int)
    requires
        0 <= col < COLS,
        k <= ROWS,
        forall|y: int| 0 <= y < ROWS ==> #[trigger] m1[y][col] == m2[y][col],
    ensures
        marked_before(m1, col, k) == marked_before(m2, col, k),
    decreases k,
{
    if k > 0 {
        lemma_marked_agree(m1, m2, col, k - 1);
        assert(m1[k - 1][col] == m2[k - 1][col]);
    }
}

proof fn lemma_marked_blank(m: Marks, col: int, k: int)
    requires
        0 <= col < COLS,
        k <= ROWS,
        forall|y: int| 0 <= y < ROWS ==> !#[trigger] m[y][col],
    ensures
        marked_before(m, col, k) == 0,
    decreases k,
{
    if k > 0 {
        lemma_marked_blank(m, col, k - 1);
        assert(!m[k - 1][col]);
    }
}

/// The number of the columns `0..k` that the path `from..to` passed.
spec fn passed_count(from: int, to: int, k: int) -> nat
    decreases k,
{
    if k <= 0 {
        0
    } else {
        passed_count(from, to, k - 1) + if passed(from, to, k - 1) {
            1nat
        } else {
            0nat
        }
    }
}

proof fn lemma_passed_count_le(from: int, to: int, k: int)
    requires
        k >= 0,
    ensures
        passed_count(from, to, k) <= k,
    decreases k,
{
    if k > 0 {
        lemma_passed_count_le(from, to, k - 1);
    }
}

/// One more step of the path adds its column to the columns passed, unless
/// it was passed already.
proof fn lemma_passed_count_step(from: int, c: int, k: int)
    requires
        from <= c,
        0 <= k,
    ensures
        passed_count(from, c + 1, k) == passed_count(from, c, k) + if 0 <= c % (COLS as int) < k && !passed(
            from,
            c,
            c % (COLS as int),
        ) {
            1nat
        } else {
            0nat
        },
    decreases k,
{
    if k > 0 {
        lemma_passed_count_step(from, c, k - 1);
        assert(passed(from, c + 1, k - 1) == (passed(from, c, k - 1) || c % (COLS as int) == k - 1));
    }
}

/// Each column gives up its squares and its cells once: along any path the
/// timeline scores at most `ROWS - 1` squares and clears at most `ROWS`
/// cells per column passed.
proof fn lemma_path_bounds(m: Marks, from: int, to: int)
    requires
        from <= to,
    ensures
        path_squares(m, from, to) <= (ROWS - 1) * passed_count(from, to, COLS as int),
        path_cleared(m, from, to) <= ROWS * passed_count(from, to, COLS as int),
    decreases to - from,
{
    if to > from {
        let c = to - 1;
        lemma_path_bounds(m, from, c);
        let col = c % (COLS as int);
        lemma_squares_before_le(m, col, (ROWS - 1) as int);
        lemma_marked_before_le(m, col, ROWS as int);
        lemma_passed_count_step(from, c, COLS as int);
    }
}

proof fn lemma_squares_before_le(m: Marks, col: int, k: int)
    requires
        k >= 0,
    ensures
        squares_before(m, col, k) <= k,
    decreases k,
{
    if k > 0 {
        lemma_squares_before_le(m, col, k - 1);
    }
}

proof fn lemma_marked_before_le(m: Marks, col: int, k: int)
    requires
        k >= 0,
    ensures
        marked_before(m, col, k) <= k,
    decreases k,
{
    if k > 0 {
        lemma_marked_before_le(m, col, k - 1);
    }
}

/// What one step of the timeline did.
pub struct TimelineStep {
    /// Squares scored.
    pub squares: u32,
    /// Marked cells cleared.
    pub cleared: u32,
    /// The columns where cells were cleared.
    pub cleared_columns: [bool; COLS],
    /// The blocks cleared, as column, row and colour, in the order cleared.
    pub blocks: Vec<(usize, usize, BlockColor)>,
}

/// Places kept in the colour-block game's table.
pub const MAX_HIGH_SCORES: usize = 10;

/// What the timeline cleared in one column.
pub struct ColumnSweep {
    /// Fully marked 2x2 squares whose left column is this one.
    pub squares: u32,
    /// Marked cells cleared.
    pub cleared: u32,
    /// The rows and colours of the blocks cleared, top first.
    pub blocks: Vec<(usize, BlockColor)>,
}

impl Playfield {
    /// The timeline passes column `col`: counts the fully marked 2x2 squares
    /// that start in it, then empties and unmarks its marked cells.
    pub fn sweep_column(&mut self, col: usize) -> (r: ColumnSweep)
        requires
            col < COLS,
        ensures
            r.squares == squares_before(old(self).marked, col as int, (ROWS - 1) as int),
            r.cleared == marked_before(old(self).marked, col as int, ROWS as int),
            forall|i: int|
                0 <= i < r.blocks@.len() ==> (#[trigger] r.blocks@[i]).0 < ROWS && old(self).marked[r.blocks@[i].0 as int][col as int]
                    && old(self).grid[r.blocks@[i].0 as int][col as int] == Some(r.blocks@[i].1),
            forall|i: int, j: int| 0 <= i < j < r.blocks@.len() ==> (#[trigger] r.blocks@[i]).0 < (#[trigger] r.blocks@[j]).0,
            forall|y: int|
                0 <= y < ROWS && old(self).marked[y][col as int] && #[trigger] old(self).grid[y][col as int] is Some ==> exists|i: int|
                    0 <= i < r.blocks@.len() && #[trigger] r.blocks@[i] == (y as usize, old(self).grid[y][col as int]->0),
            forall|x: int, y: int|
                0 <= x < COLS && 0 <= y < ROWS ==> #[trigger] final(self).grid[y][x] == if x == col && old(self).marked[y][x] {
                    None
                } else {
                    old(self).grid[y][x]
                },
            forall|x: int, y: int|
                0 <= x < COLS && 0 <= y < ROWS ==> #[trigger] final(self).marked[y][x] == (old(self).marked[y][x] && x != col),
            final(self).active == old(self).active,
            final(self).score == old(self).score,
            final(self).combo == old(self).combo,
            final(self).squares_cleared_this_sweep == old(self).squares_cleared_this_sweep,
            final(self).game_over == old(self).game_over,
            final(self).next_block == old(self).next_block,
            final(self).next_chain == old(self).next_chain,
            final(self).high_scores == old(self).high_scores,
            final(self).new_score_rank == old(self).new_score_rank,
    {
        let ghost m0 = self.marked;
        let ghost g0 = self.grid;
        let mut squares: u32 = 0;
        if col + 1 < COLS {
            let mut row: usize = 0;
            while row < ROWS - 1
                invariant
                    col + 1 < COLS,
                    0 <= row <= ROWS - 1,
                    self.marked == m0,
                    squares == squares_before(m0, col as int, row as int),
                    squares <= row,
                decreases ROWS - 1 - row,
            {
                if self.marked[row][col] && self.marked[row][col + 1] && self.marked[row + 1][col] && self.marked[row + 1][col + 1] {
                    squares += 1;
                }
                row += 1;
            }
        } else {
            proof {
                lemma_squares_before_none(m0, col as int, (ROWS - 1) as int);
            }
        }
        let mut cleared: u32 = 0;
        let mut blocks: Vec<(usize, BlockColor)> = Vec::new();
        let mut row: usize = 0;
        while row < ROWS
            invariant
                col < COLS,
                0 <= row <= ROWS,
                m0 == old(self).marked,
                g0 == old(self).grid,
                self.active == old(self).active,
                self.score == old(self).score,
                self.combo == old(self).combo,
                self.squares_cleared_this_sweep == old(self).squares_cleared_this_sweep,
                self.game_over == old(self).game_over,
                self.next_block == old(self).next_block,
                self.next_chain == old(self).next_chain,
                self.high_scores == old(self).high_scores,
                self.new_score_rank == old(self).new_score_rank,
                cleared == marked_before(m0, col as int, row as int),
                cleared <= row,
                forall|x: int, y: int|
                    0 <= x < COLS && 0 <= y < ROWS ==> #[trigger] self.grid[y][x] == if x == col && y < row && m0[y][x] {
                        None
                    } else {
                        g0[y][x]
                    },
                forall|x: int, y: int|
                    0 <= x < COLS && 0 <= y < ROWS ==> #[trigger] self.marked[y][x] == (m0[y][x] && !(x == col && y < row)),
                forall|i: int|
                    0 <= i < blocks@.len() ==> (#[trigger] blocks@[i]).0 < row && m0[blocks@[i].0 as int][col as int]
                        && g0[blocks@[i].0 as int][col as int] == Some(blocks@[i].1),
                forall|i: int, j: int| 0 <= i < j < blocks@.len() ==> (#[trigger] blocks@[i]).0 < (#[trigger] blocks@[j]).0,
                forall|y: int|
                    0 <= y < row && m0[y][col as int] && #[trigger] g0[y][col as int] is Some ==> exists|i: int|
                        0 <= i < blocks@.len() && #[trigger] blocks@[i] == (y as usize, g0[y][col as int]->0),
            decreases ROWS - row,
        {
            let ghost before = blocks@;
            if self.marked[row][col] {
                if let Some(color) = self.grid[row][col] {
                    blocks.push((row, color));
                }
                self.grid[row][col] = None;
                self.marked[row][col] = false;
                cleared += 1;
            }
            proof {
                assert forall|y: int|
                    0 <= y < row + 1 && m0[y][col as int] && #[trigger] g0[y][col as int] is Some implies exists|i: int|
                        0 <= i < blocks@.len() && #[trigger] blocks@[i] == (y as usize, g0[y][col as int]->0) by {
                    if y == row {
                        assert(blocks@[blocks@.len() - 1] == (y as usize, g0[y][col as int]->0));
                    } else {
                        let i = choose|i: int| 0 <= i < before.len() && #[trigger] before[i] == (y as usize, g0[y][col as int]->0);
                        assert(blocks@[i] == before[i]);
                    }
                }
            }
            row += 1;
        }
        ColumnSweep { squares, cleared, blocks }
    }

    /// Scores the squares the timeline cleared in one step: fifty points
    /// each, times one more than the combo, and counts them toward this
    /// sweep.
    pub fn add_square_score(&mut self, squares: u32)
        requires
            old(self).score + squares * SCORE_PER_SQUARE * (1 + old(self).combo) <= u32::MAX,
            old(self).squares_cleared_this_sweep + squares <= u32::MAX,
            old(self).combo < u32::MAX,
        ensures
            final(self).score == old(self).score + squares * SCORE_PER_SQUARE * (1 + old(self).combo),
            final(self).squares_cleared_this_sweep == old(self).squares_cleared_this_sweep + squares,
            *final(self) == (Playfield {
                score: final(self).score,
                squares_cleared_this_sweep: final(self).squares_cleared_this_sweep,
                ..*old(self)
            }),
    {
        if squares > 0 {
            proof {
                assert(squares * SCORE_PER_SQUARE <= squares * SCORE_PER_SQUARE * (1 + self.combo)) by (nonlinear_arith)
                    requires
                        squares >= 0,
                        self.combo >= 0,
                ;
            }
            self.score += squares * SCORE_PER_SQUARE * (1 + self.combo);
            self.squares_cleared_this_sweep += squares;
        } else {
            proof {
                assert(squares * SCORE_PER_SQUARE * (1 + self.combo) == 0) by (nonlinear_arith)
                    requires
                        squares == 0,
                ;
            }
        }
    }

    /// Moves the timeline over the columns `start_col..=end_col` of its path
    /// (wrapping round the field), sweeping each in turn: squares are
    /// counted before their cells are cleared, and a column swept twice
    /// clears nothing the second time. Scoring is left to
    /// `add_square_score`.
    pub fn sweep_columns(&mut self, start_col: usize, end_col: usize) -> (r: TimelineStep)
        requires
            start_col <= end_col < usize::MAX,
        ensures
            r.squares == path_squares(old(self).marked, start_col as int, end_col + 1),
            r.cleared == path_cleared(old(self).marked, start_col as int, end_col + 1),
            forall|x: int, y: int|
                0 <= x < COLS && 0 <= y < ROWS ==> #[trigger] final(self).marked[y][x] == (old(self).marked[y][x]
                    && !passed(start_col as int, end_col + 1, x)),
            forall|x: int, y: int|
                0 <= x < COLS && 0 <= y < ROWS ==> #[trigger] final(self).grid[y][x] == if old(self).marked[y][x] && passed(
                    start_col as int,
                    end_col + 1,
                    x,
                ) {
                    None
                } else {
                    old(self).grid[y][x]
                },
            forall|i: int|
                0 <= i < r.blocks@.len() ==> {
                    let (x, y, c) = #[trigger] r.blocks@[i];
                    &&& x < COLS && y < ROWS
                    &&& old(self).marked[y as int][x as int]
                    &&& old(self).grid[y as int][x as int] == Some(c)
                    &&& passed(start_col as int, end_col + 1, x as int)
                },
            forall|x: int|
                0 <= x < COLS ==> #[trigger] r.cleared_columns[x] == (passed(start_col as int, end_col + 1, x)
                    && marked_before(old(self).marked, x, ROWS as int) > 0),
            *final(self) == (Playfield { grid: final(self).grid, marked: final(self).marked, ..*old(self) }),
    {
        let ghost m0 = self.marked;
        let ghost g0 = self.grid;
        let ghost from = start_col as int;
        let mut squares: u32 = 0;
        let mut cleared: u32 = 0;
        let mut cleared_columns = [false; COLS];
        let mut blocks: Vec<(usize, usize, BlockColor)> = Vec::new();
        let mut c = start_col;
        while c <= end_col
            invariant
                start_col <= c <= end_col + 1,
                end_col < usize::MAX,
                from == start_col,
                m0 == old(self).marked,
                g0 == old(self).grid,
                squares == path_squares(m0, from, c as int),
                cleared == path_cleared(m0, from, c as int),
                forall|x: int|
                    0 <= x < COLS ==> #[trigger] cleared_columns[x] == (passed(from, c as int, x) && marked_before(
                        m0,
                        x,
                        ROWS as int,
                    ) > 0),
                forall|x: int, y: int|
                    0 <= x < COLS && 0 <= y < ROWS ==> #[trigger] self.marked[y][x] == (m0[y][x] && !passed(from, c as int, x)),
                forall|x: int, y: int|
                    0 <= x < COLS && 0 <= y < ROWS ==> #[trigger] self.grid[y][x] == if m0[y][x] && passed(from, c as int, x) {
                        None
                    } else {
                        g0[y][x]
                    },
                forall|i: int|
                    0 <= i < blocks@.len() ==> {
                        let (x, y, col) = #[trigger] blocks@[i];
                        &&& x < COLS && y < ROWS
                        &&& m0[y as int][x as int]
                        &&& g0[y as int][x as int] == Some(col)
                        &&& passed(from, c as int, x as int)
                    },
                *self == (Playfield { grid: self.grid, marked: self.marked, ..*old(self) }),
            decreases end_col + 1 - c,
        {
            let col = c % COLS;
            let ghost mark_before = self.marked;
            let ghost grid_before = self.grid;
            proof {
                let pc = passed(from, c as int, col as int);
                if pc {
                    assert forall|y: int| 0 <= y < ROWS implies !#[trigger] mark_before[y][col as int] by {}
                    lemma_marked_blank(mark_before, col as int, ROWS as int);
                    lemma_squares_blank(mark_before, col as int, (ROWS - 1) as int);
                } else {
                    assert forall|y: int| 0 <= y < ROWS implies #[trigger] mark_before[y][col as int] == m0[y][col as int] by {}
                    lemma_marked_agree(mark_before, m0, col as int, ROWS as int);
                    if col + 1 < COLS && passed(from, c as int, col + 1) {
                        assert forall|y: int| 0 <= y < ROWS implies !#[trigger] mark_before[y][col + 1] by {}
                        lemma_squares_blank(mark_before, col as int, (ROWS - 1) as int);
                    } else {
                        if col + 1 < COLS {
                            assert forall|y: int| 0 <= y < ROWS implies #[trigger] mark_before[y][col + 1] == m0[y][col + 1] by {}
                        }
                        lemma_squares_agree(mark_before, m0, col as int, (ROWS - 1) as int);
                    }
                }
                if col + 1 >= COLS {
                    lemma_squares_before_none(m0, col as int, (ROWS - 1) as int);
                    lemma_squares_before_none(mark_before, col as int, (ROWS - 1) as int);
                }
                lemma_path_bounds(m0, from, c as int + 1);
            }
            let s = self.sweep_column(col);
            proof {
                assert(s.squares == step_squares(m0, from, c as int));
                assert(s.cleared == step_cleared(m0, from, c as int));
                assert(path_squares(m0, from, c as int + 1) == squares + s.squares);
                assert(path_cleared(m0, from, c as int + 1) == cleared + s.cleared);
                lemma_passed_count_le(from, c as int + 1, COLS as int);
                assert(squares + s.squares <= 9 * 16);
                assert(cleared + s.cleared <= 10 * 16);
            }
            squares += s.squares;
            cleared += s.cleared;
            if s.cleared > 0 {
                cleared_columns[col] = true;
            }
            let ghost blocks_before = blocks@;
            let mut i: usize = 0;
            while i < s.blocks.len()
                invariant
                    0 <= i <= s.blocks@.len(),
                    col < COLS,
                    col == c % COLS,
                    from == start_col,
                    blocks@.len() == blocks_before.len() + i,
                    forall|k: int| 0 <= k < blocks_before.len() ==> #[trigger] blocks@[k] == blocks_before[k],
                    forall|k: int| 0 <= k < i ==> #[trigger] blocks@[blocks_before.len() + k] == (col, s.blocks@[k].0, s.blocks@[k].1),
                decreases s.blocks@.len() - i,
            {
                let (row, color) = s.blocks[i];
                blocks.push((col, row, color));
                i += 1;
            }
            proof {
                assert forall|x: int, y: int| 0 <= x < COLS && 0 <= y < ROWS implies #[trigger] self.marked[y][x] == (m0[y][x]
                    && !passed(from, c as int + 1, x)) by {
                    assert(mark_before[y][x] == (m0[y][x] && !passed(from, c as int, x)));
                }
                assert forall|x: int, y: int| 0 <= x < COLS && 0 <= y < ROWS implies #[trigger] self.grid[y][x] == if m0[y][x]
                    && passed(from, c as int + 1, x) {
                    None
                } else {
                    g0[y][x]
                } by {
                    assert(mark_before[y][x] == (m0[y][x] && !passed(from, c as int, x)));
                    assert(grid_before[y][x] == if m0[y][x] && passed(from, c as int, x) {
                        None
                    } else {
                        g0[y][x]
                    });
                }
                assert forall|k: int| 0 <= k < blocks@.len() implies {
                    let (x, y, cc) = #[trigger] blocks@[k];
                    &&& x < COLS && y < ROWS
                    &&& m0[y as int][x as int]
                    &&& g0[y as int][x as int] == Some(cc)
                    &&& passed(from, c as int + 1, x as int)
                } by {
                    if k < blocks_before.len() {
                        assert(blocks@[k] == blocks_before[k]);
                    } else {
                        let j = k - blocks_before.len();
                        assert(blocks@[blocks_before.len() + j] == (col, s.blocks@[j].0, s.blocks@[j].1));
                        let y = s.blocks@[j].0 as int;
                        assert(mark_before[y][col as int]);
                        assert(grid_before[y][col as int] == Some(s.blocks@[j].1));
                    }
                }
            }
            c += 1;
        }
        TimelineStep { squares, cleared, cleared_columns, blocks }
    }

    /// Ends a sweep of the timeline: the combo grows if the sweep cleared at
    /// least `COMBO_MIN_SQUARES` squares and drops to zero otherwise, the
    /// count starts again, and the blocks sink.
    pub fn finish_sweep(&mut self) -> (drops: Vec<(usize, usize, usize)>)
        requires
            old(self).combo < u32::MAX,
        ensures
            final(self).combo == if old(self).squares_cleared_this_sweep >= COMBO_MIN_SQUARES {
                old(self).combo + 1
            } else {
                0
            },
            final(self).squares_cleared_this_sweep == 0,
            forall|x: int| 0 <= x < COLS ==> #[trigger] column(final(self).grid, x) == compacted(column(old(self).grid, x)),
            is_drop_list(old(self).grid, drops@),
            *final(self) == (Playfield {
                grid: final(self).grid,
                combo: final(self).combo,
                squares_cleared_this_sweep: final(self).squares_cleared_this_sweep,
                ..*old(self)
            }),
    {
        if self.squares_cleared_this_sweep >= COMBO_MIN_SQUARES {
            self.combo += 1;
        } else {
            self.combo = 0;
        }
        self.squares_cleared_this_sweep = 0;
        self.apply_gravity()
    }

    /// Whether the score earns a place in the table.
    pub fn qualifies_for_leaderboard(&self) -> (r: bool)
        ensures
            r == qualifies_spec(self.high_scores@, self.score, MAX_HIGH_SCORES as nat),
    {
        qualifies(&self.high_scores, self.score, MAX_HIGH_SCORES)
    }

    /// Enters the score under `name`, keeps the best `MAX_HIGH_SCORES` entries
    /// (highest first, earlier entries first among equal scores) and records
    /// the place of the last entry that has this name and score, if any.
    pub fn add_to_leaderboard(&mut self, name: &String)
        ensures
            ({
                let t = ranked_with(old(self).high_scores@, ScoreEntry { name: *name, score: old(self).score }, MAX_HIGH_SCORES as nat);
                &&& final(self).high_scores@ == t
                &&& match final(self).new_score_rank {
                    Some(k) => k < t.len() && t[k as int].name@ == name@ && t[k as int].score == old(self).score && forall|j: int|
                        k < j < t.len() ==> !(#[trigger] t[j].name@ == name@ && t[j].score == old(self).score),
                    None => forall|j: int| 0 <= j < t.len() ==> !(#[trigger] t[j].name@ == name@ && t[j].score == old(self).score),
                }
            }),
            *final(self) == (Playfield {
                high_scores: final(self).high_scores,
                new_score_rank: final(self).new_score_rank,
                ..*old(self)
            }),
    {
        let mut entries: Vec<ScoreEntry> = Vec::new();
        std::mem::swap(&mut entries, &mut self.high_scores);
        self.high_scores = add_ranked(entries, ScoreEntry { name: name.clone(), score: self.score }, MAX_HIGH_SCORES);
        let mut k: usize = self.high_scores.len();
        let mut rank: Option<usize> = None;
        while rank.is_none() && k > 0
            invariant
                0 <= k <= self.high_scores@.len(),
                rank is None ==> forall|j: int|
                    k <= j < self.high_scores@.len() ==> !(#[trigger] self.high_scores@[j].name@ == name@
                        && self.high_scores@[j].score == self.score),
                rank is Some ==> {
                    &&& rank->0 == k
                    &&& k < self.high_scores@.len()
                    &&& self.high_scores@[k as int].name@ == name@
                    &&& self.high_scores@[k as int].score == self.score
                    &&& forall|j: int|
                        k < j < self.high_scores@.len() ==> !(#[trigger] self.high_scores@[j].name@ == name@
                            && self.high_scores@[j].score == self.score)
                },
            decreases k + if rank is None { 1int } else { 0int },
        {
            let e = &self.high_scores[k - 1];
            let hit = e.name == *name && e.score == self.score;
            k -= 1;
            if hit {
                rank = Some(k);
            }
        }
        self.new_score_rank = rank;
    }
}

proof fn lemma_squares_before_none(m: Marks, col: int, k: int)
    requires
        col + 1 >= COLS,
    ensures
        squares_before(m, col, k) == 0,
    decreases k,
{
    if k > 0 {
        lemma_squares_before_none(m, col, k - 1);
    }
}

} // verus!
