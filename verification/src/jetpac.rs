//! The jetpack games: the tile level with emeralds, fuel and an exit portal,
//! and the rocket that is built from three parts.

use vstd::prelude::*;

verus! {

/// Tiles across the level.
pub const COLS: usize = 25;
/// Tiles down the level.
pub const ROWS: usize = 18;

/// What a tile of the level holds.
#[derive(Clone, Copy, PartialEq, Eq, Structural, Debug)]
pub enum TileType {
    Empty,
    /// A brick the player can phase through for a while.
    NormalBrick,
    /// A brick that always stops movement.
    SolidBrick,
    Ladder,
}

/// What a collectible is.
#[derive(Clone, Copy, PartialEq, Eq, Structural, Debug)]
pub enum CollectibleType {
    Emerald,
    Fuel,
}

/// A collectible at a tile; it is there while `active`.
#[derive(Clone, Copy, PartialEq, Eq, Structural, Debug)]
pub struct Collectible {
    pub col: usize,
    pub row: usize,
    pub ctype: CollectibleType,
    pub active: bool,
}

/// The two-by-two exit, open once `active`.
#[derive(Clone, Copy, PartialEq, Eq, Structural, Debug)]
pub struct Portal {
    pub col: usize,
    pub row: usize,
    pub active: bool,
}

/// The tiles of a level, `grid[row][col]`.
pub type Grid = [[TileType; COLS]; ROWS];

/// A level: its tiles, its collectibles, its exit and the emerald count.
pub struct Level {
    pub grid: Grid,
    pub collectibles: Vec<Collectible>,
    pub portal: Portal,
    pub emeralds_total: usize,
    pub emeralds_collected: usize,
}

/// Whether a tile stops movement.
pub open spec fn solid(t: TileType) -> bool {
    t == TileType::NormalBrick || t == TileType::SolidBrick
}

/// Whether a tile stops movement: a brick of either kind.
pub fn is_solid(t: TileType) -> (r: bool)
    ensures
        r == solid(t),
{
    t == TileType::NormalBrick || t == TileType::SolidBrick
}

/// The tile of the test level at row `r`, column `c`: a solid border, three
/// brick platforms with a solid block in two of them, and two ladders, the
/// ladders drawn last.
pub open spec fn test_tile(r: int, c: int) -> TileType {
    if (c == 10 && 11 <= r < 18) || (c == 18 && 7 <= r < 11) {
        TileType::Ladder
    } else if (r == 14 && c == 5) || (r == 10 && c == 15) {
        TileType::SolidBrick
    } else if (r == 14 && 2 <= c < 10) || (r == 10 && 12 <= c < 20) || (r == 6 && 4 <= c < 15) {
        TileType::NormalBrick
    } else if r == 0 || r == ROWS - 1 || c == 0 || c == COLS - 1 {
        TileType::SolidBrick
    } else {
        TileType::Empty
    }
}

/// The collectibles of the test level: six emeralds, then two fuel cans.
pub open spec fn test_collectibles() -> Seq<Collectible> {
    seq![
        Collectible { col: 3, row: 13, ctype: CollectibleType::Emerald, active: true },
        Collectible { col: 9, row: 13, ctype: CollectibleType::Emerald, active: true },
        Collectible { col: 14, row: 9, ctype: CollectibleType::Emerald, active: true },
        Collectible { col: 19, row: 9, ctype: CollectibleType::Emerald, active: true },
        Collectible { col: 5, row: 5, ctype: CollectibleType::Emerald, active: true },
        Collectible { col: 13, row: 5, ctype: CollectibleType::Emerald, active: true },
        Collectible { col: 7, row: 17, ctype: CollectibleType::Fuel, active: true },
        Collectible { col: 15, row: 17, ctype: CollectibleType::Fuel, active: true },
    ]
}

/// Sets `grid[r][c]` for `c` in `from..to`.
fn fill_row(grid: &mut Grid, r: usize, from: usize, to: usize, t: TileType)
    requires
        r < ROWS,
        from <= to <= COLS,
    ensures
        forall|i: int, j: int|
            0 <= i < ROWS && 0 <= j < COLS ==> #[trigger] final(grid)[i][j] == if i == r && from <= j < to {
                t
            } else {
                old(grid)[i][j]
            },
{
    let mut c = from;
    while c < to
        invariant
            r < ROWS,
            from <= c <= to <= COLS,
            forall|i: int, j: int|
                0 <= i < ROWS && 0 <= j < COLS ==> #[trigger] grid[i][j] == if i == r && from <= j < c {
                    t
                } else {
                    old(grid)[i][j]
                },
        decreases to - c,
    {
        grid[r][c] = t;
        c += 1;
    }
}

/// Sets `grid[r][c]` for `r` in `from..to`.
fn fill_col(grid: &mut Grid, c: usize, from: usize, to: usize, t: TileType)
    requires
        c < COLS,
        from <= to <= ROWS,
    ensures
        forall|i: int, j: int|
            0 <= i < ROWS && 0 <= j < COLS ==> #[trigger] final(grid)[i][j] == if j == c && from <= i < to {
                t
            } else {
                old(grid)[i][j]
            },
{
    let mut r = from;
    while r < to
        invariant
            c < COLS,
            from <= r <= to <= ROWS,
            forall|i: int, j: int|
                0 <= i < ROWS && 0 <= j < COLS ==> #[trigger] grid[i][j] == if j == c && from <= i < r {
                    t
                } else {
                    old(grid)[i][j]
                },
        decreases to - r,
    {
        grid[r][c] = t;
        r += 1;
    }
}

/// The level the game is played on.
pub fn create_test_level() -> (l: Level)
    ensures
        forall|r: int, c: int| 0 <= r < ROWS && 0 <= c < COLS ==> #[trigger] l.grid[r][c] == test_tile(r, c),
        l.collectibles@ == test_collectibles(),
        l.portal == (Portal { col: 20, row: 16, active: false }),
        l.emeralds_total == 6,
        l.emeralds_collected == 0,
{
    let mut grid: Grid = [[TileType::Empty; COLS]; ROWS];
    fill_row(&mut grid, 0, 0, COLS, TileType::SolidBrick);
    fill_row(&mut grid, ROWS - 1, 0, COLS, TileType::SolidBrick);
    fill_col(&mut grid, 0, 0, ROWS, TileType::SolidBrick);
    fill_col(&mut grid, COLS - 1, 0, ROWS, TileType::SolidBrick);
    fill_row(&mut grid, 14, 2, 10, TileType::NormalBrick);
    fill_row(&mut grid, 10, 12, 20, TileType::NormalBrick);
    fill_row(&mut grid, 6, 4, 15, TileType::NormalBrick);
    grid[14][5] = TileType::SolidBrick;
    grid[10][15] = TileType::SolidBrick;
    fill_col(&mut grid, 10, 11, 18, TileType::Ladder);
    fill_col(&mut grid, 18, 7, 11, TileType::Ladder);
    let collectibles = vec![
        Collectible { col: 3, row: 13, ctype: CollectibleType::Emerald, active: true },
        Collectible { col: 9, row: 13, ctype: CollectibleType::Emerald, active: true },
        Collectible { col: 14, row: 9, ctype: CollectibleType::Emerald, active: true },
        Collectible { col: 19, row: 9, ctype: CollectibleType::Emerald, active: true },
        Collectible { col: 5, row: 5, ctype: CollectibleType::Emerald, active: true },
        Collectible { col: 13, row: 5, ctype: CollectibleType::Emerald, active: true },
        Collectible { col: 7, row: 17, ctype: CollectibleType::Fuel, active: true },
        Collectible { col: 15, row: 17, ctype: CollectibleType::Fuel, active: true },
    ];
    assert(collectibles@ =~= test_collectibles());
    Level {
        grid,
        collectibles,
        emeralds_total: 6,
        emeralds_collected: 0,
        portal: Portal { col: 20, row: 16, active: false },
    }
}

impl Level {
    /// Picks up collectible `i` if it is still there: an emerald counts
    /// toward the total and opens the exit once all are in. Returns what
    /// was picked up.
    pub fn collect(&mut self, i: usize) -> (got: Option<CollectibleType>)
        requires
            i < old(self).collectibles@.len(),
            old(self).emeralds_collected < usize::MAX,
        ensures
            !old(self).collectibles@[i as int].active ==> got is None && *final(self) == *old(self),
            old(self).collectibles@[i as int].active ==> {
                let c = old(self).collectibles@[i as int];
                &&& got == Some(c.ctype)
                &&& final(self).collectibles@ == old(self).collectibles@.update(i as int, Collectible { active: false, ..c })
                &&& final(self).grid == old(self).grid
                &&& final(self).emeralds_total == old(self).emeralds_total
                &&& final(self).emeralds_collected == old(self).emeralds_collected + if c.ctype == CollectibleType::Emerald {
                    1int
                } else {
                    0int
                }
                &&& final(self).portal.col == old(self).portal.col
                &&& final(self).portal.row == old(self).portal.row
                &&& final(self).portal.active == (old(self).portal.active || (c.ctype == CollectibleType::Emerald
                    && final(self).emeralds_collected >= old(self).emeralds_total))
            },
    {
        let c = self.collectibles[i];
        if !c.active {
            return None;
        }
        self.collectibles.set(i, Collectible { active: false, ..c });
        if c.ctype == CollectibleType::Emerald {
            self.emeralds_collected += 1;
            if self.emeralds_collected >= self.emeralds_total {
                self.portal.active = true;
            }
        }
        Some(c.ctype)
    }

    /// Phases the brick at `(r, c)` out of the level if it is a normal brick;
    /// returns whether it did.
    pub fn phase_brick(&mut self, r: usize, c: usize) -> (phased: bool)
        requires
            r < ROWS,
            c < COLS,
        ensures
            phased == (old(self).grid[r as int][c as int] == TileType::NormalBrick),
            forall|i: int, j: int|
                0 <= i < ROWS && 0 <= j < COLS ==> #[trigger] final(self).grid[i][j] == if phased && i == r && j == c {
                    TileType::Empty
                } else {
                    old(self).grid[i][j]
                },
            final(self).collectibles == old(self).collectibles,
            final(self).portal == old(self).portal,
            final(self).emeralds_collected == old(self).emeralds_collected,
            final(self).emeralds_total == old(self).emeralds_total,
    {
        if self.grid[r][c] == TileType::NormalBrick {
            self.grid[r][c] = TileType::Empty;
            true
        } else {
            false
        }
    }

    /// Puts a phased brick back at `(r, c)`.
    pub fn restore_brick(&mut self, r: usize, c: usize)
        requires
            r < ROWS,
            c < COLS,
        ensures
            forall|i: int, j: int|
                0 <= i < ROWS && 0 <= j < COLS ==> #[trigger] final(self).grid[i][j] == if i == r && j == c {
                    TileType::NormalBrick
                } else {
                    old(self).grid[i][j]
                },
            final(self).collectibles == old(self).collectibles,
            final(self).portal == old(self).portal,
            final(self).emeralds_collected == old(self).emeralds_collected,
            final(self).emeralds_total == old(self).emeralds_total,
    {
        self.grid[r][c] = TileType::NormalBrick;
    }
}

/// The parts of the rocket, bottom to top.
#[derive(Clone, Copy, PartialEq, Eq, Structural, Debug)]
pub enum PartType {
    Base,
    Middle,
    Top,
}

/// The part that goes on a rocket with `attached` parts: the middle on the
/// base, the top on the middle, nothing on a finished rocket.
pub open spec fn needed_part(attached: int) -> Option<PartType> {
    if attached == 1 {
        Some(PartType::Middle)
    } else if attached == 2 {
        Some(PartType::Top)
    } else {
        None
    }
}

/// The part a rocket with `attached` parts takes next.
pub fn next_part_needed(attached: usize) -> (r: Option<PartType>)
    ensures
        r == needed_part(attached as int),
{
    match attached {
        1 => Some(PartType::Middle),
        2 => Some(PartType::Top),
        _ => None,
    }
}

/// The rocket on its launch site: the parts on it, bottom first.
pub struct Rocket {
    pub parts_attached: Vec<PartType>,
}

impl Rocket {
    /// A rocket of its base alone.
    pub fn new() -> (r: Rocket)
        ensures
            r.parts_attached@ == seq![PartType::Base],
    {
        Rocket { parts_attached: vec![PartType::Base] }
    }

    /// Whether all three parts are on.
    pub fn assembled(&self) -> (r: bool)
        ensures
            r == (self.parts_attached@.len() == 3),
    {
        self.parts_attached.len() == 3
    }

    /// Puts `held` on the rocket if it is the part it needs next; returns
    /// whether it did.
    pub fn try_attach(&mut self, held: PartType) -> (attached: bool)
        ensures
            attached == (needed_part(old(self).parts_attached@.len() as int) == Some(held)),
            attached ==> final(self).parts_attached@ == old(self).parts_attached@.push(held),
            !attached ==> final(self).parts_attached@ == old(self).parts_attached@,
    {
        let next = next_part_needed(self.parts_attached.len());
        match next {
            Some(p) => {
                if p == held {
                    self.parts_attached.push(held);
                    true
                } else {
                    false
                }
            },
            None => false,
        }
    }
}

/// The rocket a build starts from gets its parts in order: base, middle,
/// top, and takes nothing after that.
pub proof fn lemma_rocket_order(parts: Seq<PartType>, held: PartType)
    requires
        parts == seq![PartType::Base] || parts == seq![PartType::Base, PartType::Middle] || parts == seq![
            PartType::Base,
            PartType::Middle,
            PartType::Top,
        ],
        needed_part(parts.len() as int) == Some(held),
    ensures
        parts.push(held) == seq![PartType::Base, PartType::Middle] || parts.push(held) == seq![
            PartType::Base,
            PartType::Middle,
            PartType::Top,
        ],
{
    if parts.len() == 1 {
        assert(parts.push(held) =~= seq![PartType::Base, PartType::Middle]);
    } else {
        assert(parts.push(held) =~= seq![PartType::Base, PartType::Middle, PartType::Top]);
    }
}

} // verus!
