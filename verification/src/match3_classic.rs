//! The first match-3 game: seven animals, ten points a tile, and a table of
//! the five best scores.

use vstd::prelude::*;
use crate::leaderboard::{add_ranked, qualifies, qualifies_spec, ranked_with, sort_by_score, sort_ranked};
use crate::match3::{
    cells, clear_listed, fill_without_matches, find_matches, gravity_step, gravity_step_grid, has_match,
    in_grid, is_full, is_match_list, lemma_matches_before_bound, match_at, match_count, same_cells, swap_cells,
    swap_in, swap_makes_match, has_any_match, Grid, COLS, ROWS,
};

verus! {

/// The number of animals.
pub const TILE_TYPES: u8 = 7;
/// Places kept in the high-score table.
pub const MAX_HIGH_SCORES: usize = 5;
/// Points for each tile cleared.
pub const POINTS_PER_TILE: u32 = 10;

/// A full board of tiles below `TILE_TYPES` without a match.
pub open spec fn fresh(g: Grid) -> bool {
    &&& is_full(cells(g))
    &&& forall|x: int, y: int| in_grid(x, y) ==> (#[trigger] g[y][x])->0 < TILE_TYPES
    &&& forall|x: int, y: int| in_grid(x, y) ==> !#[trigger] match_at(cells(g), x, y)
}

/// The board and the player's session.
pub struct Board {
    pub grid: Grid,
    pub score: u32,
    pub selected: Option<(usize, usize)>,
    pub high_scores: Vec<u32>,
    pub new_record: bool,
}

/// The stored high scores as the table shows them: highest first.
pub fn sort_high_scores(loaded: Vec<u32>) -> (r: Vec<u32>)
    ensures
        r@ == sort_by_score(loaded@),
{
    sort_ranked(loaded)
}

impl Board {
    /// A new session with a fresh board and the given high scores.
    pub fn new(high_scores: Vec<u32>) -> (b: Board)
        ensures
            fresh(b.grid),
            b.score == 0,
            b.selected is None,
            b.high_scores@ == high_scores@,
            !b.new_record,
    {
        let mut board = Board {
            grid: [[None; COLS]; ROWS],
            score: 0,
            selected: None,
            high_scores,
            new_record: false,
        };
        board.fill_initial();
        board
    }

    /// Enters the score into the table if it beats an entry or the table has
    /// room: the table keeps its five best scores, highest first, and
    /// `new_record` tells whether the score beats the best one so far.
    /// Returns whether the table changed (and is to be stored).
    pub fn update_leaderboard(&mut self) -> (entered: bool)
        ensures
            entered == qualifies_spec(old(self).high_scores@, old(self).score, MAX_HIGH_SCORES as nat),
            entered ==> final(self).high_scores@ == ranked_with(
                old(self).high_scores@,
                old(self).score,
                MAX_HIGH_SCORES as nat,
            ) && final(self).new_record == (old(self).high_scores@.len() == 0 || old(self).score
                > old(self).high_scores@[0]),
            !entered ==> final(self).high_scores == old(self).high_scores && final(self).new_record
                == old(self).new_record,
            *final(self) == (Board { high_scores: final(self).high_scores, new_record: final(self).new_record, ..*old(self) }),
    {
        if !qualifies(&self.high_scores, self.score, MAX_HIGH_SCORES) {
            return false;
        }
        self.new_record = if self.high_scores.len() == 0 {
            true
        } else {
            self.score > self.high_scores[0]
        };
        let mut entries: Vec<u32> = Vec::new();
        std::mem::swap(&mut entries, &mut self.high_scores);
        self.high_scores = add_ranked(entries, self.score, MAX_HIGH_SCORES);
        true
    }

    /// Fills the board with random animals so that no match exists.
    pub fn fill_initial(&mut self)
        ensures
            fresh(final(self).grid),
            final(self).score == old(self).score,
            final(self).selected == old(self).selected,
            final(self).high_scores == old(self).high_scores,
            final(self).new_record == old(self).new_record,
    {
        fill_without_matches(&mut self.grid, TILE_TYPES);
    }

    /// Whether the tile at `(x, y)` is part of three or more in a row or a
    /// column.
    pub fn has_match_at(&self, x: usize, y: usize) -> (r: bool)
        requires
            x < COLS,
            y < ROWS,
        ensures
            r == match_at(cells(self.grid), x as int, y as int),
    {
        has_match(&self.grid, x, y)
    }

    /// Every cell that is part of a match, in row-major order.
    pub fn find_matches(&self) -> (m: Vec<(usize, usize)>)
        ensures
            is_match_list(cells(self.grid), m@),
            m@.len() == match_count(cells(self.grid)),
    {
        find_matches(&self.grid)
    }

    /// Empties every matched cell and scores ten points for each. Returns
    /// the number of tiles cleared (none when nothing matched).
    pub fn clear_matches(&mut self) -> (n: usize)
        requires
            old(self).score + match_count(cells(old(self).grid)) * 10 <= u32::MAX,
        ensures
            n == match_count(cells(old(self).grid)),
            forall|x: int, y: int|
                in_grid(x, y) ==> #[trigger] final(self).grid[y][x] == (if match_at(cells(old(self).grid), x, y) {
                    None
                } else {
                    old(self).grid[y][x]
                }),
            final(self).score == old(self).score + n * POINTS_PER_TILE,
            *final(self) == (Board { grid: final(self).grid, score: final(self).score, ..*old(self) }),
    {
        let m = find_matches(&self.grid);
        proof {
            lemma_matches_before_bound(cells(self.grid), (COLS * ROWS) as int);
        }
        if m.len() == 0 {
            return 0;
        }
        clear_listed(&mut self.grid, &m);
        self.score += m.len() as u32 * POINTS_PER_TILE;
        m.len()
    }

    /// One step of falling tiles: each tile above an empty cell moves down
    /// a row, and each empty top cell receives a random animal. Returns
    /// whether anything moved or appeared.
    pub fn apply_gravity(&mut self) -> (moved: bool)
        ensures
            gravity_step(cells(old(self).grid), cells(final(self).grid), TILE_TYPES as int),
            moved == !is_full(cells(old(self).grid)),
            *final(self) == (Board { grid: final(self).grid, ..*old(self) }),
    {
        gravity_step_grid(&mut self.grid, TILE_TYPES)
    }

    /// Exchanges two tiles.
    pub fn swap(&mut self, x1: usize, y1: usize, x2: usize, y2: usize)
        requires
            x1 < COLS,
            y1 < ROWS,
            x2 < COLS,
            y2 < ROWS,
        ensures
            same_cells(cells(final(self).grid), swap_cells(cells(old(self).grid), x1 as int, y1 as int, x2 as int, y2 as int)),
            *final(self) == (Board { grid: final(self).grid, ..*old(self) }),
    {
        swap_in(&mut self.grid, x1, y1, x2, y2);
    }

    /// Starts the swap of two tiles the player asked for. The board is left
    /// as it is while the swap is shown; the result says whether the swap
    /// must be taken back because it makes no match.
    pub fn try_swap(&self, x1: usize, y1: usize, x2: usize, y2: usize) -> (revert: bool)
        requires
            x1 < COLS,
            y1 < ROWS,
            x2 < COLS,
            y2 < ROWS,
        ensures
            revert == !has_any_match(swap_cells(cells(self.grid), x1 as int, y1 as int, x2 as int, y2 as int)),
    {
        !swap_makes_match(&self.grid, x1, y1, x2, y2)
    }

    /// Plays out a swap once it has been shown: the two tiles change places,
    /// and a swap that makes no match is taken back.
    pub fn finish_swap(&mut self, x1: usize, y1: usize, x2: usize, y2: usize, revert: bool)
        requires
            x1 < COLS,
            y1 < ROWS,
            x2 < COLS,
            y2 < ROWS,
        ensures
            revert ==> same_cells(cells(final(self).grid), cells(old(self).grid)),
            !revert ==> same_cells(
                cells(final(self).grid),
                swap_cells(cells(old(self).grid), x1 as int, y1 as int, x2 as int, y2 as int),
            ),
            *final(self) == (Board { grid: final(self).grid, ..*old(self) }),
    {
        swap_in(&mut self.grid, x1, y1, x2, y2);
        if revert {
            swap_in(&mut self.grid, x1, y1, x2, y2);
        }
    }
}

} // verus!
