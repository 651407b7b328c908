//! The second match-3 game: cascades multiply the points, and a table of
//! five named scores whose names are three characters picked one by one.

use vstd::prelude::*;
use crate::leaderboard::{add_ranked, qualifies, qualifies_spec, ranked_with};
use crate::match3::{
    cells, clear_listed, fill_without_matches, find_matches, gravity_step, gravity_step_grid, has_match,
    in_grid, is_full, is_match_list, lemma_matches_before_bound, match_at,
    match_count, same_cells, swap_cells, swap_in, swap_makes_match, has_any_match, Grid, COLS, ROWS,
};

verus! {

/// The number of animals.
pub const TILE_TYPES: u8 = 7;
/// Places kept in the high-score table.
pub const MAX_HIGH_SCORES: usize = 5;

/// A full board of tiles below `TILE_TYPES` without a match.
pub open spec fn fresh(g: Grid) -> bool {
    &&& is_full(cells(g))
    &&& forall|x: int, y: int| in_grid(x, y) ==> (#[trigger] g[y][x])->0 < TILE_TYPES
    &&& forall|x: int, y: int| in_grid(x, y) ==> !#[trigger] match_at(cells(g), x, y)
}

/// What the board does once the tiles have stopped falling.
#[derive(Clone, Copy, PartialEq, Eq, Structural, Debug)]
pub enum Settled {
    /// New matches formed: a further cascade clears this many tiles.
    Cascade(usize),
    /// The turn is over and the player moves again.
    Idle,
}

/// The board and the player's session.
pub struct Board {
    pub grid: Grid,
    pub score: u32,
    pub selected: Option<(usize, usize)>,
    pub high_scores: Vec<(String, u32)>,
    pub new_record: bool,
    /// The number of the cascade in progress: 1 for the match the player
    /// made, one more for each match the falling tiles make.
    pub combo_count: u32,
}

/// The table a first game starts with: five entries "---" with no points.
pub fn default_high_scores() -> (t: Vec<(String, u32)>)
    ensures
        t@.len() == MAX_HIGH_SCORES,
        forall|i: int| 0 <= i < t@.len() ==> (#[trigger] t@[i]).0@ == "---"@ && t@[i].1 == 0,
{
    let mut t: Vec<(String, u32)> = Vec::new();
    let mut i: usize = 0;
    while i < MAX_HIGH_SCORES
        invariant
            0 <= i <= MAX_HIGH_SCORES,
            t@.len() == i,
            forall|k: int| 0 <= k < t@.len() ==> (#[trigger] t@[k]).0@ == "---"@ && t@[k].1 == 0,
        decreases MAX_HIGH_SCORES - i,
    {
        t.push(("---".to_string(), 0));
        i += 1;
    }
    t
}

impl Board {
    /// A new session with a fresh board and the given high scores.
    pub fn new(high_scores: Vec<(String, u32)>) -> (b: Board)
        ensures
            fresh(b.grid),
            b.score == 0,
            b.selected is None,
            b.high_scores@ == high_scores@,
            !b.new_record,
            b.combo_count == 0,
    {
        let mut board = Board {
            grid: [[None; COLS]; ROWS],
            score: 0,
            selected: None,
            high_scores,
            new_record: false,
            combo_count: 0,
        };
        board.fill_initial();
        board
    }

    /// Whether the score earns a place in the table.
    pub fn qualifies_for_leaderboard(&self) -> (r: bool)
        ensures
            r == qualifies_spec(self.high_scores@, self.score, MAX_HIGH_SCORES as nat),
    {
        qualifies(&self.high_scores, self.score, MAX_HIGH_SCORES)
    }

    /// Enters `score` under `name`, records whether it beats the best score
    /// so far, and keeps the best five entries, highest first.
    pub fn add_to_leaderboard(&mut self, name: String, score: u32)
        ensures
            final(self).new_record == (old(self).high_scores@.len() == 0 || score > old(self).high_scores@[0].1),
            final(self).high_scores@ == ranked_with(old(self).high_scores@, (name, score), MAX_HIGH_SCORES as nat),
            *final(self) == (Board { high_scores: final(self).high_scores, new_record: final(self).new_record, ..*old(self) }),
    {
        self.new_record = if self.high_scores.len() == 0 {
            true
        } else {
            score > self.high_scores[0].1
        };
        let mut entries: Vec<(String, u32)> = Vec::new();
        std::mem::swap(&mut entries, &mut self.high_scores);
        self.high_scores = add_ranked(entries, (name, score), MAX_HIGH_SCORES);
    }

    /// Fills the board with random animals so that no match exists.
    pub fn fill_initial(&mut self)
        ensures
            fresh(final(self).grid),
            final(self).score == old(self).score,
            final(self).selected == old(self).selected,
            final(self).high_scores == old(self).high_scores,
            final(self).new_record == old(self).new_record,
            final(self).combo_count == old(self).combo_count,
    {
        fill_without_matches(&mut self.grid, TILE_TYPES);
    }

    /// Whether the tile at `(x, y)` is part of three or more in a row or a
    /// column.
    pub fn has_match_at(&self, x: usize, y: usize) -> (r: bool)
        requires
            x < COLS,
            y < ROWS,
        ensures
            r == match_at(cells(self.grid), x as int, y as int),
    {
        has_match(&self.grid, x, y)
    }

    /// Every cell that is part of a match, in row-major order.
    pub fn find_matches(&self) -> (m: Vec<(usize, usize)>)
        ensures
            is_match_list(cells(self.grid), m@),
            m@.len() == match_count(cells(self.grid)),
    {
        find_matches(&self.grid)
    }

    /// Empties every matched cell and scores ten points for each, times the
    /// cascade number. Returns the number of tiles cleared.
    pub fn clear_matches(&mut self) -> (n: usize)
        requires
            old(self).score + match_count(cells(old(self).grid)) * 10 * old(self).combo_count <= u32::MAX,
        ensures
            n == match_count(cells(old(self).grid)),
            forall|x: int, y: int|
                in_grid(x, y) ==> #[trigger] final(self).grid[y][x] == (if match_at(cells(old(self).grid), x, y) {
                    None
                } else {
                    old(self).grid[y][x]
                }),
            final(self).score == old(self).score + n * 10 * old(self).combo_count,
            *final(self) == (Board { grid: final(self).grid, score: final(self).score, ..*old(self) }),
    {
        let m = find_matches(&self.grid);
        proof {
            lemma_matches_before_bound(cells(self.grid), (COLS * ROWS) as int);
            assert(m@.len() * 10 * self.combo_count <= u32::MAX);
        }
        clear_listed(&mut self.grid, &m);
        self.score += m.len() as u32 * 10 * self.combo_count;
        m.len()
    }

    /// One step of falling tiles: each tile above an empty cell moves down
    /// a row, and each empty top cell receives a random animal. Returns
    /// whether anything moved or appeared.
    pub fn apply_gravity(&mut self) -> (moved: bool)
        ensures
            gravity_step(cells(old(self).grid), cells(final(self).grid), TILE_TYPES as int),
            moved == !is_full(cells(old(self).grid)),
            *final(self) == (Board { grid: final(self).grid, ..*old(self) }),
    {
        gravity_step_grid(&mut self.grid, TILE_TYPES)
    }

    /// Exchanges two tiles.
    pub fn swap(&mut self, x1: usize, y1: usize, x2: usize, y2: usize)
        requires
            x1 < COLS,
            y1 < ROWS,
            x2 < COLS,
            y2 < ROWS,
        ensures
            same_cells(cells(final(self).grid), swap_cells(cells(old(self).grid), x1 as int, y1 as int, x2 as int, y2 as int)),
            *final(self) == (Board { grid: final(self).grid, ..*old(self) }),
    {
        swap_in(&mut self.grid, x1, y1, x2, y2);
    }

    /// Starts the swap of two tiles the player asked for. The board is left
    /// as it is while the swap is shown; the result says whether the swap
    /// must be taken back because it makes no match. A swap that makes a
    /// match starts a cascade numbered 1; otherwise no cascade is under way.
    pub fn try_swap(&mut self, x1: usize, y1: usize, x2: usize, y2: usize) -> (revert: bool)
        requires
            x1 < COLS,
            y1 < ROWS,
            x2 < COLS,
            y2 < ROWS,
        ensures
            revert == !has_any_match(swap_cells(cells(old(self).grid), x1 as int, y1 as int, x2 as int, y2 as int)),
            same_cells(cells(final(self).grid), cells(old(self).grid)),
            final(self).combo_count == (if revert {
                0u32
            } else {
                1u32
            }),
            *final(self) == (Board { grid: final(self).grid, combo_count: final(self).combo_count, ..*old(self) }),
    {
        let revert = !swap_makes_match(&self.grid, x1, y1, x2, y2);
        self.combo_count = if revert {
            0
        } else {
            1
        };
        revert
    }

    /// Plays out a swap once it has been shown: the two tiles change places,
    /// and a swap that makes no match is taken back.
    pub fn finish_swap(&mut self, x1: usize, y1: usize, x2: usize, y2: usize, revert: bool)
        requires
            x1 < COLS,
            y1 < ROWS,
            x2 < COLS,
            y2 < ROWS,
        ensures
            revert ==> same_cells(cells(final(self).grid), cells(old(self).grid)),
            !revert ==> same_cells(
                cells(final(self).grid),
                swap_cells(cells(old(self).grid), x1 as int, y1 as int, x2 as int, y2 as int),
            ),
            *final(self) == (Board { grid: final(self).grid, ..*old(self) }),
    {
        swap_in(&mut self.grid, x1, y1, x2, y2);
        if revert {
            swap_in(&mut self.grid, x1, y1, x2, y2);
        }
    }

    /// Decides what follows once the tiles have stopped falling: new matches
    /// start a further cascade, counted in `combo_count`; otherwise the turn
    /// is over and the cascade count returns to zero.
    pub fn settle(&mut self) -> (r: Settled)
        requires
            old(self).combo_count < u32::MAX,
        ensures
            match_count(cells(old(self).grid)) > 0 ==> r == Settled::Cascade(match_count(cells(old(self).grid)) as usize)
                && final(self).combo_count == old(self).combo_count + 1,
            match_count(cells(old(self).grid)) == 0 ==> r == Settled::Idle && final(self).combo_count == 0,
            *final(self) == (Board { combo_count: final(self).combo_count, ..*old(self) }),
    {
        let m = find_matches(&self.grid);
        if m.len() == 0 {
            self.combo_count = 0;
            Settled::Idle
        } else {
            self.combo_count += 1;
            Settled::Cascade(m.len())
        }
    }
}

/// The name character at place `i` (0 to 39) of the cycling order: the
/// letters A to Z, the digits 0 to 9, then space, full stop, exclamation
/// and question marks.
pub open spec fn entry_char(i: int) -> char {
    if 0 <= i < 26 {
        (65 + i) as char
    } else if 26 <= i < 36 {
        (48 + i - 26) as char
    } else if i == 36 {
        ' '
    } else if i == 37 {
        '.'
    } else if i == 38 {
        '!'
    } else {
        '?'
    }
}

/// Whether `c` is one of the name characters.
pub open spec fn is_entry_char(c: char) -> bool {
    let v = c as int;
    (65 <= v <= 90) || (48 <= v <= 57) || c == ' ' || c == '.' || c == '!' || c == '?'
}

/// The place of `c` in the cycling order; 0 for a character that is not a
/// name character.
pub open spec fn entry_pos(c: char) -> int {
    let v = c as int;
    if 65 <= v <= 90 {
        v - 65
    } else if 48 <= v <= 57 {
        v - 48 + 26
    } else if c == ' ' {
        36
    } else if c == '.' {
        37
    } else if c == '!' {
        38
    } else if c == '?' {
        39
    } else {
        0
    }
}

/// A name character sits at its place, and no other place holds it.
pub proof fn lemma_entry_pos(i: int)
    requires
        0 <= i < 40,
    ensures
        is_entry_char(entry_char(i)),
        entry_pos(entry_char(i)) == i,
{
}

/// The name characters as an array.
fn entry_chars_array() -> (a: [char; 40])
    ensures
        forall|i: int| 0 <= i < 40 ==> #[trigger] a@[i] == entry_char(i),
{
    let a = [
        'A', 'B', 'C', 'D', 'E', 'F', 'G', 'H', 'I', 'J', 'K', 'L', 'M', 'N', 'O', 'P', 'Q', 'R', 'S', 'T',
        'U', 'V', 'W', 'X', 'Y', 'Z', '0', '1', '2', '3', '4', '5', '6', '7', '8', '9', ' ', '.', '!', '?',
    ];
    a
}

/// The character after `c` (`up`) or before it in the cycling order of the
/// name characters, going round at either end; a character that is not one
/// of them counts as the first.
pub fn cycle_char(c: char, up: bool) -> (r: char)
    ensures
        r == entry_char(if up {
            (entry_pos(c) + 1) % 40
        } else {
            (entry_pos(c) + 39) % 40
        }),
{
    let chars = entry_chars_array();
    let mut pos: usize = 0;
    let mut i: usize = 0;
    let mut found = false;
    while i < 40 && !found
        invariant
            0 <= i <= 40,
            forall|k: int| 0 <= k < 40 ==> #[trigger] chars@[k] == entry_char(k),
            !found ==> pos == 0 && forall|k: int| 0 <= k < i ==> entry_char(k) != c,
            found ==> pos < 40 && entry_char(pos as int) == c,
        decreases 40 - i + if found { 0int } else { 1int },
    {
        if chars[i] == c {
            pos = i;
            found = true;
        } else {
            i += 1;
        }
    }
    proof {
        if found {
            lemma_entry_pos(pos as int);
        } else if is_entry_char(c) {
            let k = entry_pos(c);
            assert(entry_char(k) == c);
        }
    }
    if up {
        chars[(pos + 1) % 40]
    } else {
        chars[(pos + 39) % 40]
    }
}

/// Cycling a name character one way and then back gives it again.
pub proof fn lemma_cycle_round_trip(c: char)
    requires
        is_entry_char(c),
    ensures
        entry_char((entry_pos(entry_char((entry_pos(c) + 1) % 40)) + 39) % 40) == c,
        entry_char((entry_pos(entry_char((entry_pos(c) + 39) % 40)) + 1) % 40) == c,
{
    let p = entry_pos(c);
    assert(0 <= p < 40);
    lemma_entry_pos((p + 1) % 40);
    lemma_entry_pos((p + 39) % 40);
    assert(entry_char(p) == c);
}

} // verus!
