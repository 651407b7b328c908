//! The match-3 board: an 8x8 grid of animal tiles in which three or more equal
//! tiles in a row or column form a match.

use vstd::prelude::*;
use crate::rng::rand_u32;
use crate::leaderboard::{add_ranked, qualifies, qualifies_spec, ranked_with, Ranked};
use crate::text::{trim_name, trimmed};
use crate::permutation::{lemma_swapped_multiset, swapped};

verus! {

/// The grid width.
pub const COLS: usize = 8;
/// The grid height.
pub const ROWS: usize = 8;

/// Rows of cells, `grid[y][x]`; `None` is an empty cell.
pub type Grid = [[Option<u8>; COLS]; ROWS];

/// A grid seen as a function from column and row to the cell.
pub type Cells = spec_fn(int, int) -> Option<u8>;

/// The cell `(x, y)` lies on the board.
pub open spec fn in_grid(x: int, y: int) -> bool {
    0 <= x < COLS && 0 <= y < ROWS
}

/// The cells of a grid.
pub open spec fn cells(g: Grid) -> Cells {
    |x: int, y: int| g[y][x]
}

/// Cells `(s, y)`, `(s + 1, y)`, `(s + 2, y)` lie on the grid and all hold `t`.
pub open spec fn h_three(c: Cells, s: int, y: int, t: Option<u8>) -> bool {
    &&& 0 <= s
    &&& s + 2 < COLS
    &&& c(s, y) == t
    &&& c(s + 1, y) == t
    &&& c(s + 2, y) == t
}

/// Cells `(x, s)`, `(x, s + 1)`, `(x, s + 2)` lie on the grid and all hold `t`.
pub open spec fn v_three(c: Cells, x: int, s: int, t: Option<u8>) -> bool {
    &&& 0 <= s
    &&& s + 2 < ROWS
    &&& c(x, s) == t
    &&& c(x, s + 1) == t
    &&& c(x, s + 2) == t
}

/// The tile at `(x, y)` is part of a line of three equal tiles, horizontal or
/// vertical.
pub open spec fn match_at(c: Cells, x: int, y: int) -> bool {
    let t = c(x, y);
    &&& t is Some
    &&& {
        ||| h_three(c, x - 2, y, t)
        ||| h_three(c, x - 1, y, t)
        ||| h_three(c, x, y, t)
        ||| v_three(c, x, y - 2, t)
        ||| v_three(c, x, y - 1, t)
        ||| v_three(c, x, y, t)
    }
}

/// Some cell of the board is part of a match.
pub open spec fn has_any_match(c: Cells) -> bool {
    exists|x: int, y: int| in_grid(x, y) && #[trigger] match_at(c, x, y)
}

/// Row-major position of a cell.
pub open spec fn pos_index(p: (usize, usize)) -> int {
    p.1 * COLS + p.0
}

/// `m` lists, in row-major order and once each, exactly the cells of the grid
/// that are part of a match.
pub open spec fn is_match_list(c: Cells, m: Seq<(usize, usize)>) -> bool {
    &&& forall|i: int|
        0 <= i < m.len() ==> in_grid(#[trigger] m[i].0 as int, m[i].1 as int) && match_at(
            c,
            m[i].0 as int,
            m[i].1 as int,
        )
    &&& forall|i: int, j: int| 0 <= i < j < m.len() ==> pos_index(#[trigger] m[i]) < pos_index(#[trigger] m[j])
    &&& forall|x: int, y: int|
        in_grid(x, y) && #[trigger] match_at(c, x, y) ==> exists|i: int|
            0 <= i < m.len() && #[trigger] m[i] == (x as usize, y as usize)
}

/// Checks whether the tile at `(x, y)` is part of a line of three or more.
pub fn has_match(g: &Grid, x: usize, y: usize) -> (r: bool)
    requires
        x < COLS,
        y < ROWS,
    ensures
        r == match_at(cells(*g), x as int, y as int),
{
    let tile = g[y][x];
    if tile.is_none() {
        return false;
    }
    // Horizontal run through (x, y).
    let mut h_count: i32 = 1;
    let mut cx: i32 = x as i32 - 1;
    while cx >= 0 && g[y][cx as usize] == tile
        invariant
            x < COLS,
            y < ROWS,
            tile == g[y as int][x as int],
            -1 <= cx < x,
            h_count == x - cx,
            forall|i: int| cx < i <= x ==> g[y as int][i] == tile,
        decreases cx + 1,
    {
        h_count += 1;
        cx -= 1;
    }
    let lo = cx;
    cx = x as i32 + 1;
    while cx < COLS as i32 && g[y][cx as usize] == tile
        invariant
            x < COLS,
            y < ROWS,
            tile == g[y as int][x as int],
            -1 <= lo < x,
            lo >= 0 ==> g[y as int][lo as int] != tile,
            x < cx <= COLS,
            h_count == cx - lo - 1,
            forall|i: int| lo < i < cx ==> g[y as int][i] == tile,
        decreases COLS - cx,
    {
        h_count += 1;
        cx += 1;
    }
    let ghost c = cells(*g);
    assert(h_count >= 3 <==> (h_three(c, x - 2, y as int, tile) || h_three(c, x - 1, y as int, tile)
        || h_three(c, x as int, y as int, tile)));
    if h_count >= 3 {
        return true;
    }
    // Vertical run through (x, y).
    let mut v_count: i32 = 1;
    let mut cy: i32 = y as i32 - 1;
    while cy >= 0 && g[cy as usize][x] == tile
        invariant
            x < COLS,
            y < ROWS,
            tile == g[y as int][x as int],
            -1 <= cy < y,
            v_count == y - cy,
            forall|i: int| cy < i <= y ==> g[i][x as int] == tile,
        decreases cy + 1,
    {
        v_count += 1;
        cy -= 1;
    }
    let lo = cy;
    cy = y as i32 + 1;
    while cy < ROWS as i32 && g[cy as usize][x] == tile
        invariant
            x < COLS,
            y < ROWS,
            tile == g[y as int][x as int],
            -1 <= lo < y,
            lo >= 0 ==> g[lo as int][x as int] != tile,
            y < cy <= ROWS,
            v_count == cy - lo - 1,
            forall|i: int| lo < i < cy ==> g[i][x as int] == tile,
        decreases ROWS - cy,
    {
        v_count += 1;
        cy += 1;
    }
    assert(v_count >= 3 <==> (v_three(c, x as int, y - 2, tile) || v_three(c, x as int, y - 1, tile)
        || v_three(c, x as int, y as int, tile)));
    v_count >= 3
}

/// The number of match cells among the first `k` cells in row-major order.
pub open spec fn matches_before(c: Cells, k: int) -> nat
    decreases k,
{
    if k <= 0 {
        0
    } else {
        matches_before(c, k - 1) + if match_at(c, (k - 1) % (COLS as int), (k - 1) / (COLS as int)) {
            1nat
        } else {
            0nat
        }
    }
}

pub(crate) proof fn lemma_matches_before_bound(c: Cells, k: int)
    ensures
        matches_before(c, k) <= if k < 0 { 0 } else { k },
    decreases k,
{
    if k > 0 {
        lemma_matches_before_bound(c, k - 1);
    }
}

/// The number of cells of the board that are part of a match.
pub open spec fn match_count(c: Cells) -> nat {
    matches_before(c, (COLS * ROWS) as int)
}

/// Lists every cell that is part of a match, in row-major order.
pub fn find_matches(g: &Grid) -> (m: Vec<(usize, usize)>)
    ensures
        is_match_list(cells(*g), m@),
        m@.len() == match_count(cells(*g)),
{
    let ghost c = cells(*g);
    let mut m: Vec<(usize, usize)> = Vec::new();
    for y in 0..ROWS
        invariant
            c == cells(*g),
            m@.len() == matches_before(c, y * COLS),
            forall|i: int|
                0 <= i < m.len() ==> in_grid(#[trigger] m@[i].0 as int, m@[i].1 as int) && match_at(
                    c,
                    m@[i].0 as int,
                    m@[i].1 as int,
                ) && pos_index(m@[i]) < y * COLS,
            forall|i: int, j: int| 0 <= i < j < m.len() ==> pos_index(#[trigger] m@[i]) < pos_index(#[trigger] m@[j]),
            forall|px: int, py: int|
                in_grid(px, py) && py < y && #[trigger] match_at(c, px, py) ==> exists|i: int|
                    0 <= i < m.len() && #[trigger] m@[i] == (px as usize, py as usize),
    {
        for x in 0..COLS
            invariant
                y < ROWS,
                c == cells(*g),
                m@.len() == matches_before(c, y * COLS + x),
                forall|i: int|
                    0 <= i < m.len() ==> in_grid(#[trigger] m@[i].0 as int, m@[i].1 as int) && match_at(
                        c,
                        m@[i].0 as int,
                        m@[i].1 as int,
                    ) && pos_index(m@[i]) < y * COLS + x,
                forall|i: int, j: int| 0 <= i < j < m.len() ==> pos_index(#[trigger] m@[i]) < pos_index(#[trigger] m@[j]),
                forall|px: int, py: int|
                    in_grid(px, py) && (py < y || (py == y && px < x)) && #[trigger] match_at(c, px, py) ==> exists|i: int|
                        0 <= i < m.len() && #[trigger] m@[i] == (px as usize, py as usize),
        {
            let ghost k = y * COLS + x;
            assert(k % (COLS as int) == x && k / (COLS as int) == y) by (nonlinear_arith)
                requires
                    k == y * 8 + x,
                    x < 8,
            ;
            if has_match(g, x, y) {
                let ghost old_m = m@;
                m.push((x, y));
                assert forall|px: int, py: int|
                    in_grid(px, py) && (py < y || (py == y && px < x + 1)) && #[trigger] match_at(c, px, py) implies exists|i: int|
                        0 <= i < m.len() && #[trigger] m@[i] == (px as usize, py as usize) by {
                    if py == y && px == x {
                        assert(m@[m.len() - 1] == (px as usize, py as usize));
                    } else {
                        let i = choose|i: int| 0 <= i < old_m.len() && #[trigger] old_m[i] == (px as usize, py as usize);
                        assert(m@[i] == old_m[i]);
                    }
                }
            }
        }
    }
    m
}


/// The cells after exchanging `(x1, y1)` and `(x2, y2)`.
pub open spec fn swap_cells(c: Cells, x1: int, y1: int, x2: int, y2: int) -> Cells {
    |x: int, y: int|
        if x == x1 && y == y1 {
            c(x2, y2)
        } else if x == x2 && y == y2 {
            c(x1, y1)
        } else {
            c(x, y)
        }
}

/// Swapping `(x, y)` with its right neighbour creates a match at one of the two cells.
pub open spec fn move_right(c: Cells, x: int, y: int) -> bool {
    &&& x + 1 < COLS
    &&& {
        let s = swap_cells(c, x, y, x + 1, y);
        match_at(s, x, y) || match_at(s, x + 1, y)
    }
}

/// Swapping `(x, y)` with the cell below creates a match at one of the two cells.
pub open spec fn move_down(c: Cells, x: int, y: int) -> bool {
    &&& y + 1 < ROWS
    &&& {
        let s = swap_cells(c, x, y, x, y + 1);
        match_at(s, x, y) || match_at(s, x, y + 1)
    }
}

/// The number of matching swaps counted over the first `k` cells in row-major
/// order, each cell trying its right neighbour and the cell below.
pub open spec fn moves_before(c: Cells, k: int) -> nat
    decreases k,
{
    if k <= 0 {
        0
    } else {
        let x = (k - 1) % (COLS as int);
        let y = (k - 1) / (COLS as int);
        moves_before(c, k - 1) + (if move_right(c, x, y) { 1nat } else { 0nat }) + (if move_down(c, x, y) { 1nat } else { 0nat })
    }
}

/// The number of adjacent swaps on the board that would create a match.
pub open spec fn available_moves(c: Cells) -> nat {
    moves_before(c, (COLS * ROWS) as int)
}

/// Two views of a grid that agree on every cell of the board.
pub open spec fn same_cells(c1: Cells, c2: Cells) -> bool {
    forall|x: int, y: int| in_grid(x, y) ==> #[trigger] c1(x, y) == c2(x, y)
}

/// Whether a cell is part of a match depends only on the cells of the board.
pub proof fn lemma_match_at_same_cells(c1: Cells, c2: Cells, x: int, y: int)
    requires
        same_cells(c1, c2),
        in_grid(x, y),
    ensures
        match_at(c1, x, y) == match_at(c2, x, y),
{
    assert(c1(x, y) == c2(x, y));
    assert(c1(x - 2, y) == c2(x - 2, y) || !in_grid(x - 2, y));
    assert(c1(x - 1, y) == c2(x - 1, y) || !in_grid(x - 1, y));
    assert(c1(x + 1, y) == c2(x + 1, y) || !in_grid(x + 1, y));
    assert(c1(x + 2, y) == c2(x + 2, y) || !in_grid(x + 2, y));
    assert(c1(x, y - 2) == c2(x, y - 2) || !in_grid(x, y - 2));
    assert(c1(x, y - 1) == c2(x, y - 1) || !in_grid(x, y - 1));
    assert(c1(x, y + 1) == c2(x, y + 1) || !in_grid(x, y + 1));
    assert(c1(x, y + 2) == c2(x, y + 2) || !in_grid(x, y + 2));
}

/// Exchanges two cells of a grid.
pub(crate) fn swap_in(g: &mut Grid, x1: usize, y1: usize, x2: usize, y2: usize)
    requires
        x1 < COLS,
        y1 < ROWS,
        x2 < COLS,
        y2 < ROWS,
    ensures
        same_cells(cells(*final(g)), swap_cells(cells(*old(g)), x1 as int, y1 as int, x2 as int, y2 as int)),
{
    let tmp = g[y1][x1];
    g[y1][x1] = g[y2][x2];
    g[y2][x2] = tmp;
}

/// Whether exchanging the tiles at `(x1, y1)` and `(x2, y2)` would leave a
/// match somewhere on the board.
pub fn swap_makes_match(g: &Grid, x1: usize, y1: usize, x2: usize, y2: usize) -> (r: bool)
    requires
        x1 < COLS,
        y1 < ROWS,
        x2 < COLS,
        y2 < ROWS,
    ensures
        r == has_any_match(swap_cells(cells(*g), x1 as int, y1 as int, x2 as int, y2 as int)),
{
    let ghost sw = swap_cells(cells(*g), x1 as int, y1 as int, x2 as int, y2 as int);
    let mut t = *g;
    swap_in(&mut t, x1, y1, x2, y2);
    let m = find_matches(&t);
    proof {
        let c1 = cells(t);
        if m.len() == 0 {
            assert forall|x: int, y: int| in_grid(x, y) implies !#[trigger] match_at(sw, x, y) by {
                lemma_match_at_same_cells(c1, sw, x, y);
            }
        } else {
            let (x, y) = (m@[0].0 as int, m@[0].1 as int);
            assert(in_grid(x, y) && match_at(c1, x, y));
            lemma_match_at_same_cells(c1, sw, x, y);
        }
    }
    m.len() > 0
}

/// Each tile of a line of three equal tiles is part of a match.
proof fn lemma_line_tiles_match(s: Cells, x: int, y: int, horizontal: bool)
    requires
        s(x, y) is Some,
        horizontal ==> h_three(s, x, y, s(x, y)),
        !horizontal ==> v_three(s, x, y, s(x, y)),
    ensures
        horizontal ==> match_at(s, x, y) && match_at(s, x + 1, y) && match_at(s, x + 2, y),
        !horizontal ==> match_at(s, x, y) && match_at(s, x, y + 1) && match_at(s, x, y + 2),
{
}

/// On a board without a match, a swap can only create matches that run
/// through one of the two swapped tiles.
proof fn lemma_swap_match_through_swapped(c: Cells, x1: int, y1: int, x2: int, y2: int, a: int, b: int)
    requires
        in_grid(x1, y1),
        in_grid(x2, y2),
        in_grid(a, b),
        forall|x: int, y: int| in_grid(x, y) ==> !#[trigger] match_at(c, x, y),
        match_at(swap_cells(c, x1, y1, x2, y2), a, b),
    ensures
        match_at(swap_cells(c, x1, y1, x2, y2), x1, y1) || match_at(swap_cells(c, x1, y1, x2, y2), x2, y2),
{
    let s = swap_cells(c, x1, y1, x2, y2);
    let t = s(a, b);
    assert(!match_at(c, a, b));
    if h_three(s, a - 2, b, t) {
        lemma_line_tiles_match(s, a - 2, b, true);
    } else if h_three(s, a - 1, b, t) {
        lemma_line_tiles_match(s, a - 1, b, true);
    } else if h_three(s, a, b, t) {
        lemma_line_tiles_match(s, a, b, true);
    } else if v_three(s, a, b - 2, t) {
        lemma_line_tiles_match(s, a, b - 2, false);
    } else if v_three(s, a, b - 1, t) {
        lemma_line_tiles_match(s, a, b - 1, false);
    } else {
        lemma_line_tiles_match(s, a, b, false);
    }
}

proof fn lemma_no_moves_counted(c: Cells, k: int)
    requires
        0 <= k <= COLS * ROWS,
        moves_before(c, k) == 0,
    ensures
        forall|i: int|
            0 <= i < k ==> !move_right(c, #[trigger] (i % (COLS as int)), i / (COLS as int)) && !move_down(
                c,
                i % (COLS as int),
                i / (COLS as int),
            ),
    decreases k,
{
    if k > 0 {
        lemma_no_moves_counted(c, k - 1);
    }
}

/// A settled board with no move counted is stuck: on a board without a
/// match, when `available_moves` is zero, no swap of two neighbouring tiles,
/// across or down, leaves a match anywhere.
pub proof fn lemma_no_moves_means_stuck(c: Cells, x1: int, y1: int, x2: int, y2: int)
    requires
        forall|x: int, y: int| in_grid(x, y) ==> !#[trigger] match_at(c, x, y),
        available_moves(c) == 0,
        in_grid(x1, y1),
        in_grid(x2, y2),
        (x2 == x1 + 1 && y2 == y1) || (x2 == x1 && y2 == y1 + 1),
    ensures
        !has_any_match(swap_cells(c, x1, y1, x2, y2)),
{
    lemma_no_moves_counted(c, (COLS * ROWS) as int);
    let i = y1 * (COLS as int) + x1;
    assert(0 <= i < 64 && i % 8 == x1 && i / 8 == y1) by (nonlinear_arith)
        requires
            i == y1 * 8 + x1,
            0 <= x1 < 8,
            0 <= y1 < 8,
    ;
    assert(!move_right(c, i % (COLS as int), i / (COLS as int)));
    let s = swap_cells(c, x1, y1, x2, y2);
    if has_any_match(s) {
        let (a, b) = choose|a: int, b: int| in_grid(a, b) && #[trigger] match_at(s, a, b);
        lemma_swap_match_through_swapped(c, x1, y1, x2, y2, a, b);
        if x2 == x1 + 1 {
            assert(move_right(c, x1, y1));
        } else {
            assert(move_down(c, x1, y1));
        }
    }
}

/// Counts the adjacent swaps (with the right neighbour and with the cell
/// below) that would create a match.
pub fn count_moves(g: &Grid) -> (n: usize)
    ensures
        n == available_moves(cells(*g)),
{
    let ghost c = cells(*g);
    let mut moves: usize = 0;
    for y in 0..ROWS
        invariant
            c == cells(*g),
            moves == moves_before(c, y * COLS),
            moves <= 2 * y * COLS,
    {
        for x in 0..COLS
            invariant
                y < ROWS,
                c == cells(*g),
                moves == moves_before(c, y * COLS + x),
                moves <= 2 * (y * COLS + x),
        {
            let ghost k = y * COLS + x;
            assert(k % (COLS as int) == x && k / (COLS as int) == y) by (nonlinear_arith)
                requires
                    k == y * 8 + x,
                    x < 8,
            ;
            if x + 1 < COLS {
                let mut t = *g;
                swap_in(&mut t, x, y, x + 1, y);
                let ghost s = swap_cells(c, x as int, y as int, x + 1, y as int);
                proof {
                    lemma_match_at_same_cells(cells(t), s, x as int, y as int);
                    lemma_match_at_same_cells(cells(t), s, x + 1, y as int);
                }
                if has_match(&t, x, y) || has_match(&t, x + 1, y) {
                    moves += 1;
                }
            }
            let ghost mid = moves;
            assert(mid == moves_before(c, k) + (if move_right(c, x as int, y as int) { 1nat } else { 0nat }));
            if y + 1 < ROWS {
                let mut t = *g;
                swap_in(&mut t, x, y, x, y + 1);
                let ghost s = swap_cells(c, x as int, y as int, x as int, y + 1);
                proof {
                    lemma_match_at_same_cells(cells(t), s, x as int, y as int);
                    lemma_match_at_same_cells(cells(t), s, x as int, y + 1);
                }
                if has_match(&t, x, y) || has_match(&t, x, y + 1) {
                    moves += 1;
                }
            }
            assert(moves == moves_before(c, k + 1));
        }
    }
    moves
}


/// Column `x` holds an empty cell at row `y` or below.
pub open spec fn gap_from(c: Cells, x: int, y: int) -> bool
    decreases ROWS - y,
{
    if y < 0 || y >= ROWS {
        false
    } else {
        c(x, y) is None || gap_from(c, x, y + 1)
    }
}

/// The cell `(x, y)` after one gravity step, before new tiles enter at the top:
/// every tile with an empty cell somewhere below it moves down by one row.
pub open spec fn fallen(c: Cells, x: int, y: int) -> Option<u8> {
    if y > 0 && c(x, y - 1) is Some && gap_from(c, x, y) {
        c(x, y - 1)
    } else if c(x, y) is Some && !gap_from(c, x, y + 1) {
        c(x, y)
    } else {
        None
    }
}

/// `n` is the grid after one gravity step of `c` in which every column whose
/// top cell stayed empty received a tile below `types` there.
pub open spec fn gravity_step(c: Cells, n: Cells, types: int) -> bool {
    forall|x: int, y: int|
        in_grid(x, y) ==> {
            let f = #[trigger] fallen(c, x, y);
            if y == 0 && f is None {
                n(x, y) is Some && n(x, y)->0 < types
            } else {
                n(x, y) == f
            }
        }
}

/// The tile at `(x, r)` has an empty cell somewhere below it.
pub open spec fn tile_falls(c: Cells, x: int, r: int) -> bool {
    0 <= r < ROWS - 1 && c(x, r) is Some && gap_from(c, x, r + 1)
}

/// The board has no empty cell.
pub open spec fn is_full(c: Cells) -> bool {
    forall|x: int, y: int| in_grid(x, y) ==> #[trigger] c(x, y) is Some
}

proof fn lemma_gap_from_none(c: Cells, x: int, y: int, j: int)
    requires
        0 <= y <= j < ROWS,
        c(x, j) is None,
    ensures
        gap_from(c, x, y),
    decreases j - y,
{
    if y < j {
        lemma_gap_from_none(c, x, y + 1, j);
    }
}

proof fn lemma_gap_from_witness(c: Cells, x: int, y: int) -> (j: int)
    requires
        gap_from(c, x, y),
    ensures
        y <= j < ROWS,
        0 <= j,
        c(x, j) is None,
    decreases ROWS - y,
{
    if c(x, y) is None {
        y
    } else {
        lemma_gap_from_witness(c, x, y + 1)
    }
}

/// Applies one gravity step to column `x` and fills its top cell if it became
/// empty. Returns whether the column held an empty cell.
fn settle_column(g: &mut Grid, x: usize, types: u8) -> (moved: bool)
    requires
        x < COLS,
        types > 0,
    ensures
        forall|y: int|
            0 <= y < ROWS ==> {
                let f = #[trigger] fallen(cells(*old(g)), x as int, y);
                if y == 0 && f is None {
                    final(g)[y][x as int] is Some && final(g)[y][x as int]->0 < types
                } else {
                    final(g)[y][x as int] == f
                }
            },
        forall|a: int, b: int| in_grid(a, b) && a != x ==> #[trigger] final(g)[b][a] == old(g)[b][a],
        moved == gap_from(cells(*old(g)), x as int, 0),
{
    let ghost c = cells(*g);
    let mut moved = false;
    let mut y: usize = ROWS - 1;
    while y >= 1
        invariant
            x < COLS,
            0 <= y < ROWS,
            c == cells(*old(g)),
            forall|a: int, b: int| in_grid(a, b) && a != x ==> #[trigger] g[b][a] == old(g)[b][a],
            forall|r: int| y < r < ROWS ==> #[trigger] g[r][x as int] == fallen(c, x as int, r),
            g[y as int][x as int] == (if c(x as int, y as int) is Some && gap_from(c, x as int, y + 1) {
                None
            } else {
                c(x as int, y as int)
            }),
            forall|r: int| 0 <= r < y ==> #[trigger] g[r][x as int] == c(x as int, r),
            moved == (exists|r: int| y <= r && #[trigger] tile_falls(c, x as int, r)),
        decreases y,
    {
        let ghost before = moved;
        if g[y][x].is_none() && g[y - 1][x].is_some() {
            g[y][x] = g[y - 1][x];
            g[y - 1][x] = None;
            moved = true;
        }
        proof {
            // gap_from at y holds exactly when the current cell at y is empty.
            assert(gap_from(c, x as int, y as int) == (c(x as int, y as int) is None || gap_from(c, x as int, y + 1)));
            if moved && !before {
                assert(tile_falls(c, x as int, y - 1));
            }
            if moved == before && moved {
                let r = choose|r: int| y <= r && #[trigger] tile_falls(c, x as int, r);
                assert(y - 1 <= r && tile_falls(c, x as int, r));
            }
            if !moved {
                assert forall|r: int| y - 1 <= r implies !#[trigger] tile_falls(c, x as int, r) by {
                    if r == y - 1 {
                    } else {
                        assert(!(y <= r && tile_falls(c, x as int, r)));
                    }
                }
            }
        }
        y -= 1;
    }
    assert(g[0][x as int] == fallen(c, x as int, 0));
    if g[0][x].is_none() {
        let tile = (rand_u32() % types as u32) as u8;
        g[0][x] = Some(tile);
        moved = true;
    }
    proof {
        if gap_from(c, x as int, 0) {
            if !moved {
                let j = lemma_gap_from_witness(c, x as int, 0);
                assert(j > 0);
                // Some tile above the empty cell j would have moved.
                assert(c(x as int, 0) is Some);
                assert(gap_from(c, x as int, j));
                lemma_gap_from_first_tile(c, x as int, j);
            }
        } else {
            if moved {
                assert(c(x as int, 0) is Some);
                if fallen(c, x as int, 0) is None {
                    assert(false);
                }
                let r = choose|r: int| 0 <= r && #[trigger] tile_falls(c, x as int, r);
                lemma_gap_from_mono(c, x as int, 0, r + 1);
            }
        }
    }
    moved
}

proof fn lemma_gap_from_mono(c: Cells, x: int, y: int, z: int)
    requires
        0 <= y <= z,
        gap_from(c, x, z),
    ensures
        gap_from(c, x, y),
    decreases z - y,
{
    if y < z {
        lemma_gap_from_mono(c, x, y + 1, z);
    }
}

/// If the top cell holds a tile and the column has an empty cell at `j` or
/// below, some tile of the column has an empty cell below it.
proof fn lemma_gap_from_first_tile(c: Cells, x: int, j: int)
    requires
        0 < j < ROWS,
        c(x, 0) is Some,
        gap_from(c, x, j),
    ensures
        exists|r: int| #[trigger] tile_falls(c, x, r),
    decreases j,
{
    if c(x, j - 1) is Some {
        assert(tile_falls(c, x, j - 1));
    } else {
        assert(gap_from(c, x, j - 1));
        lemma_gap_from_first_tile(c, x, j - 1);
    }
}


/// Moves every tile that has an empty cell below it down by one row, then
/// drops a new tile below `types` into every top cell left empty. Returns
/// whether anything moved or appeared, which is whether the board had an
/// empty cell.
pub fn gravity_step_grid(g: &mut Grid, types: u8) -> (moved: bool)
    requires
        types > 0,
    ensures
        gravity_step(cells(*old(g)), cells(*final(g)), types as int),
        moved == !is_full(cells(*old(g))),
{
    let ghost c = cells(*g);
    let mut moved = false;
    for x in 0..COLS
        invariant
            types > 0,
            c == cells(*old(g)),
            forall|a: int, b: int| in_grid(a, b) && a >= x ==> #[trigger] g[b][a] == old(g)[b][a],
            forall|a: int, b: int|
                in_grid(a, b) && a < x ==> {
                    let f = #[trigger] fallen(c, a, b);
                    if b == 0 && f is None {
                        g[b][a] is Some && g[b][a]->0 < types
                    } else {
                        g[b][a] == f
                    }
                },
            moved == (exists|a: int| 0 <= a < x && #[trigger] gap_from(c, a, 0)),
    {
        let ghost before = *g;
        proof {
            lemma_column_local(cells(before), c, x as int);
        }
        let col_moved = settle_column(g, x, types);
        moved = moved || col_moved;
        assert forall|a: int, b: int|
            in_grid(a, b) && a < x + 1 implies {
                let f = #[trigger] fallen(c, a, b);
                if b == 0 && f is None {
                    g[b][a] is Some && g[b][a]->0 < types
                } else {
                    g[b][a] == f
                }
            } by {
            if a == x {
                assert(fallen(cells(before), a, b) == fallen(c, a, b));
            } else {
                assert(g[b][a] == before[b][a]);
            }
        }
    }
    proof {
        if moved {
            let a = choose|a: int| 0 <= a < COLS && #[trigger] gap_from(c, a, 0);
            let j = lemma_gap_from_witness(c, a, 0);
            assert(in_grid(a, j) && c(a, j) is None);
        } else {
            assert forall|a: int, b: int| in_grid(a, b) implies #[trigger] c(a, b) is Some by {
                if c(a, b) is None {
                    lemma_gap_from_none(c, a, 0, b);
                    assert(gap_from(c, a, 0));
                }
            }
        }
    }
    moved
}


proof fn lemma_gap_from_column_local(c1: Cells, c2: Cells, x: int, y: int)
    requires
        forall|r: int| 0 <= r < ROWS ==> #[trigger] c1(x, r) == c2(x, r),
    ensures
        gap_from(c1, x, y) == gap_from(c2, x, y),
    decreases ROWS - y,
{
    if 0 <= y < ROWS {
        assert(c1(x, y) == c2(x, y));
        lemma_gap_from_column_local(c1, c2, x, y + 1);
    }
}

/// One gravity step on a column reads only that column.
proof fn lemma_column_local(c1: Cells, c2: Cells, x: int)
    requires
        forall|r: int| 0 <= r < ROWS ==> #[trigger] c1(x, r) == c2(x, r),
    ensures
        forall|y: int| 0 <= y < ROWS ==> #[trigger] fallen(c1, x, y) == fallen(c2, x, y),
        gap_from(c1, x, 0) == gap_from(c2, x, 0),
{
    assert forall|y: int| 0 <= y < ROWS implies #[trigger] fallen(c1, x, y) == fallen(c2, x, y) by {
        lemma_gap_from_column_local(c1, c2, x, y);
        lemma_gap_from_column_local(c1, c2, x, y + 1);
        assert(c1(x, y) == c2(x, y));
        if y > 0 {
            assert(c1(x, y - 1) == c2(x, y - 1));
        }
    }
    lemma_gap_from_column_local(c1, c2, x, 0);
}


/// The cell `(x, y)` is named by one of the first `i` entries of `m`.
pub open spec fn listed(m: Seq<(usize, usize)>, i: int, x: int, y: int) -> bool {
    exists|j: int| 0 <= j < i && #[trigger] m[j] == (x as usize, y as usize)
}

/// Empties every cell named in the match list `m`.
pub(crate) fn clear_listed(g: &mut Grid, m: &Vec<(usize, usize)>)
    requires
        is_match_list(cells(*old(g)), m@),
    ensures
        forall|x: int, y: int|
            in_grid(x, y) ==> #[trigger] final(g)[y][x] == (if match_at(cells(*old(g)), x, y) {
                None
            } else {
                old(g)[y][x]
            }),
{
    let ghost c = cells(*g);
    for i in 0..m.len()
        invariant
            c == cells(*old(g)),
            is_match_list(c, m@),
            forall|x: int, y: int|
                in_grid(x, y) ==> #[trigger] g[y][x] == (if listed(m@, i as int, x, y) {
                    None
                } else {
                    old(g)[y][x]
                }),
    {
        let (mx, my) = m[i];
        assert(in_grid(m@[i as int].0 as int, m@[i as int].1 as int));
        g[my][mx] = None;
        assert forall|x: int, y: int| in_grid(x, y) implies #[trigger] g[y][x] == (if listed(m@, i + 1, x, y) {
            None
        } else {
            old(g)[y][x]
        }) by {
            if x == mx && y == my {
                assert(m@[i as int] == (x as usize, y as usize));
            } else {
                if listed(m@, i + 1, x, y) {
                    let j = choose|j: int| 0 <= j < i + 1 && #[trigger] m@[j] == (x as usize, y as usize);
                    assert(j != i);
                    assert(listed(m@, i as int, x, y));
                }
                if listed(m@, i as int, x, y) {
                    let j = choose|j: int| 0 <= j < i && #[trigger] m@[j] == (x as usize, y as usize);
                    assert(listed(m@, i + 1, x, y));
                }
            }
        }
    }
    assert forall|x: int, y: int| in_grid(x, y) implies listed(m@, m@.len() as int, x, y) == match_at(c, x, y) by {
        if listed(m@, m@.len() as int, x, y) {
            let j = choose|j: int| 0 <= j < m@.len() && #[trigger] m@[j] == (x as usize, y as usize);
            assert(match_at(c, m@[j].0 as int, m@[j].1 as int));
        }
        if match_at(c, x, y) {
            let j = choose|j: int| 0 <= j < m@.len() && #[trigger] m@[j] == (x as usize, y as usize);
            assert(listed(m@, m@.len() as int, x, y));
        }
    }
}

/// `n` equals `c` everywhere on the board except at `(px, py)`.
pub open spec fn differs_only_at(c: Cells, n: Cells, px: int, py: int) -> bool {
    forall|x: int, y: int| in_grid(x, y) && (x != px || y != py) ==> #[trigger] n(x, y) == c(x, y)
}

/// Changing one cell can only create matches that run through that cell.
proof fn lemma_new_match_through_changed_cell(c: Cells, n: Cells, px: int, py: int, x: int, y: int)
    requires
        differs_only_at(c, n, px, py),
        in_grid(px, py),
        in_grid(x, y),
        x != px || y != py,
        match_at(n, x, y),
    ensures
        match_at(c, x, y) || match_at(n, px, py),
{
    assert(n(x, y) == c(x, y));
    let t = n(x, y);
    if h_three(n, x - 2, y, t) {
        assert(n(x - 2, y) == c(x - 2, y) || (px == x - 2 && py == y));
        assert(n(x - 1, y) == c(x - 1, y) || (px == x - 1 && py == y));
    } else if h_three(n, x - 1, y, t) {
        assert(n(x - 1, y) == c(x - 1, y) || (px == x - 1 && py == y));
        assert(n(x + 1, y) == c(x + 1, y) || (px == x + 1 && py == y));
    } else if h_three(n, x, y, t) {
        assert(n(x + 1, y) == c(x + 1, y) || (px == x + 1 && py == y));
        assert(n(x + 2, y) == c(x + 2, y) || (px == x + 2 && py == y));
    } else if v_three(n, x, y - 2, t) {
        assert(n(x, y - 2) == c(x, y - 2) || (px == x && py == y - 2));
        assert(n(x, y - 1) == c(x, y - 1) || (px == x && py == y - 1));
    } else if v_three(n, x, y - 1, t) {
        assert(n(x, y - 1) == c(x, y - 1) || (px == x && py == y - 1));
        assert(n(x, y + 1) == c(x, y + 1) || (px == x && py == y + 1));
    } else {
        assert(n(x, y + 1) == c(x, y + 1) || (px == x && py == y + 1));
        assert(n(x, y + 2) == c(x, y + 2) || (px == x && py == y + 2));
    }
}

/// A tile that differs from its four neighbours is not part of a match.
proof fn lemma_no_match_when_neighbours_differ(c: Cells, x: int, y: int)
    requires
        in_grid(x, y),
        c(x, y) is Some,
        !(in_grid(x - 1, y) && c(x - 1, y) == c(x, y)),
        !(in_grid(x + 1, y) && c(x + 1, y) == c(x, y)),
        !(in_grid(x, y - 1) && c(x, y - 1) == c(x, y)),
        !(in_grid(x, y + 1) && c(x, y + 1) == c(x, y)),
    ensures
        !match_at(c, x, y),
{
}

/// Writes one cell.
fn set_cell(g: &mut Grid, x: usize, y: usize, v: Option<u8>)
    requires
        x < COLS,
        y < ROWS,
    ensures
        final(g)[y as int][x as int] == v,
        cells(*final(g))(x as int, y as int) == v,
        forall|a: int, b: int| in_grid(a, b) && (a != x || b != y) ==> #[trigger] final(g)[b][a] == old(g)[b][a],
        forall|c: Cells| #[trigger] differs_only_at(c, cells(*old(g)), x as int, y as int) ==> differs_only_at(c, cells(*final(g)), x as int, y as int),
        differs_only_at(cells(*old(g)), cells(*final(g)), x as int, y as int),
{
    g[y][x] = v;
    assert forall|c: Cells| #[trigger] differs_only_at(c, cells(*old(g)), x as int, y as int) implies differs_only_at(c, cells(*g), x as int, y as int) by {
        assert forall|a: int, b: int| in_grid(a, b) && (a != x || b != y) implies #[trigger] cells(*g)(a, b) == c(a, b) by {
            assert(cells(*old(g))(a, b) == c(a, b));
            assert(g[b][a] == old(g)[b][a]);
        }
    }
}

/// One of the four neighbours of `(x, y)` holds tile `w`.
pub open spec fn neighbour_holds(c: Cells, x: int, y: int, w: int) -> bool {
    ||| (in_grid(x - 1, y) && c(x - 1, y) == Some(w as u8))
    ||| (in_grid(x + 1, y) && c(x + 1, y) == Some(w as u8))
    ||| (in_grid(x, y - 1) && c(x, y - 1) == Some(w as u8))
    ||| (in_grid(x, y + 1) && c(x, y + 1) == Some(w as u8))
}

/// The largest number of random draws tried for one cell before the first
/// tile value that fits is taken instead.
pub const MAX_DRAWS: u32 = 1000;

/// Puts a tile below `types` at `(x, y)` that is not part of a match, drawing
/// it at random until one fits (after `MAX_DRAWS` misses the smallest value
/// that fits is used).
fn place_tile(g: &mut Grid, x: usize, y: usize, types: u8)
    requires
        x < COLS,
        y < ROWS,
        types >= 5,
    ensures
        final(g)[y as int][x as int] is Some,
        final(g)[y as int][x as int]->0 < types,
        !match_at(cells(*final(g)), x as int, y as int),
        differs_only_at(cells(*old(g)), cells(*final(g)), x as int, y as int),
{
    let mut draws: u32 = 0;
    while draws < MAX_DRAWS
        invariant
            x < COLS,
            y < ROWS,
            types >= 5,
            draws <= MAX_DRAWS,
            differs_only_at(cells(*old(g)), cells(*g), x as int, y as int),
        decreases MAX_DRAWS - draws,
    {
        let tile = (rand_u32() % types as u32) as u8;
        set_cell(g, x, y, Some(tile));
        if !has_match(g, x, y) {
            return;
        }
        draws += 1;
    }
    let ghost neighbours = cells(*g);
    let mut v: u8 = 0;
    while v < types
        invariant
            x < COLS,
            y < ROWS,
            types >= 5,
            v <= types,
            differs_only_at(cells(*old(g)), cells(*g), x as int, y as int),
            differs_only_at(neighbours, cells(*g), x as int, y as int),
            forall|w: int| 0 <= w < v ==> #[trigger] neighbour_holds(neighbours, x as int, y as int, w),
        decreases types - v,
    {
        set_cell(g, x, y, Some(v));
        if !has_match(g, x, y) {
            return;
        }
        proof {
            let c = cells(*g);
            if !neighbour_holds(neighbours, x as int, y as int, v as int) {
                assert(in_grid(x - 1, y as int) ==> c(x - 1, y as int) == neighbours(x - 1, y as int));
                assert(in_grid(x + 1, y as int) ==> c(x + 1, y as int) == neighbours(x + 1, y as int));
                assert(in_grid(x as int, y - 1) ==> c(x as int, y - 1) == neighbours(x as int, y - 1));
                assert(in_grid(x as int, y + 1) ==> c(x as int, y + 1) == neighbours(x as int, y + 1));
                lemma_no_match_when_neighbours_differ(c, x as int, y as int);
            }
        }
        v += 1;
    }
    // Five different values cannot all equal one of four neighbours.
    proof {
        assert(0 < 5 <= v);
        let w0 = 0int;
        let w1 = 1int;
        let w2 = 2int;
        let w3 = 3int;
        let w4 = 4int;
        assert(neighbour_holds(neighbours, x as int, y as int, w0));
        assert(neighbour_holds(neighbours, x as int, y as int, w1));
        assert(neighbour_holds(neighbours, x as int, y as int, w2));
        assert(neighbour_holds(neighbours, x as int, y as int, w3));
        assert(neighbour_holds(neighbours, x as int, y as int, w4));
        assert(false);
    }
}

/// Fills every cell with a tile below `types` so that no match exists.
pub fn fill_without_matches(g: &mut Grid, types: u8)
    requires
        types >= 5,
    ensures
        is_full(cells(*final(g))),
        forall|x: int, y: int| in_grid(x, y) ==> (#[trigger] final(g)[y][x])->0 < types,
        forall|x: int, y: int| in_grid(x, y) ==> !#[trigger] match_at(cells(*final(g)), x, y),
{
    for y in 0..ROWS
        invariant
            types >= 5,
            forall|a: int, b: int|
                in_grid(a, b) && b < y ==> (#[trigger] g[b][a]) is Some && g[b][a]->0 < types
                    && !match_at(cells(*g), a, b),
    {
        for x in 0..COLS
            invariant
                types >= 5,
                y < ROWS,
                forall|a: int, b: int|
                    in_grid(a, b) && (b < y || (b == y && a < x)) ==> (#[trigger] g[b][a]) is Some
                        && g[b][a]->0 < types && !match_at(cells(*g), a, b),
        {
            let ghost before = *g;
            place_tile(g, x, y, types);
            assert forall|a: int, b: int|
                in_grid(a, b) && (b < y || (b == y && a < x + 1)) implies (#[trigger] g[b][a]) is Some
                    && g[b][a]->0 < types && !match_at(cells(*g), a, b) by {
                if a != x || b != y {
                    assert(cells(*g)(a, b) == cells(before)(a, b));
                    assert(!match_at(cells(before), a, b));
                    if match_at(cells(*g), a, b) {
                        lemma_new_match_through_changed_cell(cells(before), cells(*g), x as int, y as int, a, b);
                    }
                }
            }
        }
    }
}


// ---------------------------------------------------------------------------
// The board and the player's session.

/// The largest number of distinct animals.
pub const TILE_TYPES: u8 = 20;
/// Places kept in the high-score table.
pub const MAX_HIGH_SCORES: usize = 5;
/// Tiles to clear on the first level.
pub const FIRST_LEVEL_GOAL: u32 = 50;
/// How many more tiles each further level asks for.
pub const LEVEL_GOAL_STEP: u32 = 25;

/// A row of the high-score table.
#[derive(Clone, Debug)]
pub struct LeaderboardEntry {
    pub name: String,
    pub score: u32,
    pub combo: u32,
    pub snail: bool,
}

impl Ranked for LeaderboardEntry {
    open spec fn rank_score(&self) -> u32 {
        self.score
    }

    fn score_of(&self) -> (r: u32) {
        self.score
    }
}

/// Rules for generating a starting board.
pub struct GenerationRules {
    /// Swaps that should be available on a fresh board.
    pub min_initial_moves: usize,
    /// Fresh boards tried before the last one is kept.
    pub max_attempts: usize,
}

impl Default for GenerationRules {
    fn default() -> (r: Self)
        ensures
            r.min_initial_moves == 3,
            r.max_attempts == 100,
    {
        GenerationRules { min_initial_moves: 3, max_attempts: 100 }
    }
}

/// The number of animal kinds in play on a level: six on levels 1 and 2, one
/// more every two levels, at most `TILE_TYPES`.
pub open spec fn tile_types_for_level(level: u32) -> int {
    let extra = if level >= 1 { (level - 1) / 2 } else { 0 };
    if 6 + extra <= TILE_TYPES {
        6 + extra
    } else {
        TILE_TYPES as int
    }
}

/// The points for clearing `n` tiles during the `combo`-th cascade, halved
/// (rounding down) in slow mode.
pub open spec fn match_points(n: int, combo: int, slow_mode: bool) -> int {
    if slow_mode {
        (n * 10 * combo) / 2
    } else {
        n * 10 * combo
    }
}

/// A fresh board: full, without matches, every tile below `types`.
pub open spec fn fresh_grid(g: Grid, types: int) -> bool {
    &&& is_full(cells(g))
    &&& forall|x: int, y: int| in_grid(x, y) ==> (#[trigger] g[y][x])->0 < types
    &&& forall|x: int, y: int| in_grid(x, y) ==> !#[trigger] match_at(cells(g), x, y)
}

/// What the board does once the tiles have stopped falling.
#[derive(Clone, Copy, PartialEq, Eq, Structural, Debug)]
pub enum Settled {
    /// New matches formed: a further cascade clears this many tiles.
    Cascade(usize),
    /// The level's goal is reached.
    LevelComplete,
    /// No swap creates a match: the board must be reshuffled.
    NoMoreMoves,
    /// Play continues.
    Idle,
}

/// The 8x8 grid of animal tiles and the player's session.
pub struct Board {
    pub grid: Grid,
    pub score: u32,
    pub selected: Option<(usize, usize)>,
    pub drag_start: Option<(usize, usize)>,
    pub high_scores: Vec<LeaderboardEntry>,
    pub new_record: bool,
    pub combo_count: u32,
    pub max_combo: u32,
    pub level: u32,
    pub level_tiles_cleared: u32,
    pub level_goal: u32,
    pub snail_used: bool,
    pub last_submitted: Option<(String, u32)>,
}

/// The swaps wanted of a fresh board at retry `retries`: the rules' minimum
/// for the first ten, then one.
pub open spec fn moves_wanted(rules: GenerationRules, retries: int) -> nat {
    if retries < 10 {
        rules.min_initial_moves as nat
    } else {
        1
    }
}

/// The table a first game starts with: `MAX_HIGH_SCORES` entries "---"
/// with no points, no combo and no snail mode.
pub fn default_high_scores() -> (t: Vec<LeaderboardEntry>)
    ensures
        t@.len() == MAX_HIGH_SCORES,
        forall|i: int|
            0 <= i < t@.len() ==> (#[trigger] t@[i]).name@ == "---"@ && t@[i].score == 0 && t@[i].combo == 0
                && !t@[i].snail,
{
    let mut t: Vec<LeaderboardEntry> = Vec::new();
    let mut i: usize = 0;
    while i < MAX_HIGH_SCORES
        invariant
            0 <= i <= MAX_HIGH_SCORES,
            t@.len() == i,
            forall|k: int|
                0 <= k < t@.len() ==> (#[trigger] t@[k]).name@ == "---"@ && t@[k].score == 0 && t@[k].combo == 0
                    && !t@[k].snail,
        decreases MAX_HIGH_SCORES - i,
    {
        t.push(LeaderboardEntry { name: "---".to_string(), score: 0, combo: 0, snail: false });
        i += 1;
    }
    t
}

impl Board {
    /// A new session on level 1 with a fresh board and the given high scores.
    pub fn new(high_scores: Vec<LeaderboardEntry>) -> (b: Board)
        ensures
            fresh_grid(b.grid, tile_types_for_level(1)),
            b.score == 0,
            b.selected is None,
            b.drag_start is None,
            b.high_scores@ == high_scores@,
            !b.new_record,
            b.combo_count == 0,
            b.max_combo == 0,
            b.level == 1,
            b.level_tiles_cleared == 0,
            b.level_goal == FIRST_LEVEL_GOAL,
            !b.snail_used,
            b.last_submitted is None,
    {
        let mut board = Board {
            grid: [[None; COLS]; ROWS],
            score: 0,
            selected: None,
            drag_start: None,
            high_scores,
            new_record: false,
            combo_count: 0,
            max_combo: 0,
            level: 1,
            level_tiles_cleared: 0,
            level_goal: FIRST_LEVEL_GOAL,
            snail_used: false,
            last_submitted: None,
        };
        board.fill_initial(GenerationRules::default());
        board
    }

    /// The number of animal kinds in play on the current level.
    pub fn active_tile_types(&self) -> (t: u8)
        ensures
            t == tile_types_for_level(self.level),
            6 <= t <= TILE_TYPES,
    {
        let extra = self.level.saturating_sub(1) / 2;
        let active = if 6 + extra <= TILE_TYPES as u32 { 6 + extra } else { TILE_TYPES as u32 };
        active as u8
    }

    /// Whether the current score earns a place in the high-score table.
    pub fn qualifies_for_leaderboard(&self) -> (r: bool)
        ensures
            r == qualifies_spec(self.high_scores@, self.score, MAX_HIGH_SCORES as nat),
    {
        qualifies(&self.high_scores, self.score, MAX_HIGH_SCORES)
    }

    /// Enters a score into the high-score table under the trimmed name
    /// ("ANON" when nothing is left of it), records whether it beats the
    /// best score so far, and keeps the best `MAX_HIGH_SCORES` entries.
    pub fn add_to_leaderboard(&mut self, name: String, score: u32, combo: u32, snail: bool)
        ensures
            ({
                let n = if trimmed(name@).len() == 0 { "ANON"@ } else { trimmed(name@) };
                &&& final(self).last_submitted matches Some(ls) && ls.0@ == n && ls.1 == score
                &&& final(self).new_record == (old(self).high_scores@.len() == 0 || score
                    > old(self).high_scores@[0].score)
                &&& exists|s: String|
                    s@ == n && final(self).high_scores@ == ranked_with(
                        old(self).high_scores@,
                        LeaderboardEntry { name: s, score, combo, snail },
                        MAX_HIGH_SCORES as nat,
                    )
            }),
            *final(self) == (Board {
                high_scores: final(self).high_scores,
                new_record: final(self).new_record,
                last_submitted: final(self).last_submitted,
                ..*old(self)
            }),
    {
        let t = trim_name(&name);
        let name = if t.as_str().is_empty() {
            "ANON".to_string()
        } else {
            t
        };
        self.last_submitted = Some((name.clone(), score));
        self.new_record = if self.high_scores.len() == 0 {
            true
        } else {
            score > self.high_scores[0].score
        };
        let mut entries: Vec<LeaderboardEntry> = Vec::new();
        std::mem::swap(&mut entries, &mut self.high_scores);
        let ghost nm = name;
        let entry = LeaderboardEntry { name, score, combo, snail };
        self.high_scores = add_ranked(entries, entry, MAX_HIGH_SCORES);
    }

    /// Fills the board with fresh tiles of the current level's kinds and no
    /// matches, retrying (up to `rules.max_attempts` times) until at least
    /// `rules.min_initial_moves` swaps are available (after ten tries, one
    /// swap is enough). Returns the number of retries made and the boards
    /// drawn: every board but the last had too few moves for its retry, and
    /// the last one is kept, with enough moves or after every retry was used.
    pub fn fill_initial(&mut self, rules: GenerationRules) -> (r: (usize, Ghost<Seq<Grid>>))
        ensures
            r.0 <= rules.max_attempts,
            r.1@.len() == r.0 + 1,
            final(self).grid == r.1@.last(),
            forall|k: int| 0 <= k <= r.0 ==> fresh_grid(#[trigger] r.1@[k], tile_types_for_level(old(self).level)),
            forall|k: int| 0 <= k < r.0 ==> available_moves(cells(#[trigger] r.1@[k])) < moves_wanted(rules, k),
            available_moves(cells(final(self).grid)) >= moves_wanted(rules, r.0 as int) || r.0 == rules.max_attempts,
            *final(self) == (Board { grid: final(self).grid, ..*old(self) }),
    {
        let mut attempts: usize = 0;
        let types = self.active_tile_types();
        let ghost mut boards: Seq<Grid> = Seq::empty();
        loop
            invariant_except_break
                boards.len() == attempts,
            invariant
                types == tile_types_for_level(self.level),
                6 <= types <= TILE_TYPES,
                attempts <= rules.max_attempts,
                boards.len() >= attempts,
                forall|k: int| 0 <= k < attempts ==> fresh_grid(#[trigger] boards[k], types as int),
                forall|k: int| 0 <= k < attempts ==> available_moves(cells(#[trigger] boards[k])) < moves_wanted(rules, k),
                *self == (Board { grid: self.grid, ..*old(self) }),
            ensures
                attempts <= rules.max_attempts,
                boards.len() == attempts + 1,
                self.grid == boards.last(),
                forall|k: int| 0 <= k <= attempts ==> fresh_grid(#[trigger] boards[k], types as int),
                forall|k: int| 0 <= k < attempts ==> available_moves(cells(#[trigger] boards[k])) < moves_wanted(rules, k),
                available_moves(cells(self.grid)) >= moves_wanted(rules, attempts as int) || attempts == rules.max_attempts,
                *self == (Board { grid: self.grid, ..*old(self) }),
            decreases rules.max_attempts - attempts,
        {
            fill_without_matches(&mut self.grid, types);
            proof {
                boards = boards.push(self.grid);
            }
            let target_moves = if attempts < 10 {
                rules.min_initial_moves
            } else {
                1
            };
            if count_moves(&self.grid) >= target_moves {
                break;
            }
            if attempts >= rules.max_attempts {
                break;
            }
            attempts += 1;
        }
        (attempts, Ghost(boards))
    }

    /// Whether the tile at `(x, y)` is part of a match.
    pub fn has_match_at(&self, x: usize, y: usize) -> (r: bool)
        requires
            x < COLS,
            y < ROWS,
        ensures
            r == match_at(cells(self.grid), x as int, y as int),
    {
        has_match(&self.grid, x, y)
    }

    /// Every cell that is part of a match, in row-major order.
    pub fn find_matches(&self) -> (m: Vec<(usize, usize)>)
        ensures
            is_match_list(cells(self.grid), m@),
            m@.len() == match_count(cells(self.grid)),
    {
        find_matches(&self.grid)
    }

    /// The number of adjacent swaps that would create a match.
    pub fn count_available_moves(&self) -> (n: usize)
        ensures
            n == available_moves(cells(self.grid)),
    {
        count_moves(&self.grid)
    }

    /// Whether two cells are horizontal or vertical neighbours.
    pub fn is_adjacent(&self, x1: usize, y1: usize, x2: usize, y2: usize) -> (r: bool)
        ensures
            r == ((x1 == x2 + 1 || x2 == x1 + 1) && y1 == y2 || (y1 == y2 + 1 || y2 == y1 + 1) && x1 == x2),
    {
        let dx = if x1 >= x2 { x1 - x2 } else { x2 - x1 };
        let dy = if y1 >= y2 { y1 - y2 } else { y2 - y1 };
        (dx == 1 && dy == 0) || (dx == 0 && dy == 1)
    }

    /// Forgets the selected tile and any drag in progress.
    pub fn reset_selection(&mut self)
        ensures
            *final(self) == (Board { selected: None, drag_start: None, ..*old(self) }),
    {
        self.selected = None;
        self.drag_start = None;
    }

    /// Exchanges two tiles.
    pub fn swap(&mut self, x1: usize, y1: usize, x2: usize, y2: usize)
        requires
            x1 < COLS,
            y1 < ROWS,
            x2 < COLS,
            y2 < ROWS,
        ensures
            same_cells(cells(final(self).grid), swap_cells(cells(old(self).grid), x1 as int, y1 as int, x2 as int, y2 as int)),
            *final(self) == (Board { grid: final(self).grid, ..*old(self) }),
    {
        swap_in(&mut self.grid, x1, y1, x2, y2);
    }

    /// Empties every matched cell and scores it: ten points per tile times
    /// the cascade count, halved in slow mode. Returns the number of tiles
    /// cleared.
    pub fn clear_matches(&mut self, slow_mode: bool) -> (n: usize)
        requires
            match_count(cells(old(self).grid)) * 10 * old(self).combo_count <= u32::MAX,
            old(self).score + match_points(match_count(cells(old(self).grid)) as int, old(self).combo_count as int, slow_mode) <= u32::MAX,
            old(self).level_tiles_cleared + match_count(cells(old(self).grid)) <= u32::MAX,
        ensures
            n == match_count(cells(old(self).grid)),
            forall|x: int, y: int|
                in_grid(x, y) ==> #[trigger] final(self).grid[y][x] == (if match_at(cells(old(self).grid), x, y) {
                    None
                } else {
                    old(self).grid[y][x]
                }),
            final(self).score == old(self).score + match_points(n as int, old(self).combo_count as int, slow_mode),
            final(self).level_tiles_cleared == old(self).level_tiles_cleared + n,
            *final(self) == (Board {
                grid: final(self).grid,
                score: final(self).score,
                level_tiles_cleared: final(self).level_tiles_cleared,
                ..*old(self)
            }),
    {
        let m = find_matches(&self.grid);
        proof {
            lemma_matches_before_bound(cells(self.grid), (COLS * ROWS) as int);
            assert(m@.len() * 10 * self.combo_count <= u32::MAX);
        }
        clear_listed(&mut self.grid, &m);
        let count = m.len() as u32;
        let mut points = count * 10 * self.combo_count;
        if slow_mode {
            points /= 2;
        }
        self.score += points;
        self.level_tiles_cleared += count;
        m.len()
    }

    /// One step of falling tiles: every tile with an empty cell below it
    /// moves down a row, and each emptied top cell receives a random tile of
    /// the current level's kinds. Returns whether anything moved or appeared.
    pub fn apply_gravity(&mut self) -> (moved: bool)
        ensures
            gravity_step(cells(old(self).grid), cells(final(self).grid), tile_types_for_level(old(self).level)),
            moved == !is_full(cells(old(self).grid)),
            *final(self) == (Board { grid: final(self).grid, ..*old(self) }),
    {
        let types = self.active_tile_types();
        gravity_step_grid(&mut self.grid, types)
    }

    /// Whether enough tiles were cleared to finish the level.
    pub fn level_complete(&self) -> (r: bool)
        ensures
            r == (self.level_tiles_cleared >= self.level_goal),
    {
        self.level_tiles_cleared >= self.level_goal
    }

    /// Decides what follows once the tiles have stopped falling: new matches
    /// start a further cascade (counted in `combo_count`, with `max_combo`
    /// kept up to date); otherwise the level is complete, or no swap is left,
    /// or play continues and the cascade count returns to zero.
    pub fn settle(&mut self) -> (r: Settled)
        requires
            old(self).combo_count < u32::MAX,
        ensures
            match_count(cells(old(self).grid)) > 0 ==> r == Settled::Cascade(match_count(cells(old(self).grid)) as usize)
                && final(self).combo_count == old(self).combo_count + 1
                && final(self).max_combo == (if old(self).max_combo >= old(self).combo_count + 1 {
                    old(self).max_combo
                } else {
                    (old(self).combo_count + 1) as u32
                }),
            match_count(cells(old(self).grid)) == 0 ==> {
                &&& final(self).max_combo == old(self).max_combo
                &&& if old(self).level_tiles_cleared >= old(self).level_goal {
                    r == Settled::LevelComplete && final(self).combo_count == old(self).combo_count
                } else if available_moves(cells(old(self).grid)) == 0 {
                    r == Settled::NoMoreMoves && final(self).combo_count == old(self).combo_count
                } else {
                    r == Settled::Idle && final(self).combo_count == 0
                }
            },
            r == Settled::NoMoreMoves ==> forall|x1: int, y1: int, x2: int, y2: int|
                in_grid(x1, y1) && in_grid(x2, y2) && ((x2 == x1 + 1 && y2 == y1) || (x2 == x1 && y2 == y1 + 1))
                    ==> !has_any_match(#[trigger] swap_cells(cells(old(self).grid), x1, y1, x2, y2)),
            *final(self) == (Board {
                combo_count: final(self).combo_count,
                max_combo: final(self).max_combo,
                ..*old(self)
            }),
    {
        let m = find_matches(&self.grid);
        if m.len() == 0 {
            if self.level_tiles_cleared >= self.level_goal {
                Settled::LevelComplete
            } else if count_moves(&self.grid) == 0 {
                proof {
                    let c = cells(self.grid);
                    assert forall|x1: int, y1: int, x2: int, y2: int|
                        in_grid(x1, y1) && in_grid(x2, y2) && ((x2 == x1 + 1 && y2 == y1) || (x2 == x1 && y2 == y1 + 1))
                            implies !has_any_match(#[trigger] swap_cells(c, x1, y1, x2, y2)) by {
                        lemma_no_moves_means_stuck(c, x1, y1, x2, y2);
                    }
                }
                Settled::NoMoreMoves
            } else {
                self.combo_count = 0;
                Settled::Idle
            }
        } else {
            self.combo_count += 1;
            if self.combo_count > self.max_combo {
                self.max_combo = self.combo_count;
            }
            Settled::Cascade(m.len())
        }
    }

    /// Moves on to the next level: the level number goes up, the cleared
    /// count starts again, and the goal grows by `LEVEL_GOAL_STEP`.
    pub fn advance_level(&mut self)
        requires
            old(self).level < u32::MAX,
            old(self).level_goal + LEVEL_GOAL_STEP <= u32::MAX,
        ensures
            final(self).level == old(self).level + 1,
            final(self).level_tiles_cleared == 0,
            final(self).level_goal == old(self).level_goal + LEVEL_GOAL_STEP,
            *final(self) == (Board {
                level: final(self).level,
                level_tiles_cleared: final(self).level_tiles_cleared,
                level_goal: final(self).level_goal,
                ..*old(self)
            }),
    {
        self.level += 1;
        self.level_tiles_cleared = 0;
        self.level_goal += LEVEL_GOAL_STEP;
    }
}

// ---------------------------------------------------------------------------
// Reshuffling a board that has no move left.

/// Shuffles tried in one step of the search.
pub const SHUFFLES_PER_STEP: u32 = 50;
/// Shuffles tried in all before a fresh board is drawn instead.
pub const MAX_SHUFFLES: u32 = 2000;

/// The tiles of a full board, row after row.
pub open spec fn tiles_of(g: Grid) -> Seq<u8> {
    Seq::new((COLS * ROWS) as nat, |i: int| g[i / 8][i % 8]->0)
}

/// What one step of the search for a reshuffled board found.
pub enum Reshuffle {
    /// The board's own tiles in a new order, without a match and with a
    /// move.
    Shuffled(Grid),
    /// A fresh board, after `MAX_SHUFFLES` shuffles found nothing.
    Regenerated(Grid),
    /// Nothing yet; the search goes on.
    Pending,
}

/// The tiles of the board, row after row.
fn collect_tiles(g: &Grid) -> (t: Vec<u8>)
    requires
        is_full(cells(*g)),
    ensures
        t@ == tiles_of(*g),
{
    let mut t: Vec<u8> = Vec::new();
    for y in 0..ROWS
        invariant
            is_full(cells(*g)),
            t@.len() == 8 * y,
            forall|i: int| 0 <= i < t@.len() ==> #[trigger] t@[i] == g[i / 8][i % 8]->0,
    {
        for x in 0..COLS
            invariant
                is_full(cells(*g)),
                y < ROWS,
                t@.len() == 8 * y + x,
                forall|i: int| 0 <= i < t@.len() ==> #[trigger] t@[i] == g[i / 8][i % 8]->0,
        {
            assert(cells(*g)(x as int, y as int) is Some);
            let v = g[y][x].unwrap();
            let ghost i: int = 8 * y + x;
            assert(i / 8 == y && i % 8 == x) by (nonlinear_arith)
                requires
                    i == 8 * y + x,
                    0 <= x < 8,
            ;
            t.push(v);
        }
    }
    assert(t@ =~= tiles_of(*g));
    t
}

/// Shuffles the tiles with a Fisher-Yates shuffle.
fn shuffle_tiles(t: &mut Vec<u8>)
    ensures
        final(t)@.to_multiset() == old(t)@.to_multiset(),
        final(t)@.len() == old(t)@.len(),
{
    let n = t.len();
    if n < 2 {
        return;
    }
    let mut i: usize = n - 1;
    while i >= 1
        invariant
            1 <= n,
            0 <= i < n,
            t@.len() == n,
            t@.to_multiset() == old(t)@.to_multiset(),
        decreases i,
    {
        let j = (rand_u32() as usize) % (i + 1);
        let ghost before = t@;
        let a = t[i];
        let b = t[j];
        t.set(i, b);
        t.set(j, a);
        proof {
            lemma_swapped_multiset(before, i as int, j as int);
            assert(t@ =~= swapped(before, i as int, j as int));
        }
        i -= 1;
    }
}

/// The board that the tiles `t` make when laid out row after row.
pub open spec fn laid_out(t: Seq<u8>) -> Cells {
    |x: int, y: int|
        if in_grid(x, y) {
            Some(t[8 * y + x])
        } else {
            None
        }
}

/// A match among some of the tiles of a board is a match of the board.
proof fn lemma_match_in_part(part: Cells, whole: Cells, x: int, y: int)
    requires
        forall|a: int, b: int| in_grid(a, b) && #[trigger] part(a, b) is Some ==> part(a, b) == whole(a, b),
        in_grid(x, y),
        match_at(part, x, y),
    ensures
        match_at(whole, x, y),
{
    let t = part(x, y);
    assert(part(x, y) == whole(x, y));
    if h_three(part, x - 2, y, t) {
        assert(part(x - 2, y) == whole(x - 2, y));
        assert(part(x - 1, y) == whole(x - 1, y));
    } else if h_three(part, x - 1, y, t) {
        assert(part(x - 1, y) == whole(x - 1, y));
        assert(part(x + 1, y) == whole(x + 1, y));
    } else if h_three(part, x, y, t) {
        assert(part(x + 1, y) == whole(x + 1, y));
        assert(part(x + 2, y) == whole(x + 2, y));
    } else if v_three(part, x, y - 2, t) {
        assert(part(x, y - 2) == whole(x, y - 2));
        assert(part(x, y - 1) == whole(x, y - 1));
    } else if v_three(part, x, y - 1, t) {
        assert(part(x, y - 1) == whole(x, y - 1));
        assert(part(x, y + 1) == whole(x, y + 1));
    } else {
        assert(part(x, y + 1) == whole(x, y + 1));
        assert(part(x, y + 2) == whole(x, y + 2));
    }
}

/// Lays the tiles out row after row, giving up at the first tile that
/// completes a match with the tiles before it. So it gives a board exactly
/// when the laid-out tiles make no match, and that board holds them.
fn lay_out(t: &Vec<u8>) -> (r: Option<Grid>)
    requires
        t@.len() == COLS * ROWS,
    ensures
        r is Some <==> forall|x: int, y: int| in_grid(x, y) ==> !#[trigger] match_at(laid_out(t@), x, y),
        r matches Some(g) ==> same_cells(cells(g), laid_out(t@)),
        r matches Some(g) ==> is_full(cells(g)) && tiles_of(g) == t@ && forall|x: int, y: int|
            in_grid(x, y) ==> !#[trigger] match_at(cells(g), x, y),
{
    let mut g: Grid = [[None; COLS]; ROWS];
    for y in 0..ROWS
        invariant
            t@.len() == COLS * ROWS,
            forall|a: int, b: int|
                in_grid(a, b) ==> #[trigger] g[b][a] == if b < y {
                    Some(t@[8 * b + a])
                } else {
                    None
                },
            forall|a: int, b: int| in_grid(a, b) && b < y ==> !#[trigger] match_at(cells(g), a, b),
    {
        for x in 0..COLS
            invariant
                t@.len() == COLS * ROWS,
                y < ROWS,
                forall|a: int, b: int|
                    in_grid(a, b) ==> #[trigger] g[b][a] == if b < y || (b == y && a < x) {
                        Some(t@[8 * b + a])
                    } else {
                        None
                    },
                forall|a: int, b: int|
                    in_grid(a, b) && (b < y || (b == y && a < x)) ==> !#[trigger] match_at(cells(g), a, b),
        {
            let ghost before = g;
            set_cell(&mut g, x, y, Some(t[y * 8 + x]));
            if has_match(&g, x, y) {
                proof {
                    assert forall|a: int, b: int| in_grid(a, b) && #[trigger] cells(g)(a, b) is Some implies cells(g)(
                        a,
                        b,
                    ) == laid_out(t@)(a, b) by {
                        if a != x || b != y {
                            assert(g[b][a] == before[b][a]);
                        }
                    }
                    lemma_match_in_part(cells(g), laid_out(t@), x as int, y as int);
                }
                return None;
            }
            assert forall|a: int, b: int| in_grid(a, b) && (b < y || (b == y && a < x + 1)) implies !#[trigger] match_at(
                cells(g),
                a,
                b,
            ) by {
                if a != x || b != y {
                    assert(!match_at(cells(before), a, b));
                    if match_at(cells(g), a, b) {
                        lemma_new_match_through_changed_cell(cells(before), cells(g), x as int, y as int, a, b);
                    }
                }
            }
        }
    }
    assert forall|i: int| 0 <= i < COLS * ROWS implies #[trigger] tiles_of(g)[i] == t@[i] by {
        let (a, b) = (i % 8, i / 8);
        assert(i == 8 * b + a && 0 <= a < 8 && 0 <= b < 8) by (nonlinear_arith)
            requires
                0 <= i < 64,
                a == i % 8,
                b == i / 8,
        ;
        assert(g[b][a] == Some(t@[8 * b + a]));
    }
    assert(tiles_of(g) =~= t@);
    assert forall|a: int, b: int| in_grid(a, b) implies #[trigger] cells(g)(a, b) == laid_out(t@)(a, b) by {
        assert(g[b][a] == Some(t@[8 * b + a]));
    }
    assert forall|a: int, b: int| in_grid(a, b) implies !#[trigger] match_at(laid_out(t@), a, b) by {
        lemma_match_at_same_cells(cells(g), laid_out(t@), a, b);
    }
    Some(g)
}

/// Counting the matching swaps depends only on the cells of the board.
proof fn lemma_moves_same_cells(c1: Cells, c2: Cells, k: int)
    requires
        same_cells(c1, c2),
        0 <= k <= COLS * ROWS,
    ensures
        moves_before(c1, k) == moves_before(c2, k),
    decreases k,
{
    if k > 0 {
        lemma_moves_same_cells(c1, c2, k - 1);
        let x = (k - 1) % (COLS as int);
        let y = (k - 1) / (COLS as int);
        assert(0 <= x < 8 && 0 <= y < 8) by (nonlinear_arith)
            requires
                0 <= k - 1 < 64,
                x == (k - 1) % 8,
                y == (k - 1) / 8,
        ;
        if x + 1 < COLS {
            let s1 = swap_cells(c1, x, y, x + 1, y);
            let s2 = swap_cells(c2, x, y, x + 1, y);
            assert(same_cells(s1, s2));
            lemma_match_at_same_cells(s1, s2, x, y);
            lemma_match_at_same_cells(s1, s2, x + 1, y);
        }
        if y + 1 < ROWS {
            let s1 = swap_cells(c1, x, y, x, y + 1);
            let s2 = swap_cells(c2, x, y, x, y + 1);
            assert(same_cells(s1, s2));
            lemma_match_at_same_cells(s1, s2, x, y);
            lemma_match_at_same_cells(s1, s2, x, y + 1);
        }
    }
}

/// An order of the tiles is kept when, laid out row after row, it makes no
/// match and leaves at least one matching swap.
pub open spec fn order_accepted(t: Seq<u8>) -> bool {
    &&& forall|x: int, y: int| in_grid(x, y) ==> !#[trigger] match_at(laid_out(t), x, y)
    &&& available_moves(laid_out(t)) >= 1
}

/// The board an order of the tiles gives, if it is kept: laid out row after
/// row, with no match and at least one matching swap.
pub fn try_order(tiles: &Vec<u8>) -> (r: Option<Grid>)
    requires
        tiles@.len() == COLS * ROWS,
    ensures
        r is Some <==> order_accepted(tiles@),
        r matches Some(g) ==> same_cells(cells(g), laid_out(tiles@)) && is_full(cells(g)) && tiles_of(g) == tiles@,
{
    match lay_out(tiles) {
        Some(g) => {
            proof {
                lemma_moves_same_cells(cells(g), laid_out(tiles@), (COLS * ROWS) as int);
            }
            if count_moves(&g) >= 1 {
                Some(g)
            } else {
                None
            }
        },
        None => None,
    }
}

impl Board {
    /// One step of the search for a new order of the tiles of a full board
    /// that has no move left: up to `SHUFFLES_PER_STEP` shuffles, each kept
    /// if laying the tiles out row after row makes no match and leaves a
    /// move (`try_order`). After `MAX_SHUFFLES` shuffles in all (counted in
    /// `attempts`) a fresh board of the current level's kinds is drawn
    /// instead. Returns what was found, the new count and the orders tried,
    /// one per shuffle.
    pub fn search_reshuffle(&self, attempts: u32) -> (r: (Reshuffle, u32, Ghost<Seq<Seq<u8>>>))
        requires
            is_full(cells(self.grid)),
            attempts <= u32::MAX - SHUFFLES_PER_STEP,
        ensures
            attempts < r.1 <= attempts + SHUFFLES_PER_STEP,
            r.2@.len() == r.1 - attempts,
            forall|k: int|
                0 <= k < r.2@.len() ==> (#[trigger] r.2@[k]).len() == COLS * ROWS && r.2@[k].to_multiset() == tiles_of(
                    self.grid,
                ).to_multiset(),
            forall|k: int| 0 <= k < r.2@.len() - 1 ==> !order_accepted(#[trigger] r.2@[k]),
            r.0 matches Reshuffle::Shuffled(g) ==> {
                &&& order_accepted(r.2@.last())
                &&& same_cells(cells(g), laid_out(r.2@.last()))
                &&& is_full(cells(g))
                &&& tiles_of(g).to_multiset() == tiles_of(self.grid).to_multiset()
                &&& forall|x: int, y: int| in_grid(x, y) ==> !#[trigger] match_at(cells(g), x, y)
                &&& available_moves(cells(g)) >= 1
            },
            r.0 matches Reshuffle::Regenerated(g) ==> !order_accepted(r.2@.last()) && r.1 >= MAX_SHUFFLES && fresh_grid(
                g,
                tile_types_for_level(self.level),
            ),
            r.0 is Pending ==> !order_accepted(r.2@.last()) && r.1 < MAX_SHUFFLES && r.1 == attempts + SHUFFLES_PER_STEP,
    {
        let mut tiles = collect_tiles(&self.grid);
        let ghost orig = tiles@;
        let ghost mut orders: Seq<Seq<u8>> = Seq::empty();
        let mut att = attempts;
        let mut k: u32 = 0;
        while k < SHUFFLES_PER_STEP
            invariant
                attempts <= u32::MAX - SHUFFLES_PER_STEP,
                0 <= k <= SHUFFLES_PER_STEP,
                att == attempts + k,
                k > 0 ==> att < MAX_SHUFFLES,
                tiles@.len() == COLS * ROWS,
                tiles@.to_multiset() == orig.to_multiset(),
                orig == tiles_of(self.grid),
                orders.len() == k,
                forall|i: int|
                    0 <= i < orders.len() ==> (#[trigger] orders[i]).len() == COLS * ROWS && orders[i].to_multiset()
                        == orig.to_multiset(),
                forall|i: int| 0 <= i < orders.len() ==> !order_accepted(#[trigger] orders[i]),
            decreases SHUFFLES_PER_STEP - k,
        {
            att += 1;
            shuffle_tiles(&mut tiles);
            proof {
                orders = orders.push(tiles@);
            }
            if let Some(g) = try_order(&tiles) {
                proof {
                    lemma_moves_same_cells(cells(g), laid_out(tiles@), (COLS * ROWS) as int);
                    assert forall|x: int, y: int| in_grid(x, y) implies !#[trigger] match_at(cells(g), x, y) by {
                        lemma_match_at_same_cells(cells(g), laid_out(tiles@), x, y);
                    }
                }
                return (Reshuffle::Shuffled(g), att, Ghost(orders));
            }
            if att >= MAX_SHUFFLES {
                let types = self.active_tile_types();
                let mut g: Grid = [[None; COLS]; ROWS];
                fill_without_matches(&mut g, types);
                return (Reshuffle::Regenerated(g), att, Ghost(orders));
            }
            k += 1;
        }
        (Reshuffle::Pending, att, Ghost(orders))
    }
}

// ---------------------------------------------------------------------------
// Laws of the board.

/// Swapping the same two cells twice gives back the board.
pub proof fn lemma_swap_twice(c: Cells, x1: int, y1: int, x2: int, y2: int)
    ensures
        same_cells(swap_cells(swap_cells(c, x1, y1, x2, y2), x1, y1, x2, y2), c),
{
}

/// A gravity step on a full board leaves every tile where it is.
pub proof fn lemma_gravity_full_board(c: Cells, n: Cells, types: int)
    requires
        is_full(c),
        gravity_step(c, n, types),
    ensures
        same_cells(n, c),
{
    assert forall|x: int, y: int| in_grid(x, y) implies #[trigger] n(x, y) == c(x, y) by {
        if gap_from(c, x, y) {
            let j = lemma_gap_from_witness(c, x, y);
            assert(c(x, j) is Some);
        }
        if gap_from(c, x, y + 1) {
            let j = lemma_gap_from_witness(c, x, y + 1);
            assert(c(x, j) is Some);
        }
        assert(fallen(c, x, y) == c(x, y));
    }
}

} // verus!
