//! The bubble-blowing platformer: its level layouts, the wall test the
//! physics asks, its small random generator, and the rules for which
//! enemies a level starts with, what a popped bubble drops and when the game
//! is over or a level done.

use vstd::prelude::*;
use crate::music::{lcg_advance, lcg_state, lcg_step};

verus! {

/// Tiles across a level.
pub const LEVEL_WIDTH: usize = 16;
/// Tiles down a level.
pub const LEVEL_HEIGHT: usize = 14;
/// Tiles in a level.
pub const LEVEL_TILES: usize = 224;
/// The seed the generator starts from.
pub const RNG_SEED: u32 = 42;

/// The platforms of layout `k` (0, 1 or 2), each as its left column, its row
/// and its width.
pub open spec fn platforms(k: int) -> Seq<(usize, usize, usize)> {
    if k == 0 {
        seq![(2usize, 4usize, 12usize), (2, 7, 5), (9, 7, 5), (2, 10, 12)]
    } else if k == 1 {
        seq![(2usize, 4usize, 4usize), (10, 4, 4), (5, 7, 6), (2, 10, 4), (10, 10, 4)]
    } else {
        seq![(2usize, 3usize, 3usize), (11, 3, 3), (6, 6, 4), (2, 9, 3), (11, 9, 3), (5, 11, 6)]
    }
}

/// Whether one of the first `n` platforms covers the tile.
pub open spec fn covered(list: Seq<(usize, usize, usize)>, n: int, x: int, y: int) -> bool
    decreases n,
{
    if n <= 0 {
        false
    } else {
        covered(list, n - 1, x, y) || (list[n - 1].1 == y && list[n - 1].0 <= x < list[n - 1].0 + list[n - 1].2)
    }
}

/// Whether the tile is on the outer edge of the level.
pub open spec fn on_border(x: int, y: int) -> bool {
    x == 0 || x == LEVEL_WIDTH - 1 || y == 0 || y == LEVEL_HEIGHT - 1
}

/// Whether the tile is one of the two openings of layout `k` in the top and
/// bottom rows, through which things fall from the bottom to the top.
pub open spec fn is_gap(k: int, x: int, y: int) -> bool {
    (y == 0 || y == LEVEL_HEIGHT - 1) && if k == 0 {
        x == 7 || x == 8
    } else if k == 1 {
        x == 4 || x == 11
    } else {
        x == 2 || x == 13
    }
}

/// The tile of layout `k` at column `x`, row `y`: 1 for a wall, 0 for air.
pub open spec fn layout_cell(k: int, x: int, y: int) -> u8 {
    if covered(platforms(k), platforms(k).len() as int, x, y) {
        1
    } else if on_border(x, y) && !is_gap(k, x, y) {
        1
    } else {
        0
    }
}

/// The tiles of level `idx`, row after row: a walled box with two openings
/// in the top and bottom rows and a set of platforms, in one of three
/// layouts that repeat.
pub fn get_level_layout(idx: usize) -> (lvl: Vec<u8>)
    ensures
        lvl@.len() == LEVEL_TILES,
        forall|x: int, y: int|
            0 <= x < LEVEL_WIDTH && 0 <= y < LEVEL_HEIGHT ==> #[trigger] lvl@[y * 16 + x] == layout_cell(
                (idx % 3) as int,
                x,
                y,
            ),
{
    let mut lvl: Vec<u8> = vec![0u8; 224];
    let mut x: usize = 0;
    while x < 16
        invariant
            0 <= x <= 16,
            lvl@.len() == 224,
            forall|i: int, j: int|
                0 <= i < 16 && 0 <= j < 14 ==> #[trigger] lvl@[j * 16 + i] == if (j == 0 || j == 13) && i < x {
                    1u8
                } else {
                    0u8
                },
        decreases 16 - x,
    {
        lvl.set(x, 1);
        lvl.set(13 * 16 + x, 1);
        x += 1;
    }
    let mut y: usize = 0;
    while y < 14
        invariant
            0 <= y <= 14,
            lvl@.len() == 224,
            forall|i: int, j: int|
                0 <= i < 16 && 0 <= j < 14 ==> #[trigger] lvl@[j * 16 + i] == if j == 0 || j == 13 || ((i == 0
                    || i == 15) && j < y) {
                    1u8
                } else {
                    0u8
                },
        decreases 14 - y,
    {
        lvl.set(y * 16, 1);
        lvl.set(y * 16 + 15, 1);
        y += 1;
    }
    let k = idx % 3;
    let (g1, g2): (usize, usize) = if k == 0 {
        (7, 8)
    } else if k == 1 {
        (4, 11)
    } else {
        (2, 13)
    };
    lvl.set(g1, 0);
    lvl.set(g2, 0);
    lvl.set(13 * 16 + g1, 0);
    lvl.set(13 * 16 + g2, 0);
    assert forall|i: int, j: int| 0 <= i < 16 && 0 <= j < 14 implies #[trigger] lvl@[j * 16 + i] == if on_border(i, j)
        && !is_gap(k as int, i, j) {
        1u8
    } else {
        0u8
    } by {
        assert(j * 16 + i == 0 * 16 + i || j * 16 + i == 13 * 16 + i || (j * 16 + i != g1 && j * 16 + i != g2
            && j * 16 + i != 13 * 16 + g1 && j * 16 + i != 13 * 16 + g2));
    }
    if k == 0 {
        let plats: [(usize, usize, usize); 4] = [(2, 4, 12), (2, 7, 5), (9, 7, 5), (2, 10, 12)];
        assert(plats@ =~= platforms(0));
        fill_platforms(&mut lvl, &plats);
    } else if k == 1 {
        let plats: [(usize, usize, usize); 5] = [(2, 4, 4), (10, 4, 4), (5, 7, 6), (2, 10, 4), (10, 10, 4)];
        assert(plats@ =~= platforms(1));
        fill_platforms(&mut lvl, &plats);
    } else {
        let plats: [(usize, usize, usize); 6] = [(2, 3, 3), (11, 3, 3), (6, 6, 4), (2, 9, 3), (11, 9, 3), (5, 11, 6)];
        assert(plats@ =~= platforms(2));
        fill_platforms(&mut lvl, &plats);
    }
    lvl
}

/// Sets every tile that a platform of the list covers to wall.
fn fill_platforms(lvl: &mut Vec<u8>, plats: &[(usize, usize, usize)])
    requires
        old(lvl)@.len() == 224,
        forall|p: int|
            0 <= p < plats@.len() ==> (#[trigger] plats@[p]).1 < 14 && plats@[p].0 + plats@[p].2 <= 16,
    ensures
        final(lvl)@.len() == 224,
        forall|x: int, y: int|
            0 <= x < 16 && 0 <= y < 14 ==> #[trigger] final(lvl)@[y * 16 + x] == if covered(
                plats@,
                plats@.len() as int,
                x,
                y,
            ) {
                1u8
            } else {
                old(lvl)@[y * 16 + x]
            },
{
    let mut p: usize = 0;
    while p < plats.len()
        invariant
            0 <= p <= plats@.len(),
            lvl@.len() == 224,
            forall|q: int|
                0 <= q < plats@.len() ==> (#[trigger] plats@[q]).1 < 14 && plats@[q].0 + plats@[q].2 <= 16,
            forall|x: int, y: int|
                0 <= x < 16 && 0 <= y < 14 ==> #[trigger] lvl@[y * 16 + x] == if covered(plats@, p as int, x, y) {
                    1u8
                } else {
                    old(lvl)@[y * 16 + x]
                },
        decreases plats@.len() - p,
    {
        let (px, py, pw) = plats[p];
        let mut x: usize = 0;
        while x < pw
            invariant
                0 <= p < plats@.len(),
                (px, py, pw) == plats@[p as int],
                py < 14,
                px + pw <= 16,
                0 <= x <= pw,
                lvl@.len() == 224,
                forall|i: int, j: int|
                    0 <= i < 16 && 0 <= j < 14 ==> #[trigger] lvl@[j * 16 + i] == if covered(plats@, p as int, i, j)
                        || (j == py && px <= i < px + x) {
                        1u8
                    } else {
                        old(lvl)@[j * 16 + i]
                    },
            decreases pw - x,
        {
            lvl.set(py * 16 + px + x, 1);
            x += 1;
        }
        p += 1;
    }
}

/// The layouts repeat every three levels, and a column is open at both the
/// top and the bottom row (so that things fall through it) only at the
/// layout's openings.
pub proof fn lemma_layout_laws(idx: nat, x: int)
    requires
        0 <= x < LEVEL_WIDTH,
    ensures
        forall|c: int, r: int| #[trigger] layout_cell(((idx + 3) % 3) as int, c, r) == layout_cell((idx % 3) as int, c, r),
        layout_cell((idx % 3) as int, x, 0) != 1 && layout_cell((idx % 3) as int, x, 13) != 1 ==> is_gap(
            (idx % 3) as int,
            x,
            0,
        ),
{
    assert((idx + 3) % 3 == idx % 3);
}

/// A level: its tiles, row after row.
pub struct Level {
    pub tiles: Vec<u8>,
}

impl Level {
    /// Whether a level has all its tiles.
    pub open spec fn well_formed(&self) -> bool {
        self.tiles@.len() == LEVEL_TILES
    }

    /// The level of layout index `idx`.
    pub fn new(idx: usize) -> (l: Level)
        ensures
            l.well_formed(),
            forall|x: int, y: int|
                0 <= x < LEVEL_WIDTH && 0 <= y < LEVEL_HEIGHT ==> #[trigger] l.tiles@[y * 16 + x] == layout_cell(
                    (idx % 3) as int,
                    x,
                    y,
                ),
    {
        Level { tiles: get_level_layout(idx) }
    }

    /// Whether the tile at column `x`, row `y` stops movement: everything
    /// left and right of the level is wall, everything above and below it
    /// is air, and inside it a tile of value 1 is wall.
    pub fn is_wall(&self, x: i32, y: i32) -> (r: bool)
        requires
            self.well_formed(),
        ensures
            r == (x < 0 || x >= LEVEL_WIDTH || (0 <= y < LEVEL_HEIGHT && self.tiles@[y * 16 + x] == 1)),
    {
        if x < 0 || x >= 16 {
            return true;
        }
        if y < 0 || y >= 14 {
            return false;
        }
        self.tiles[(y * 16 + x) as usize] == 1
    }

    /// Whether something in column `x` that leaves through the top or the
    /// bottom comes back at the other side: the column is open at both.
    pub fn wraps_at(&self, x: i32) -> (r: bool)
        requires
            self.well_formed(),
        ensures
            r == (0 <= x < LEVEL_WIDTH && self.tiles@[x as int] != 1 && self.tiles@[13 * 16 + x] != 1),
    {
        !self.is_wall(x, 0) && !self.is_wall(x, 13)
    }
}

/// The generator of the game: a linear congruential generator whose state
/// starts at `RNG_SEED` and is shared by every draw.
#[derive(Clone, Copy, PartialEq, Eq, Structural, Debug)]
pub struct BubbleRng {
    pub seed: u32,
}

impl BubbleRng {
    /// The generator in its starting state.
    pub fn new() -> (r: BubbleRng)
        ensures
            r.seed == RNG_SEED,
    {
        BubbleRng { seed: RNG_SEED }
    }

    /// Steps the generator and returns bits 16 and up of the new state,
    /// modulo `max`.
    pub fn next_rand(&mut self, max: usize) -> (r: usize)
        requires
            max > 0,
        ensures
            final(self).seed == lcg_step(old(self).seed),
            r == (final(self).seed / 0x1_0000) as usize % max,
            r < max,
    {
        let a: u32 = self.seed.wrapping_mul(1103515245);
        let b: u32 = a.wrapping_add(12345);
        proof {
            let x: int = self.seed as int * 1103515245;
            vstd::arithmetic::div_mod::lemma_add_mod_noop(x, 12345, 0x1_0000_0000);
        }
        self.seed = b;
        let hi: u32 = b >> 16;
        assert(hi == b / 0x1_0000) by (bit_vector)
            requires
                hi == b >> 16,
        ;
        (hi as usize) % max
    }
}

/// The kinds of enemy.
#[derive(Clone, Copy, PartialEq, Eq, Structural, Debug)]
pub enum EnemyType {
    Walker,
    Flyer,
    Bouncer,
}

/// The power-ups a popped bubble can leave.
#[derive(Clone, Copy, PartialEq, Eq, Structural, Debug)]
pub enum UpgradeType {
    MoreBubbles,
    FasterBubbles,
    LongerDistance,
    DoubleSize,
}

/// The kind of enemy a draw below 3 stands for.
pub open spec fn enemy_for_roll(r: int) -> EnemyType {
    if r == 0 {
        EnemyType::Walker
    } else if r == 1 {
        EnemyType::Flyer
    } else {
        EnemyType::Bouncer
    }
}

/// The enemies level `idx` starts with, in order: fixed sets for the first
/// three levels and five of random kinds after that.
pub fn enemy_kinds(idx: usize, rng: &mut BubbleRng) -> (kinds: Vec<EnemyType>)
    ensures
        idx == 0 ==> kinds@ == seq![EnemyType::Walker, EnemyType::Walker, EnemyType::Walker, EnemyType::Walker]
            && *final(rng) == *old(rng),
        idx == 1 ==> kinds@ == seq![EnemyType::Walker, EnemyType::Walker, EnemyType::Bouncer, EnemyType::Bouncer]
            && *final(rng) == *old(rng),
        idx == 2 ==> kinds@ == seq![
            EnemyType::Flyer,
            EnemyType::Flyer,
            EnemyType::Walker,
            EnemyType::Walker,
            EnemyType::Bouncer,
        ] && *final(rng) == *old(rng),
        idx > 2 ==> kinds@.len() == 5 && final(rng).seed == lcg_state(old(rng).seed, 5) && forall|i: int|
            0 <= i < 5 ==> #[trigger] kinds@[i] == enemy_for_roll(
                ((lcg_state(old(rng).seed, i as nat + 1) / 0x1_0000) % 3) as int,
            ),
{
    if idx == 0 {
        vec![EnemyType::Walker, EnemyType::Walker, EnemyType::Walker, EnemyType::Walker]
    } else if idx == 1 {
        vec![EnemyType::Walker, EnemyType::Walker, EnemyType::Bouncer, EnemyType::Bouncer]
    } else if idx == 2 {
        vec![EnemyType::Flyer, EnemyType::Flyer, EnemyType::Walker, EnemyType::Walker, EnemyType::Bouncer]
    } else {
        let mut kinds: Vec<EnemyType> = Vec::new();
        let ghost s0 = rng.seed;
        let mut i: usize = 0;
        while i < 5
            invariant
                0 <= i <= 5,
                kinds@.len() == i,
                rng.seed == lcg_state(s0, i as nat),
                forall|k: int|
                    0 <= k < i ==> #[trigger] kinds@[k] == enemy_for_roll(
                        ((lcg_state(s0, k as nat + 1) / 0x1_0000) % 3) as int,
                    ),
            decreases 5 - i,
        {
            let r = rng.next_rand(3);
            let kind = if r == 0 {
                EnemyType::Walker
            } else if r == 1 {
                EnemyType::Flyer
            } else {
                EnemyType::Bouncer
            };
            kinds.push(kind);
            i += 1;
        }
        kinds
    }
}

/// What a popped bubble leaves for a draw below 10: one of the four
/// power-ups for draws 0 to 3, fruit only otherwise.
pub open spec fn upgrade_for_roll(r: int) -> Option<UpgradeType> {
    if r == 0 {
        Some(UpgradeType::MoreBubbles)
    } else if r == 1 {
        Some(UpgradeType::FasterBubbles)
    } else if r == 2 {
        Some(UpgradeType::LongerDistance)
    } else if r == 3 {
        Some(UpgradeType::DoubleSize)
    } else {
        None
    }
}

/// What a bubble a player pops leaves, drawn from the generator.
pub fn popped_bubble_drop(rng: &mut BubbleRng) -> (u: Option<UpgradeType>)
    ensures
        final(rng).seed == lcg_step(old(rng).seed),
        u == upgrade_for_roll(((final(rng).seed / 0x1_0000) % 10) as int),
{
    let r = rng.next_rand(10);
    if r == 0 {
        Some(UpgradeType::MoreBubbles)
    } else if r == 1 {
        Some(UpgradeType::FasterBubbles)
    } else if r == 2 {
        Some(UpgradeType::LongerDistance)
    } else if r == 3 {
        Some(UpgradeType::DoubleSize)
    } else {
        None
    }
}

/// Points a player earns for popping a bubble with an enemy in it.
pub const POP_SCORE: u32 = 500;

/// The state of a player that the end of the game depends on.
#[derive(Clone, Copy, PartialEq, Eq, Structural, Debug)]
pub struct PlayerLife {
    pub dead: bool,
    pub lives: u8,
}

/// Whether a player is dead with no life left.
pub open spec fn is_out(p: PlayerLife) -> bool {
    p.dead && p.lives == 0
}

/// Takes a life from a player an enemy caught (none below zero), and
/// reports whether every player is now dead with no life left.
pub fn lose_life(players: &mut Vec<PlayerLife>, i: usize) -> (game_over: bool)
    requires
        i < old(players)@.len(),
    ensures
        final(players)@ == old(players)@.update(
            i as int,
            PlayerLife {
                dead: true,
                lives: if old(players)@[i as int].lives > 0 {
                    (old(players)@[i as int].lives - 1) as u8
                } else {
                    0
                },
            },
        ),
        game_over == forall|k: int| 0 <= k < final(players)@.len() ==> is_out(#[trigger] final(players)@[k]),
        game_over ==> forall|k: int| 0 <= k < final(players)@.len() ==> (#[trigger] final(players)@[k]).lives == 0,
        old(players)@[i as int].lives > 1 ==> !game_over,
{
    let lives = players[i].lives;
    players.set(i, PlayerLife { dead: true, lives: lives.saturating_sub(1) });
    let ghost after = players@;
    let mut all: bool = true;
    let mut k: usize = 0;
    while k < players.len()
        invariant
            players@ == after,
            0 <= k <= players@.len(),
            all == forall|j: int| 0 <= j < k ==> is_out(#[trigger] players@[j]),
        decreases players@.len() - k,
    {
        if !(players[k].dead && players[k].lives == 0) {
            assert(!is_out(players@[k as int]));
            all = false;
        }
        k += 1;
    }
    proof {
        if lives > 1 {
            assert(!is_out(players@[i as int]));
        }
    }
    all
}

/// A player is out of the game only once dead with no life left: a player
/// with a life left, or one still alive, is not out.
pub proof fn lemma_out_needs_no_lives(p: PlayerLife)
    ensures
        p.lives > 0 ==> !is_out(p),
        !p.dead ==> !is_out(p),
        p.dead && p.lives == 0 ==> is_out(p),
{
}

/// While some player has a life left, losing a life never ends the game.
pub proof fn lemma_game_goes_on_with_lives(players: Seq<PlayerLife>)
    ensures
        (exists|k: int| 0 <= k < players.len() && (#[trigger] players[k]).lives > 0) ==> !forall|k: int|
            0 <= k < players.len() ==> is_out(#[trigger] players[k]),
{
}

/// Whether a level is cleared: no enemy left, the game still on, no
/// transition under way and no bubble holding an enemy.
pub fn level_cleared(enemies_left: usize, game_over: bool, in_transition: bool, trapped: &Vec<bool>) -> (r: bool)
    ensures
        r == (enemies_left == 0 && !game_over && !in_transition && forall|i: int|
            0 <= i < trapped@.len() ==> !#[trigger] trapped@[i]),
{
    if enemies_left != 0 || game_over || in_transition {
        return false;
    }
    let mut i: usize = 0;
    while i < trapped.len()
        invariant
            0 <= i <= trapped@.len(),
            forall|j: int| 0 <= j < i ==> !#[trigger] trapped@[j],
        decreases trapped@.len() - i,
    {
        if trapped[i] {
            return false;
        }
        i += 1;
    }
    true
}

// ---------------------------------------------------------------------------
// The notes of the background music.

/// The notes of the lead's scale, as MIDI numbers.
pub open spec fn lead_scale() -> Seq<i32> {
    seq![60i32, 62, 64, 65, 67, 69, 71, 72, 74, 76, 77, 79, 81, 83, 84]
}

/// The roots of the chord progression, two bars each, as MIDI numbers.
pub open spec fn chord_roots() -> Seq<i32> {
    seq![48i32, 53, 55, 45]
}

/// `v` limited to the places of the scale, 0 to 14.
pub open spec fn clamp_scale(v: int) -> int {
    if v < 0 {
        0
    } else if v > 14 {
        14
    } else {
        v
    }
}

/// The place in the scale of step `k` of the melody phrase numbered
/// `phrase`: a generator seeded with the phrase number picks a start in the
/// upper half of the scale, then each step moves down one, stays or moves up
/// one.
pub open spec fn melody_place(phrase: u32, k: nat) -> int
    decreases k,
{
    if k == 0 {
        lcg_state(phrase, 1) % 7 + 7
    } else {
        clamp_scale(melody_place(phrase, (k - 1) as nat) + lcg_state(phrase, k + 1) % 3 - 1)
    }
}

/// The lead note (a MIDI number) at step `step` of the melody phrase
/// `phrase`, and whether it sounds: on every other step, and on the others
/// when the next draw of the generator is a multiple of eight.
pub fn melody_note(phrase: u32, step: usize) -> (r: (i32, bool))
    requires
        step < 12,
    ensures
        r.0 == lead_scale()[melody_place(phrase, step as nat)],
        r.1 == (step % 2 == 0 || lcg_state(phrase, step as nat + 2) % 8 == 0),
{
    let scale: [i32; 15] = [60, 62, 64, 65, 67, 69, 71, 72, 74, 76, 77, 79, 81, 83, 84];
    assert(scale@ =~= lead_scale());
    let mut rng: u32 = phrase;
    lcg_advance(&mut rng);
    assert(rng == lcg_state(phrase, 1)) by {
        assert(lcg_state(phrase, 0) == phrase);
    }
    let mut note: usize = (rng % 7) as usize + 7;
    assert(note == melody_place(phrase, 0));
    let mut k: usize = 0;
    while k < step
        invariant
            k <= step < 12,
            rng == lcg_state(phrase, k as nat + 1),
            note == melody_place(phrase, k as nat),
            note <= 14,
        decreases step - k,
    {
        lcg_advance(&mut rng);
        assert(rng == lcg_state(phrase, k as nat + 2)) by {
            assert(lcg_state(phrase, (k as nat + 2) as nat) == lcg_step(lcg_state(phrase, (k as nat + 1) as nat)));
        }
        let d: usize = (rng % 3) as usize;
        let v: usize = note + d;
        note = if v < 1 {
            0
        } else if v - 1 > 14 {
            14
        } else {
            v - 1
        };
        assert(note == melody_place(phrase, k as nat + 1)) by {
            assert(melody_place(phrase, (k as nat + 1) as nat) == clamp_scale(
                melody_place(phrase, k as nat) + lcg_state(phrase, (k as nat + 1 + 1) as nat) % 3 - 1,
            ));
        }
        k += 1;
    }
    let plays = if step % 2 == 0 {
        true
    } else {
        lcg_advance(&mut rng);
        assert(rng == lcg_state(phrase, step as nat + 2)) by {
            assert(lcg_state(phrase, (step as nat + 2) as nat) == lcg_step(lcg_state(phrase, (step as nat + 1) as nat)));
        }
        rng % 8 == 0
    };
    (scale[note], plays)
}

/// The bass note (a MIDI number) on sixteenth `i` of the track: the root of
/// the bar's chord, a fifth above it on the seventh sixteenth of every
/// half bar of eight.
pub fn bass_note(i: usize) -> (n: i32)
    ensures
        n == chord_roots()[((i / 32) % 4) as int] + if i % 16 % 4 != 0 && i % 16 % 8 == 6 {
            7int
        } else {
            0int
        },
{
    let roots: [i32; 4] = [48, 53, 55, 45];
    assert(roots@ =~= chord_roots());
    let bar = i / 16;
    let root = roots[(bar / 2) % 4];
    assert((i / 16) / 2 == i / 32) by (nonlinear_arith);
    let step = i % 16;
    if step % 4 == 0 {
        root
    } else if step % 8 == 6 {
        root + 7
    } else {
        root
    }
}

} // verus!
