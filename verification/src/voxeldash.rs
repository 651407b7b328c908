//! The voxel terrain game: a 31x31 height map the player can carve, and the
//! keys the page reports each tick.

use vstd::prelude::*;

verus! {

/// Cells along each side of the height map.
pub const GRID: usize = 31;
/// Cells in the height map.
pub const CELLS: usize = 961;
/// The offset from world coordinates to cell coordinates.
pub const HALF: i32 = 15;
/// The lowest height the generated terrain has.
pub const TERRAIN_FLOOR: i32 = -2;
/// Carving stops at this height.
pub const CARVE_FLOOR: i32 = -3;

/// `v` limited to the cells of a side: 0 to 30.
pub open spec fn clamp_cell(v: int) -> int {
    if v < 0 {
        0
    } else if v > 30 {
        30
    } else {
        v
    }
}

/// The index of cell `(x, z)` in the height map.
pub open spec fn cell_index(x: int, z: int) -> int {
    x * 31 + z
}

/// The cell coordinate of a rounded world coordinate.
pub fn cell_of(r: i32) -> (c: usize)
    requires
        r <= i32::MAX - HALF,
    ensures
        c == clamp_cell(r + HALF),
{
    let v = r + HALF;
    if v < 0 {
        0
    } else if v > 30 {
        30
    } else {
        v as usize
    }
}

/// How many of the first `n` keys are `a` or `b`.
pub open spec fn count_keys(keys: Seq<u8>, a: u8, b: u8, n: int) -> nat
    decreases n,
{
    if n <= 0 {
        0
    } else {
        count_keys(keys, a, b, n - 1) + if keys[n - 1] == a || keys[n - 1] == b {
            1nat
        } else {
            0nat
        }
    }
}

/// What the keys held during a tick ask for: the number of keys for each
/// direction, and whether jump, lift and carve are held.
#[derive(Clone, Copy, PartialEq, Eq, Structural, Debug)]
pub struct KeyState {
    /// W or up arrow.
    pub forward: usize,
    /// S or down arrow.
    pub back: usize,
    /// A or left arrow.
    pub left: usize,
    /// D or right arrow.
    pub right: usize,
    /// Space.
    pub jump: bool,
    /// Shift.
    pub lifting: bool,
    /// E.
    pub carving: bool,
}

/// Reads the key codes the page reports: W (87) and up (38) forward, S (83)
/// and down (40) back, A (65) and left (37), D (68) and right (39), space
/// (32) jump, shift (16) lift, E (69) carve; other codes are ignored.
pub fn read_keys(keys: &Vec<u8>) -> (k: KeyState)
    ensures
        k.forward == count_keys(keys@, 87, 38, keys@.len() as int),
        k.back == count_keys(keys@, 83, 40, keys@.len() as int),
        k.left == count_keys(keys@, 65, 37, keys@.len() as int),
        k.right == count_keys(keys@, 68, 39, keys@.len() as int),
        k.jump == keys@.contains(32),
        k.lifting == keys@.contains(16),
        k.carving == keys@.contains(69),
{
    let mut k = KeyState { forward: 0, back: 0, left: 0, right: 0, jump: false, lifting: false, carving: false };
    let mut i: usize = 0;
    while i < keys.len()
        invariant
            0 <= i <= keys@.len(),
            k.forward == count_keys(keys@, 87, 38, i as int),
            k.back == count_keys(keys@, 83, 40, i as int),
            k.left == count_keys(keys@, 65, 37, i as int),
            k.right == count_keys(keys@, 68, 39, i as int),
            k.forward <= i && k.back <= i && k.left <= i && k.right <= i,
            k.jump == exists|j: int| 0 <= j < i && keys@[j] == 32,
            k.lifting == exists|j: int| 0 <= j < i && keys@[j] == 16,
            k.carving == exists|j: int| 0 <= j < i && keys@[j] == 69,
        decreases keys@.len() - i,
    {
        let key = keys[i];
        if key == 87 || key == 38 {
            k.forward += 1;
        } else if key == 83 || key == 40 {
            k.back += 1;
        } else if key == 65 || key == 37 {
            k.left += 1;
        } else if key == 68 || key == 39 {
            k.right += 1;
        } else if key == 32 {
            k.jump = true;
        } else if key == 16 {
            k.lifting = true;
        } else if key == 69 {
            k.carving = true;
        }
        i += 1;
    }
    k
}

/// The cell of offset number `t` (0 to 24) around `(px, pz)`: the offsets
/// run over `-2..=2` in x, and within each over `-2..=2` in z, clamped to
/// the map.
pub open spec fn offset_cell(px: int, pz: int, t: int) -> (int, int) {
    (clamp_cell(px + t / 5 - 2), clamp_cell(pz + t % 5 - 2))
}

/// How many of the first `t` offsets around `(px, pz)` land on `(x, z)`.
pub open spec fn visits(px: int, pz: int, x: int, z: int, t: int) -> nat
    decreases t,
{
    if t <= 0 {
        0
    } else {
        visits(px, pz, x, z, t - 1) + if offset_cell(px, pz, t - 1) == (x, z) {
            1nat
        } else {
            0nat
        }
    }
}

/// A height `v` carved `k` times: one lower each time, down to
/// `CARVE_FLOOR`; a height at or below it stays.
pub open spec fn carved(v: int, k: int) -> int {
    if v > CARVE_FLOOR {
        if v - k > CARVE_FLOOR {
            v - k
        } else {
            CARVE_FLOOR as int
        }
    } else {
        v
    }
}

/// The terrain: heights of the 31x31 cells, `heights[x * 31 + z]`.
pub struct HeightMap {
    pub heights: Vec<i32>,
}

impl HeightMap {
    /// Whether the map has all its cells.
    pub open spec fn well_formed(&self) -> bool {
        self.heights@.len() == CELLS
    }

    /// The terrain for generated noise heights: each at least
    /// `TERRAIN_FLOOR`.
    pub fn from_noise(noise: &Vec<i32>) -> (m: HeightMap)
        requires
            noise@.len() == CELLS,
        ensures
            m.well_formed(),
            forall|i: int|
                0 <= i < CELLS ==> #[trigger] m.heights@[i] == if noise@[i] < TERRAIN_FLOOR {
                    TERRAIN_FLOOR
                } else {
                    noise@[i]
                },
    {
        let mut heights: Vec<i32> = Vec::new();
        let mut i: usize = 0;
        while i < CELLS
            invariant
                noise@.len() == CELLS,
                0 <= i <= CELLS,
                heights@.len() == i,
                forall|j: int|
                    0 <= j < i ==> #[trigger] heights@[j] == if noise@[j] < TERRAIN_FLOOR {
                        TERRAIN_FLOOR
                    } else {
                        noise@[j]
                    },
            decreases CELLS - i,
        {
            let v = noise[i];
            heights.push(if v < TERRAIN_FLOOR { TERRAIN_FLOOR } else { v });
            i += 1;
        }
        HeightMap { heights }
    }

    /// The height of cell `(x, z)`.
    pub fn height_at(&self, x: usize, z: usize) -> (h: i32)
        requires
            self.well_formed(),
            x < GRID,
            z < GRID,
        ensures
            h == self.heights@[cell_index(x as int, z as int)],
    {
        self.heights[x * 31 + z]
    }

    /// Carves around cell `(px, pz)` when `tick` says a carving step is due:
    /// each of the 25 offsets `-2..=2` by `-2..=2`, clamped to the map,
    /// lowers its cell by one unless the cell is at `CARVE_FLOOR` or below
    /// (cells at the edge are visited once per offset that lands on them).
    pub fn carve(&mut self, px: usize, pz: usize, tick: bool)
        requires
            old(self).well_formed(),
            px < GRID,
            pz < GRID,
        ensures
            final(self).well_formed(),
            forall|x: int, z: int|
                0 <= x < GRID && 0 <= z < GRID ==> #[trigger] final(self).heights@[cell_index(x, z)] == if tick {
                    carved(old(self).heights@[cell_index(x, z)] as int, visits(px as int, pz as int, x, z, 25) as int)
                } else {
                    old(self).heights@[cell_index(x, z)] as int
                },
    {
        if !tick {
            return;
        }
        let ghost h0 = self.heights@;
        let mut ox: i32 = -2;
        while ox <= 2
            invariant
                -2 <= ox <= 3,
                px < GRID,
                pz < GRID,
                self.heights@.len() == CELLS,
                h0 == old(self).heights@,
                forall|x: int, z: int|
                    0 <= x < GRID && 0 <= z < GRID ==> #[trigger] self.heights@[cell_index(x, z)] == carved(
                        h0[cell_index(x, z)] as int,
                        visits(px as int, pz as int, x, z, 5 * (ox + 2)) as int,
                    ),
            decreases 3 - ox,
        {
            let mut oz: i32 = -2;
            while oz <= 2
                invariant
                    -2 <= ox <= 2,
                    -2 <= oz <= 3,
                    px < GRID,
                    pz < GRID,
                    self.heights@.len() == CELLS,
                    h0 == old(self).heights@,
                    forall|x: int, z: int|
                        0 <= x < GRID && 0 <= z < GRID ==> #[trigger] self.heights@[cell_index(x, z)] == carved(
                            h0[cell_index(x, z)] as int,
                            visits(px as int, pz as int, x, z, 5 * (ox + 2) + (oz + 2)) as int,
                        ),
                decreases 3 - oz,
            {
                let ghost t: int = 5 * (ox + 2) + (oz + 2);
                let vx = px as i32 + ox;
                let vz = pz as i32 + oz;
                let nx: usize = if vx < 0 {
                    0
                } else if vx > 30 {
                    30
                } else {
                    vx as usize
                };
                let nz: usize = if vz < 0 {
                    0
                } else if vz > 30 {
                    30
                } else {
                    vz as usize
                };
                proof {
                    assert(t / 5 == ox + 2 && t % 5 == oz + 2) by (nonlinear_arith)
                        requires
                            t == 5 * (ox + 2) + (oz + 2),
                            0 <= oz + 2 < 5,
                    ;
                    assert(offset_cell(px as int, pz as int, t) == (nx as int, nz as int));
                }
                let idx = nx * 31 + nz;
                let ghost before = self.heights@;
                if self.heights[idx] > CARVE_FLOOR {
                    let v = self.heights[idx];
                    self.heights.set(idx, v - 1);
                }
                proof {
                    assert forall|x: int, z: int| 0 <= x < GRID && 0 <= z < GRID implies #[trigger] self.heights@[cell_index(
                        x,
                        z,
                    )] == carved(h0[cell_index(x, z)] as int, visits(px as int, pz as int, x, z, t + 1) as int) by {
                        if x == nx && z == nz {
                        } else {
                            assert(cell_index(x, z) != idx);
                            assert(self.heights@[cell_index(x, z)] == before[cell_index(x, z)]);
                        }
                    }
                }
                oz += 1;
            }
            ox += 1;
        }
    }
}

/// Carving lowers a height by at most the number of visits and never takes
/// it below `CARVE_FLOOR` (nor changes one already at or below it).
pub proof fn lemma_carved_bounds(v: int, k: int)
    requires
        k >= 0,
    ensures
        carved(v, k) <= v,
        carved(v, k) >= v - k,
        v > CARVE_FLOOR ==> carved(v, k) >= CARVE_FLOOR,
        v <= CARVE_FLOOR ==> carved(v, k) == v,
{
}

} // verus!
