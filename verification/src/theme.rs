//! Block colours and shapes of the colour-block puzzle, and the choice of
//! skin for a level.

use vstd::prelude::*;

verus! {

/// The two block colours.
#[derive(Clone, Copy, PartialEq, Eq, Structural, Debug)]
pub enum BlockColor {
    ColorA,
    ColorB,
}

/// How a block of one colour is drawn.
#[derive(Clone, Copy, PartialEq, Eq, Structural, Debug)]
pub enum BlockShape {
    Square,
    Circle,
    Diamond,
    Cross,
}

/// The skin for a level of the challenge progression: the first fifteen
/// skins last four levels each (levels 1 to 60), the next nine five levels
/// each (levels 61 to 105), after which the cycle starts again; level 0
/// counts as level 1.
pub open spec fn skin_for_level(level: int) -> int
    decreases level,
{
    if level <= 60 {
        if level >= 1 {
            (level - 1) / 4
        } else {
            0
        }
    } else if level <= 105 {
        15 + (level - 61) / 5
    } else {
        skin_for_level((level - 106) % 105 + 1)
    }
}

/// The theme the engine shows, out of a fixed number of themes.
pub struct ThemeEngine {
    pub theme_count: usize,
    pub current_theme_idx: usize,
}

impl ThemeEngine {
    /// An engine over `theme_count` themes, showing the first.
    pub fn new(theme_count: usize) -> (e: ThemeEngine)
        requires
            theme_count > 0,
        ensures
            e.theme_count == theme_count,
            e.current_theme_idx == 0,
    {
        ThemeEngine { theme_count, current_theme_idx: 0 }
    }

    /// The theme suggested for a level: its skin number, wrapped around the
    /// number of themes.
    pub fn get_suggested_theme_idx(&self, level: u32) -> (idx: usize)
        requires
            self.theme_count > 0,
        ensures
            idx == skin_for_level(level as int) % (self.theme_count as int),
            idx < self.theme_count,
        decreases level,
    {
        let skin_num: usize = if level <= 60 {
            (level.saturating_sub(1) / 4) as usize
        } else if level <= 105 {
            15 + ((level.saturating_sub(61) / 5) as usize)
        } else {
            let loop_level = (level.saturating_sub(106) % 105) + 1;
            return self.get_suggested_theme_idx(loop_level);
        };
        skin_num % self.theme_count
    }
}

} // verus!
