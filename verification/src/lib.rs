//! Game logic shared by a small collection of arcade games: a match-3 board,
//! a falling-block board with rotating tetrominoes, a 2x2 colour-block board
//! with a sweeping timeline, level layouts, leaderboards, procedural music
//! arrangements and WAV encoding.

pub mod rng;
pub mod permutation;
pub mod match3;
pub mod match3_classic;
pub mod match3_combo;
pub mod leaderboard;
pub mod text;
pub mod tetris;
pub mod theme;
pub mod lumines;
pub mod music;
pub mod wav;
pub mod bubbles;
pub mod jetpac;
pub mod voxeldash;
