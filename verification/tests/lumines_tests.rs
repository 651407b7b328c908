use wasm_games::leaderboard::ScoreEntry;
use wasm_games::lumines::{self, ActiveBlock, Playfield, COLS, ROWS};
use wasm_games::theme::BlockColor::{self, ColorA, ColorB};

fn empty_field() -> Playfield {
    let mut p = Playfield::new();
    p.grid = [[None; COLS]; ROWS];
    p.marked = [[false; COLS]; ROWS];
    p
}

#[test]
fn new_playfield_is_empty() {
    let p = Playfield::new();
    for y in 0..ROWS {
        for x in 0..COLS {
            assert!(p.grid[y][x].is_none());
            assert!(!p.marked[y][x]);
        }
    }
    assert_eq!((p.active.x, p.active.y), (7, -2));
    assert_eq!(p.score, 0);
    assert!(!p.game_over);
}

#[test]
fn rotations_round_trip() {
    let mut b = ActiveBlock::new([[ColorA, ColorB], [ColorB, ColorB]], [[true, false], [false, false]]);
    b.rotate_cw();
    assert_eq!(b.colors, [[ColorB, ColorA], [ColorB, ColorB]]);
    assert_eq!(b.is_chain, [[false, true], [false, false]]);
    b.rotate_ccw();
    assert_eq!(b.colors, [[ColorA, ColorB], [ColorB, ColorB]]);
    for _ in 0..4 {
        b.rotate_cw();
    }
    assert_eq!(b.colors, [[ColorA, ColorB], [ColorB, ColorB]]);
    assert_eq!(b.is_chain, [[true, false], [false, false]]);
}

#[test]
fn collisions_and_moves() {
    let mut p = empty_field();
    assert!(!p.collides(7, -2));
    assert!(p.collides(-1, 0));
    assert!(p.collides(15, 0));
    assert!(p.collides(0, 9));
    p.grid[5][3] = Some(ColorA);
    assert!(p.collides(2, 4));
    p.active.x = 2;
    p.active.y = 2;
    assert!(p.move_active(0, 1));
    assert_eq!(p.active.y, 3);
    assert!(!p.move_active(0, 1));
    assert_eq!(p.active.y, 3);
}

#[test]
fn update_matches_marks_squares() {
    let mut p = empty_field();
    p.grid[8][0] = Some(ColorA);
    p.grid[8][1] = Some(ColorA);
    p.grid[9][0] = Some(ColorA);
    p.grid[9][1] = Some(ColorA);
    p.grid[9][2] = Some(ColorB);
    assert!(p.update_matches());
    assert!(p.marked[8][0] && p.marked[8][1] && p.marked[9][0] && p.marked[9][1]);
    assert!(!p.marked[9][2]);
    assert!(!p.update_matches());
}

#[test]
fn gravity_compacts_columns() {
    let mut p = empty_field();
    p.grid[2][4] = Some(ColorA);
    p.grid[5][4] = Some(ColorB);
    p.grid[9][4] = Some(ColorA);
    let drops = p.apply_gravity();
    assert_eq!(p.grid[7][4], Some(ColorA));
    assert_eq!(p.grid[8][4], Some(ColorB));
    assert_eq!(p.grid[9][4], Some(ColorA));
    assert!(p.grid[2][4].is_none() && p.grid[5][4].is_none());
    assert_eq!(drops.len(), 2);
    assert!(drops.contains(&(4, 2, 7)));
    assert!(drops.contains(&(4, 5, 8)));
}

#[test]
fn flood_marks_connected_group() {
    let mut p = empty_field();
    p.grid[9][0] = Some(ColorA);
    p.grid[9][1] = Some(ColorA);
    p.grid[8][1] = Some(ColorA);
    p.grid[9][2] = Some(ColorB);
    p.grid[9][3] = Some(ColorA);
    assert_eq!(p.flood_mark_chain(0, 9), 3);
    assert!(p.marked[9][0] && p.marked[9][1] && p.marked[8][1]);
    assert!(!p.marked[9][3] && !p.marked[9][2]);
    assert_eq!(p.flood_mark_chain(0, 9), 0);
    assert_eq!(p.flood_mark_chain(5, 5), 0);
}

#[test]
fn lock_places_block_and_spawns_next() {
    let mut p = empty_field();
    p.active = ActiveBlock::new([[ColorA, ColorA], [ColorA, ColorA]], [[false; 2]; 2]);
    p.active.y = 8;
    p.next_block = [[ColorB, ColorB], [ColorB, ColorA]];
    let out = p.lock_active();
    assert!(out.new_match);
    assert_eq!(p.grid[8][7], Some(ColorA));
    assert_eq!(p.grid[9][8], Some(ColorA));
    assert!(p.marked[9][8]);
    assert_eq!(p.active.colors, [[ColorB, ColorB], [ColorB, ColorA]]);
    assert_eq!((p.active.x, p.active.y), (7, -2));
    assert!(!p.game_over);
    let chains = p.next_chain.iter().flatten().filter(|c| **c).count();
    assert!(chains <= 1);
}

#[test]
fn lock_above_top_ends_game() {
    let mut p = empty_field();
    p.active.y = -1;
    let out = p.lock_active();
    assert!(p.game_over);
    assert!(!out.chained);
}

#[test]
fn sweep_scores_squares_and_combo() {
    let mut p = empty_field();
    for (y, x) in [(8, 0), (8, 1), (9, 0), (9, 1)] {
        p.grid[y][x] = Some(ColorB);
    }
    p.update_matches();
    let s0 = p.sweep_column(0);
    assert_eq!(s0.squares, 1);
    assert_eq!(s0.cleared, 2);
    assert_eq!(s0.blocks, vec![(8, ColorB), (9, ColorB)]);
    p.add_square_score(s0.squares);
    assert_eq!(p.score, lumines::SCORE_PER_SQUARE);
    let s1 = p.sweep_column(1);
    assert_eq!(s1.squares, 0);
    assert_eq!(s1.cleared, 2);
    p.add_square_score(s1.squares);
    assert_eq!(p.squares_cleared_this_sweep, 1);
    p.finish_sweep();
    assert_eq!(p.combo, 0);
    assert_eq!(p.squares_cleared_this_sweep, 0);
    p.squares_cleared_this_sweep = lumines::COMBO_MIN_SQUARES;
    p.finish_sweep();
    assert_eq!(p.combo, 1);
    p.add_square_score(2);
    assert_eq!(p.score, 50 + 2 * 50 * 2);
}

#[test]
fn leaderboard_rank_of_new_entry() {
    let mut p = empty_field();
    p.high_scores = vec![
        ScoreEntry { name: "A".to_string(), score: 300 },
        ScoreEntry { name: "B".to_string(), score: 100 },
    ];
    p.score = 200;
    assert!(p.qualifies_for_leaderboard());
    p.add_to_leaderboard(&"Me".to_string());
    assert_eq!(p.new_score_rank, Some(1));
    assert_eq!(p.high_scores[1].name, "Me");
    assert_eq!(p.high_scores.len(), 3);
}

#[test]
fn leaderboard_full_table_drops_low_score() {
    let mut p = empty_field();
    for i in 0..lumines::MAX_HIGH_SCORES {
        p.high_scores.push(ScoreEntry { name: "X".to_string(), score: 1000 - i as u32 });
    }
    p.score = 5;
    assert!(!p.qualifies_for_leaderboard());
    p.add_to_leaderboard(&"Me".to_string());
    assert_eq!(p.new_score_rank, None);
    assert_eq!(p.high_scores.len(), lumines::MAX_HIGH_SCORES);
}

#[test]
fn random_blocks_have_at_most_one_chain() {
    for _ in 0..50 {
        let (_, chains) = lumines::random_block_with_chain();
        let n = chains.iter().flatten().filter(|c| **c).count();
        assert!(n <= 1);
        let c: BlockColor = lumines::random_color();
        assert!(c == ColorA || c == ColorB);
    }
}

#[test]
fn rotate_active_turns_in_place() {
    let mut p = empty_field();
    p.active = ActiveBlock::new([[ColorA, ColorB], [ColorB, ColorA]], [[false; 2]; 2]);
    p.active.y = 3;
    assert!(p.rotate_active());
    assert_eq!(p.active.colors, [[ColorB, ColorA], [ColorA, ColorB]]);
    p.grid[3][7] = Some(ColorA);
    let before = p.active.colors;
    assert!(!p.rotate_active());
    assert_eq!(p.active.colors, before);
}

#[test]
fn drop_active_stops_on_blocks() {
    let mut p = empty_field();
    p.grid[9][7] = Some(ColorB);
    p.active.y = -2;
    p.drop_active();
    assert_eq!(p.active.y, 7);
    assert!(p.collides(p.active.x, p.active.y + 1));
}

#[test]
fn timeline_sweeps_a_path_with_wraparound() {
    let mut p = empty_field();
    for (y, x) in [(8, 15), (9, 15), (8, 0), (9, 0), (8, 1), (9, 1)] {
        p.grid[y][x] = Some(ColorA);
    }
    p.update_matches();
    assert!(p.marked[8][15] == false);
    assert!(p.marked[8][0] && p.marked[9][1]);
    // Columns 15, 16 and 17 of the path are field columns 15, 0 and 1.
    let step = p.sweep_columns(15, 17);
    assert_eq!(step.squares, 1);
    assert_eq!(step.cleared, 4);
    assert!(step.cleared_columns[0] && step.cleared_columns[1] && !step.cleared_columns[15]);
    assert_eq!(step.blocks.len(), 4);
    assert!(step.blocks.contains(&(0, 8, ColorA)));
    assert!(p.grid[8][0].is_none() && p.grid[9][1].is_none());
    assert_eq!(p.grid[8][15], Some(ColorA));
    let again = p.sweep_columns(0, 1);
    assert_eq!((again.squares, again.cleared), (0, 0));
}

#[test]
fn timeline_counts_square_before_clearing_its_right_half() {
    let mut p = empty_field();
    for (y, x) in [(0, 3), (0, 4), (1, 3), (1, 4), (0, 5), (1, 5)] {
        p.grid[y][x] = Some(ColorB);
    }
    p.update_matches();
    let step = p.sweep_columns(3, 5);
    assert_eq!(step.squares, 2);
    assert_eq!(step.cleared, 6);
}

#[test]
fn chain_cells_follow_the_draws() {
    let c = lumines::chains_for(3, 1, 0);
    assert_eq!(c, [[false, false], [true, false]]);
    let none = lumines::chains_for(lumines::CHAIN_PROBABILITY, 1, 0);
    assert_eq!(none, [[false; 2]; 2]);
}

#[test]
fn random_colours_take_both_values() {
    let mut seen_a = false;
    let mut seen_b = false;
    for _ in 0..400 {
        match lumines::random_color() {
            ColorA => seen_a = true,
            ColorB => seen_b = true,
        }
    }
    assert!(seen_a && seen_b);
}

#[test]
fn rolls_pick_the_colours() {
    assert_eq!(lumines::color_for_roll(0), ColorA);
    assert_eq!(lumines::color_for_roll(1), ColorB);
    assert_eq!(lumines::block_for_rolls([0, 1, 1, 0]), [[ColorA, ColorB], [ColorB, ColorA]]);
    assert_eq!(lumines::block_for_rolls([1, 1, 1, 1]), [[ColorB, ColorB], [ColorB, ColorB]]);
}
