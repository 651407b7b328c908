use wasm_games::match3::{self, GenerationRules, LeaderboardEntry, Settled, COLS, ROWS};
use wasm_games::match3_classic;
use wasm_games::match3_combo;

fn no_match_anywhere(grid: &match3::Grid) -> bool {
    for y in 0..ROWS {
        for x in 0..COLS {
            if match3::has_match(grid, x, y) {
                return false;
            }
        }
    }
    true
}

#[test]
fn main_test_board_initialization() {
    let board = match3_classic::Board::new(vec![]);
    for y in 0..ROWS {
        for x in 0..COLS {
            assert!(board.grid[y][x].is_some(), "Every cell should be filled");
        }
    }
}

#[test]
fn main_test_initial_board_has_no_matches() {
    let board = match3_classic::Board::new(vec![]);
    assert!(board.find_matches().is_empty(), "Initial board should not have matches");
}

#[test]
fn test_match_detection_horizontal() {
    let mut board = match3_classic::Board {
        grid: [[Some(10); COLS]; ROWS],
        score: 0,
        selected: None,
        high_scores: vec![],
        new_record: false,
    };
    for y in 0..ROWS {
        for x in 0..COLS {
            board.grid[y][x] = Some(((y * COLS + x) % 10 + 10) as u8);
        }
    }
    board.grid[0][0] = Some(1);
    board.grid[0][1] = Some(1);
    board.grid[0][2] = Some(1);

    let matches = board.find_matches();
    assert!(!matches.is_empty(), "Matches should be found");
    assert!(matches.contains(&(0, 0)));
    assert!(matches.contains(&(1, 0)));
    assert!(matches.contains(&(2, 0)));
}

#[test]
fn test_board_initialization() {
    let board = match3_combo::Board::new(match3_combo::default_high_scores());
    for y in 0..ROWS {
        for x in 0..COLS {
            assert!(board.grid[y][x].is_some());
        }
    }
}

#[test]
fn test_initial_board_has_no_matches() {
    let board = match3_combo::Board::new(match3_combo::default_high_scores());
    assert!(board.find_matches().is_empty());
}

#[test]
fn classic_tiles_stay_below_seven_kinds() {
    for _ in 0..20 {
        let board = match3_classic::Board::new(vec![]);
        for y in 0..ROWS {
            for x in 0..COLS {
                assert!(board.grid[y][x].unwrap() < match3_classic::TILE_TYPES);
            }
        }
        assert!(no_match_anywhere(&board.grid));
    }
}

#[test]
fn classic_clear_matches_scores_ten_per_tile() {
    let mut board = match3_classic::Board::new(vec![]);
    for y in 0..ROWS {
        for x in 0..COLS {
            board.grid[y][x] = Some(((y * COLS + x) % 10 + 10) as u8);
        }
    }
    board.grid[3][2] = Some(1);
    board.grid[4][2] = Some(1);
    board.grid[5][2] = Some(1);
    board.grid[6][2] = Some(1);
    let n = board.clear_matches();
    assert_eq!(n, 4);
    assert_eq!(board.score, 40);
    for y in 3..7 {
        assert!(board.grid[y][2].is_none());
    }
    assert_eq!(board.grid[2][2], Some(((2 * COLS + 2) % 10 + 10) as u8));
    assert_eq!(board.clear_matches(), 0);
    assert_eq!(board.score, 40);
}

#[test]
fn classic_gravity_drops_one_row_and_refills_top() {
    let mut board = match3_classic::Board::new(vec![]);
    let above = board.grid[4][3];
    let top = board.grid[0][3];
    board.grid[5][3] = None;
    assert!(board.apply_gravity());
    assert_eq!(board.grid[5][3], above);
    assert_eq!(board.grid[1][3], top);
    assert!(board.grid[0][3].unwrap() < match3_classic::TILE_TYPES);
    assert!(!board.apply_gravity());
}

#[test]
fn classic_swap_twice_restores() {
    let mut board = match3_classic::Board::new(vec![]);
    let before = board.grid;
    board.swap(0, 0, 1, 0);
    assert_eq!(board.grid[0][0], before[0][1]);
    assert_eq!(board.grid[0][1], before[0][0]);
    board.swap(0, 0, 1, 0);
    assert_eq!(board.grid, before);
}

#[test]
fn classic_leaderboard_keeps_five_best() {
    let mut board = match3_classic::Board::new(vec![500, 400, 300, 200, 100]);
    board.score = 250;
    assert!(board.update_leaderboard());
    assert_eq!(board.high_scores, vec![500, 400, 300, 250, 200]);
    assert!(!board.new_record);
    board.score = 50;
    assert!(!board.update_leaderboard());
    assert_eq!(board.high_scores, vec![500, 400, 300, 250, 200]);
    board.score = 900;
    assert!(board.update_leaderboard());
    assert!(board.new_record);
    assert_eq!(board.high_scores[0], 900);
    assert_eq!(board.high_scores.len(), 5);
}

#[test]
fn classic_empty_table_takes_any_score() {
    let mut board = match3_classic::Board::new(vec![]);
    board.score = 0;
    assert!(board.update_leaderboard());
    assert!(board.new_record);
    assert_eq!(board.high_scores, vec![0]);
}

#[test]
fn classic_sort_high_scores_descending() {
    assert_eq!(match3_classic::sort_high_scores(vec![3, 9, 1, 9, 4]), vec![9, 9, 4, 3, 1]);
}

#[test]
fn combo_default_table() {
    let t = match3_combo::default_high_scores();
    assert_eq!(t.len(), 5);
    for e in &t {
        assert_eq!(e.0, "---");
        assert_eq!(e.1, 0);
    }
}

#[test]
fn combo_clear_matches_multiplies_by_cascade() {
    let mut board = match3_combo::Board::new(vec![]);
    for y in 0..ROWS {
        for x in 0..COLS {
            board.grid[y][x] = Some(((y * COLS + x) % 10 + 10) as u8);
        }
    }
    board.grid[7][0] = Some(2);
    board.grid[7][1] = Some(2);
    board.grid[7][2] = Some(2);
    board.combo_count = 3;
    assert_eq!(board.clear_matches(), 3);
    assert_eq!(board.score, 90);
}

#[test]
fn combo_leaderboard_orders_and_flags_record() {
    let mut board = match3_combo::Board::new(match3_combo::default_high_scores());
    board.score = 10;
    assert!(board.qualifies_for_leaderboard());
    board.add_to_leaderboard("ABC".to_string(), 10);
    assert!(board.new_record);
    assert_eq!(board.high_scores[0], ("ABC".to_string(), 10));
    assert_eq!(board.high_scores.len(), 5);
    board.add_to_leaderboard("XYZ".to_string(), 10);
    assert!(!board.new_record);
    assert_eq!(board.high_scores[1], ("XYZ".to_string(), 10));
}

#[test]
fn combo_cycle_char_wraps() {
    assert_eq!(match3_combo::cycle_char('A', true), 'B');
    assert_eq!(match3_combo::cycle_char('A', false), '?');
    assert_eq!(match3_combo::cycle_char('?', true), 'A');
    assert_eq!(match3_combo::cycle_char('Z', true), '0');
    assert_eq!(match3_combo::cycle_char('9', true), ' ');
    assert_eq!(match3_combo::cycle_char('#', true), 'B');
    for c in ['A', 'M', 'Z', '0', '5', ' ', '.', '!', '?'] {
        let up = match3_combo::cycle_char(c, true);
        assert_eq!(match3_combo::cycle_char(up, false), c);
    }
}

#[test]
fn board_starts_on_level_one() {
    let board = match3::Board::new(vec![]);
    assert_eq!(board.level, 1);
    assert_eq!(board.level_goal, match3::FIRST_LEVEL_GOAL);
    assert_eq!(board.active_tile_types(), 6);
    assert!(no_match_anywhere(&board.grid));
    for y in 0..ROWS {
        for x in 0..COLS {
            assert!(board.grid[y][x].unwrap() < 6);
        }
    }
}

#[test]
fn tile_kinds_grow_with_level() {
    let mut board = match3::Board::new(vec![]);
    board.level = 3;
    assert_eq!(board.active_tile_types(), 7);
    board.level = 100;
    assert_eq!(board.active_tile_types(), match3::TILE_TYPES);
}

#[test]
fn generation_rules_default() {
    let r = GenerationRules::default();
    assert_eq!(r.min_initial_moves, 3);
    assert_eq!(r.max_attempts, 100);
}

#[test]
fn clear_matches_slow_mode_halves() {
    let mut board = match3::Board::new(vec![]);
    for y in 0..ROWS {
        for x in 0..COLS {
            board.grid[y][x] = Some(((y * COLS + x) % 10 + 10) as u8);
        }
    }
    board.grid[0][5] = Some(1);
    board.grid[0][6] = Some(1);
    board.grid[0][7] = Some(1);
    board.combo_count = 1;
    assert_eq!(board.clear_matches(true), 3);
    assert_eq!(board.score, 15);
    assert_eq!(board.level_tiles_cleared, 3);
}

#[test]
fn settle_counts_cascades_and_levels() {
    let mut board = match3::Board::new(vec![]);
    for y in 0..ROWS {
        for x in 0..COLS {
            board.grid[y][x] = Some(((y * COLS + x) % 10 + 10) as u8);
        }
    }
    board.grid[0][0] = Some(1);
    board.grid[0][1] = Some(1);
    board.grid[0][2] = Some(1);
    board.combo_count = 1;
    assert_eq!(board.settle(), Settled::Cascade(3));
    assert_eq!(board.combo_count, 2);
    assert_eq!(board.max_combo, 2);
    board.grid[0][0] = Some(30);
    board.level_tiles_cleared = board.level_goal;
    assert_eq!(board.settle(), Settled::LevelComplete);
    board.advance_level();
    assert_eq!(board.level, 2);
    assert_eq!(board.level_tiles_cleared, 0);
    assert_eq!(board.level_goal, match3::FIRST_LEVEL_GOAL + match3::LEVEL_GOAL_STEP);
}

#[test]
fn settle_without_moves_reports_it() {
    let mut board = match3::Board::new(vec![]);
    for y in 0..ROWS {
        for x in 0..COLS {
            board.grid[y][x] = Some(((y * COLS + x) % 10 + 10) as u8);
        }
    }
    assert_eq!(board.count_available_moves(), 0);
    assert_eq!(board.settle(), Settled::NoMoreMoves);
}

#[test]
fn available_moves_counts_swaps() {
    let mut board = match3::Board::new(vec![]);
    for y in 0..ROWS {
        for x in 0..COLS {
            board.grid[y][x] = Some(((y * COLS + x) % 10 + 10) as u8);
        }
    }
    board.grid[0][0] = Some(1);
    board.grid[0][1] = Some(1);
    board.grid[1][2] = Some(1);
    assert_eq!(board.count_available_moves(), 1);
}

#[test]
fn leaderboard_name_trimmed_or_anon() {
    let mut board = match3::Board::new(vec![]);
    board.add_to_leaderboard("  Zed  ".to_string(), 120, 3, false);
    assert_eq!(board.high_scores[0].name, "Zed");
    assert_eq!(board.last_submitted, Some(("Zed".to_string(), 120)));
    assert!(board.new_record);
    board.add_to_leaderboard("   ".to_string(), 300, 1, true);
    assert_eq!(board.high_scores[0].name, "ANON");
    assert!(board.high_scores[0].snail);
    assert_eq!(board.high_scores[1].score, 120);
}

#[test]
fn leaderboard_qualifies_when_table_has_room() {
    let mut entries = Vec::new();
    for s in [50u32, 40, 30, 20, 10] {
        entries.push(LeaderboardEntry { name: "A".to_string(), score: s, combo: 0, snail: false });
    }
    let mut board = match3::Board::new(entries);
    board.score = 10;
    assert!(!board.qualifies_for_leaderboard());
    board.score = 11;
    assert!(board.qualifies_for_leaderboard());
}

#[test]
fn adjacency() {
    let board = match3::Board::new(vec![]);
    assert!(board.is_adjacent(2, 2, 3, 2));
    assert!(board.is_adjacent(2, 2, 2, 1));
    assert!(!board.is_adjacent(2, 2, 3, 3));
    assert!(!board.is_adjacent(2, 2, 2, 2));
}

fn sorted_tiles(g: &match3::Grid) -> Vec<u8> {
    let mut v: Vec<u8> = g.iter().flatten().map(|t| t.unwrap()).collect();
    v.sort();
    v
}

#[test]
fn reshuffle_keeps_tiles_and_leaves_a_move() {
    let mut board = match3::Board::new(vec![]);
    for y in 0..ROWS {
        for x in 0..COLS {
            board.grid[y][x] = Some(((y * COLS + x) % 10 + 10) as u8);
        }
    }
    assert_eq!(board.count_available_moves(), 0);
    let mut attempts = 0;
    loop {
        let (r, a, _orders) = board.search_reshuffle(attempts);
        assert!(a > attempts && a <= attempts + match3::SHUFFLES_PER_STEP);
        match r {
            match3::Reshuffle::Shuffled(g) => {
                assert_eq!(sorted_tiles(&g), sorted_tiles(&board.grid));
                assert!(no_match_anywhere(&g));
                assert!(match3::count_moves(&g) >= 1);
                break;
            }
            match3::Reshuffle::Regenerated(g) => {
                assert!(a >= match3::MAX_SHUFFLES);
                assert!(no_match_anywhere(&g));
                break;
            }
            match3::Reshuffle::Pending => {
                assert_eq!(a, attempts + match3::SHUFFLES_PER_STEP);
                attempts = a;
            }
        }
    }
}

#[test]
fn reshuffle_gives_up_after_the_limit() {
    let mut board = match3::Board::new(vec![]);
    for y in 0..ROWS {
        for x in 0..COLS {
            board.grid[y][x] = Some(1);
        }
    }
    // All tiles alike: every layout of them is full of lines, so no shuffle
    // can be kept.
    let (r, a, _orders) = board.search_reshuffle(match3::MAX_SHUFFLES - 1);
    assert_eq!(a, match3::MAX_SHUFFLES);
    match r {
        match3::Reshuffle::Regenerated(g) => {
            assert!(no_match_anywhere(&g));
            for y in 0..ROWS {
                for x in 0..COLS {
                    assert!(g[y][x].unwrap() < board.active_tile_types());
                }
            }
        }
        _ => panic!("expected a fresh board"),
    }
}

fn pairs_grid() -> [[Option<u8>; COLS]; ROWS] {
    let mut g = [[None; COLS]; ROWS];
    for y in 0..ROWS {
        for x in 0..COLS {
            g[y][x] = Some(((x / 2 + y) % 4) as u8);
        }
    }
    g
}

#[test]
fn combo_turn_swaps_then_cascades() {
    let mut b = match3_combo::Board::new(match3_combo::default_high_scores());
    b.grid = pairs_grid();
    assert!(b.find_matches().is_empty());

    // Two equal tiles: nothing to match, the swap is taken back.
    assert!(b.try_swap(0, 0, 1, 0));
    assert_eq!(b.combo_count, 0);
    assert_eq!(b.grid, pairs_grid());
    b.finish_swap(0, 0, 1, 0, true);
    assert_eq!(b.grid, pairs_grid());

    // Moving the 1 below up makes 1 1 1 on the top row.
    assert!(!b.try_swap(1, 0, 1, 1));
    assert_eq!(b.combo_count, 1);
    assert_eq!(b.grid, pairs_grid());
    b.finish_swap(1, 0, 1, 1, false);
    assert_eq!(b.grid[0][1], Some(1));
    assert_eq!(b.grid[1][1], Some(0));
    assert_eq!(b.settle(), match3_combo::Settled::Cascade(3));
    assert_eq!(b.combo_count, 2);
    assert_eq!(b.clear_matches(), 3);
    assert_eq!(b.score, 3 * 10 * 2);

    b.grid = pairs_grid();
    assert_eq!(b.settle(), match3_combo::Settled::Idle);
    assert_eq!(b.combo_count, 0);
}

#[test]
fn fill_initial_reports_retries() {
    let mut b = match3::Board::new(Vec::new());
    let rules = GenerationRules { min_initial_moves: 3, max_attempts: 100 };
    let (retries, _boards) = b.fill_initial(rules);
    assert!(retries <= 100);
    let wanted = if retries < 10 { 3 } else { 1 };
    assert!(b.count_available_moves() >= wanted || retries == 100);
    assert!(b.find_matches().is_empty());
}

#[test]
fn try_order_keeps_only_playable_layouts() {
    // The pairs board laid out row after row: no match, and swaps exist.
    let g = pairs_grid();
    let tiles: Vec<u8> = (0..COLS * ROWS).map(|i| g[i / COLS][i % COLS].unwrap()).collect();
    assert_eq!(match3::try_order(&tiles), Some(g));
    // Three equal tiles at the start of the first row make a match.
    let mut bad = tiles.clone();
    bad[2] = bad[0];
    assert_eq!(match3::try_order(&bad), None);
    // Ten kinds in a pattern where no swap can make a line: kept out too.
    let none: Vec<u8> = (0..COLS * ROWS).map(|i| ((i % 10) + 10) as u8).collect();
    assert_eq!(match3::try_order(&none), None);
}

#[test]
fn zookeeper_default_table() {
    let t = match3::default_high_scores();
    assert_eq!(t.len(), match3::MAX_HIGH_SCORES);
    for e in &t {
        assert_eq!((e.name.as_str(), e.score, e.combo, e.snail), ("---", 0, 0, false));
    }
}

#[test]
fn classic_swap_is_kept_only_when_it_matches() {
    let mut b = match3_classic::Board::new(vec![]);
    b.grid = pairs_grid();
    assert!(!match3::swap_makes_match(&b.grid, 0, 0, 1, 0));
    assert!(match3::swap_makes_match(&b.grid, 1, 0, 1, 1));
    assert!(b.try_swap(0, 0, 1, 0));
    assert!(!b.try_swap(1, 0, 1, 1));
    assert_eq!(b.grid, pairs_grid());
    b.finish_swap(0, 0, 1, 0, true);
    assert_eq!(b.grid, pairs_grid());
    b.finish_swap(1, 0, 1, 1, false);
    assert_eq!(b.grid[0][1], Some(1));
    assert_eq!(b.grid[1][1], Some(0));
    assert_eq!(b.clear_matches(), 3);
    assert_eq!(b.score, 30);
}
