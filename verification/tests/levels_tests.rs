use wasm_games::bubbles::{self, BubbleRng, EnemyType, Level, PlayerLife, UpgradeType};
use wasm_games::jetpac::{self, CollectibleType, PartType, Rocket, TileType};
use wasm_games::theme::ThemeEngine;

fn expected_layout(idx: usize) -> Vec<u8> {
    let mut lvl = vec![0u8; 16 * 14];
    for x in 0..16 {
        lvl[x] = 1;
        lvl[13 * 16 + x] = 1;
    }
    for y in 0..14 {
        lvl[y * 16] = 1;
        lvl[y * 16 + 15] = 1;
    }
    let (gaps, plats): ([usize; 2], Vec<(usize, usize, usize)>) = match idx % 3 {
        0 => ([7, 8], vec![(2, 4, 12), (2, 7, 5), (9, 7, 5), (2, 10, 12)]),
        1 => ([4, 11], vec![(2, 4, 4), (10, 4, 4), (5, 7, 6), (2, 10, 4), (10, 10, 4)]),
        _ => ([2, 13], vec![(2, 3, 3), (11, 3, 3), (6, 6, 4), (2, 9, 3), (11, 9, 3), (5, 11, 6)]),
    };
    for g in gaps {
        lvl[g] = 0;
        lvl[13 * 16 + g] = 0;
    }
    for (px, py, pw) in plats {
        for x in 0..pw {
            lvl[py * 16 + px + x] = 1;
        }
    }
    lvl
}

#[test]
fn level_layouts_match_their_plan() {
    for idx in 0..7 {
        assert_eq!(bubbles::get_level_layout(idx), expected_layout(idx));
    }
    assert_eq!(bubbles::get_level_layout(4), bubbles::get_level_layout(1));
}

#[test]
fn level_walls() {
    let l = Level::new(0);
    assert!(l.is_wall(-1, 5));
    assert!(l.is_wall(16, 5));
    assert!(!l.is_wall(5, -1));
    assert!(!l.is_wall(5, 14));
    assert!(l.is_wall(0, 0));
    assert!(!l.is_wall(7, 0));
    assert!(l.is_wall(2, 4));
    assert!(!l.is_wall(1, 4));
    assert!(l.wraps_at(7));
    assert!(l.wraps_at(8));
    assert!(!l.wraps_at(6));
    assert!(!l.wraps_at(-1));
}

#[test]
fn rng_sequence_from_seed() {
    let mut rng = BubbleRng::new();
    assert_eq!(rng.seed, 42);
    let mut s: u32 = 42;
    for max in [3usize, 10, 100, 7] {
        s = s.wrapping_mul(1103515245).wrapping_add(12345);
        let want = ((s >> 16) as usize) % max;
        assert_eq!(rng.next_rand(max), want);
        assert_eq!(rng.seed, s);
    }
}

#[test]
fn enemy_sets_per_level() {
    let mut rng = BubbleRng::new();
    assert_eq!(bubbles::enemy_kinds(0, &mut rng), vec![EnemyType::Walker; 4]);
    assert_eq!(
        bubbles::enemy_kinds(1, &mut rng),
        vec![EnemyType::Walker, EnemyType::Walker, EnemyType::Bouncer, EnemyType::Bouncer]
    );
    assert_eq!(rng.seed, 42);
    let kinds = bubbles::enemy_kinds(5, &mut rng);
    assert_eq!(kinds.len(), 5);
    let mut check = BubbleRng::new();
    for k in kinds {
        let want = match check.next_rand(3) {
            0 => EnemyType::Walker,
            1 => EnemyType::Flyer,
            _ => EnemyType::Bouncer,
        };
        assert_eq!(k, want);
    }
    assert_eq!(check, rng);
}

#[test]
fn popped_bubble_drops() {
    let mut rng = BubbleRng { seed: 0 };
    let mut probe = rng;
    let r = probe.next_rand(10);
    let u = bubbles::popped_bubble_drop(&mut rng);
    let want = match r {
        0 => Some(UpgradeType::MoreBubbles),
        1 => Some(UpgradeType::FasterBubbles),
        2 => Some(UpgradeType::LongerDistance),
        3 => Some(UpgradeType::DoubleSize),
        _ => None,
    };
    assert_eq!(u, want);
    assert_eq!(rng, probe);
}

#[test]
fn losing_lives_and_game_over() {
    let mut players = vec![PlayerLife { dead: false, lives: 1 }, PlayerLife { dead: false, lives: 0 }];
    assert!(!bubbles::lose_life(&mut players, 0));
    assert_eq!(players[0], PlayerLife { dead: true, lives: 0 });
    assert!(bubbles::lose_life(&mut players, 1));
    assert_eq!(players[1], PlayerLife { dead: true, lives: 0 });
}

#[test]
fn level_cleared_rules() {
    assert!(bubbles::level_cleared(0, false, false, &vec![false, false]));
    assert!(!bubbles::level_cleared(1, false, false, &vec![]));
    assert!(!bubbles::level_cleared(0, true, false, &vec![]));
    assert!(!bubbles::level_cleared(0, false, true, &vec![]));
    assert!(!bubbles::level_cleared(0, false, false, &vec![false, true]));
}

#[test]
fn jetpac_test_level() {
    let l = jetpac::create_test_level();
    assert_eq!(l.grid[0][0], TileType::SolidBrick);
    assert_eq!(l.grid[17][24], TileType::SolidBrick);
    assert_eq!(l.grid[14][2], TileType::NormalBrick);
    assert_eq!(l.grid[14][5], TileType::SolidBrick);
    assert_eq!(l.grid[10][15], TileType::SolidBrick);
    assert_eq!(l.grid[17][10], TileType::Ladder);
    assert_eq!(l.grid[10][18], TileType::Ladder);
    assert_eq!(l.grid[6][14], TileType::NormalBrick);
    assert_eq!(l.grid[6][15], TileType::Empty);
    assert_eq!(l.grid[5][5], TileType::Empty);
    assert_eq!(l.collectibles.len(), 8);
    assert_eq!(l.collectibles.iter().filter(|c| c.ctype == CollectibleType::Emerald).count(), 6);
    assert_eq!(l.emeralds_total, 6);
    assert!(!l.portal.active);
    assert_eq!((l.portal.col, l.portal.row), (20, 16));
}

#[test]
fn jetpac_collecting_opens_portal() {
    let mut l = jetpac::create_test_level();
    for i in 0..5 {
        assert_eq!(l.collect(i), Some(CollectibleType::Emerald));
        assert!(!l.portal.active);
    }
    assert_eq!(l.collect(6), Some(CollectibleType::Fuel));
    assert_eq!(l.collect(6), None);
    assert!(!l.portal.active);
    assert_eq!(l.collect(5), Some(CollectibleType::Emerald));
    assert_eq!(l.emeralds_collected, 6);
    assert!(l.portal.active);
}

#[test]
fn jetpac_phase_and_restore() {
    let mut l = jetpac::create_test_level();
    assert!(l.phase_brick(14, 2));
    assert_eq!(l.grid[14][2], TileType::Empty);
    assert!(!l.phase_brick(14, 5));
    assert!(!l.phase_brick(3, 3));
    l.restore_brick(14, 2);
    assert_eq!(l.grid[14][2], TileType::NormalBrick);
    assert!(jetpac::is_solid(TileType::NormalBrick));
    assert!(jetpac::is_solid(TileType::SolidBrick));
    assert!(!jetpac::is_solid(TileType::Ladder));
}

#[test]
fn rocket_parts_in_order() {
    let mut r = Rocket::new();
    assert!(!r.try_attach(PartType::Top));
    assert!(r.try_attach(PartType::Middle));
    assert!(!r.assembled());
    assert!(!r.try_attach(PartType::Middle));
    assert!(r.try_attach(PartType::Top));
    assert!(r.assembled());
    assert!(!r.try_attach(PartType::Base));
    assert_eq!(r.parts_attached, vec![PartType::Base, PartType::Middle, PartType::Top]);
    assert_eq!(jetpac::next_part_needed(0), None);
}

#[test]
fn theme_for_level() {
    let e = ThemeEngine::new(24);
    assert_eq!(e.get_suggested_theme_idx(0), 0);
    assert_eq!(e.get_suggested_theme_idx(1), 0);
    assert_eq!(e.get_suggested_theme_idx(5), 1);
    assert_eq!(e.get_suggested_theme_idx(60), 14);
    assert_eq!(e.get_suggested_theme_idx(61), 15);
    assert_eq!(e.get_suggested_theme_idx(105), 23);
    assert_eq!(e.get_suggested_theme_idx(106), 0);
    let small = ThemeEngine::new(5);
    assert_eq!(small.get_suggested_theme_idx(61), 0);
}

fn expected_melody(phrase: u32, step: usize) -> (i32, bool) {
    let scale = [60, 62, 64, 65, 67, 69, 71, 72, 74, 76, 77, 79, 81, 83, 84];
    let mut m_rng = phrase;
    let mut m_rand = || {
        m_rng = m_rng.wrapping_mul(1103515245).wrapping_add(12345);
        m_rng
    };
    let mut note_idx = (m_rand() % 7) as usize + 7;
    for _ in 0..step {
        note_idx = (note_idx as i32 + (m_rand() % 3) as i32 - 1).clamp(0, 14) as usize;
    }
    let plays = step % 2 == 0 || m_rand() % 8 == 0;
    (scale[note_idx], plays)
}

#[test]
fn melody_notes_follow_the_phrase_generator() {
    for phrase in [0u32, 1, 2, 7, 100, 12345, u32::MAX] {
        for step in 0..12 {
            assert_eq!(bubbles::melody_note(phrase, step), expected_melody(phrase, step), "phrase {phrase} step {step}");
        }
    }
}

#[test]
fn melody_first_note_of_phrase_zero() {
    // 12345 % 7 == 4, so the phrase starts on place 11 of the scale.
    assert_eq!(bubbles::melody_note(0, 0), (79, true));
}

#[test]
fn bass_follows_the_chord_progression() {
    assert_eq!(bubbles::bass_note(0), 48);
    assert_eq!(bubbles::bass_note(6), 55);
    assert_eq!(bubbles::bass_note(14), 55);
    assert_eq!(bubbles::bass_note(5), 48);
    assert_eq!(bubbles::bass_note(32), 53);
    assert_eq!(bubbles::bass_note(32 + 6), 60);
    assert_eq!(bubbles::bass_note(64), 55);
    assert_eq!(bubbles::bass_note(96 + 6), 52);
    assert_eq!(bubbles::bass_note(128), 48);
}
