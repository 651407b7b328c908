use wasm_games::leaderboard::{self, GameMode, ScoreEntry};

fn entry(name: &str, score: u32) -> ScoreEntry {
    ScoreEntry { name: name.to_string(), score }
}

#[test]
fn load_scores_defaults_when_nothing_stored() {
    let scores = leaderboard::load_scores(Vec::new());
    let got: Vec<(String, u32)> = scores.into_iter().map(|e| (e.name, e.score)).collect();
    assert_eq!(
        got,
        vec![
            ("BAR".to_string(), 5000),
            ("BUB".to_string(), 4000),
            ("BOB".to_string(), 3000),
            ("ZEN".to_string(), 2000),
            ("DOT".to_string(), 1000),
        ]
    );
}

#[test]
fn load_scores_keeps_stored_table() {
    let scores = leaderboard::load_scores(vec![entry("Q", 7)]);
    assert_eq!(scores.len(), 1);
    assert_eq!(scores[0].name, "Q");
    assert_eq!(scores[0].score, 7);
}

#[test]
fn add_score_sorts_and_keeps_ten() {
    let mut scores = Vec::new();
    for i in 0..10u32 {
        scores.push(entry("P", 100 * (i + 1)));
    }
    let r = leaderboard::add_score(scores, "NEW".to_string(), 550);
    assert_eq!(r.len(), leaderboard::BUBBLES_TABLE_SIZE);
    let got: Vec<u32> = r.iter().map(|e| e.score).collect();
    assert_eq!(got, vec![1000, 900, 800, 700, 600, 550, 500, 400, 300, 200]);
    assert_eq!(r[5].name, "NEW");
}

#[test]
fn add_score_stable_for_equal_scores() {
    let r = leaderboard::add_score(vec![entry("FIRST", 10), entry("LOW", 5)], "SECOND".to_string(), 10);
    let names: Vec<&str> = r.iter().map(|e| e.name.as_str()).collect();
    assert_eq!(names, vec!["FIRST", "SECOND", "LOW"]);
}

#[test]
fn qualifies_when_beating_or_room() {
    let t = vec![entry("A", 10), entry("B", 5)];
    assert!(leaderboard::qualifies(&t, 6, 2));
    assert!(!leaderboard::qualifies(&t, 5, 2));
    assert!(leaderboard::qualifies(&t, 0, 3));
}

#[test]
fn loaded_bytes_checks_length() {
    let buf = vec![1u8, 2, 3, 4];
    assert_eq!(leaderboard::loaded_bytes(&buf, 0), None);
    assert_eq!(leaderboard::loaded_bytes(&buf, 5), None);
    assert_eq!(leaderboard::loaded_bytes(&buf, 2), Some(vec![1, 2]));
    assert_eq!(leaderboard::loaded_bytes(&buf, 4), Some(vec![1, 2, 3, 4]));
}

#[test]
fn game_mode_labels() {
    assert_eq!(GameMode::Normal.label(), "NORMAL");
    assert_eq!(GameMode::Easy.label(), "EASY");
    assert_eq!(GameMode::Hard.label(), "HARD");
    assert_eq!(GameMode::Slow.label(), "SNAIL");
    assert_eq!(GameMode::default(), GameMode::Normal);
}
