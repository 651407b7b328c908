use wasm_games::music::Tone;
use wasm_games::tetris::{self, ActivePiece, Board, PieceType, COLS, ROWS};

#[test]
fn test_move_piece() {
    let mut board = Board::new();
    board.active = Some(ActivePiece { piece_type: PieceType::O, x: 4, y: 0, rotation: 0 });

    let moved = board.move_piece(1, 0);
    assert!(moved);
    let active = board.active.as_ref().unwrap();
    assert_eq!(active.x, 5);
}

#[test]
fn test_rotate_piece() {
    let mut board = Board::new();
    board.active = Some(ActivePiece { piece_type: PieceType::T, x: 4, y: 5, rotation: 0 });

    let rotated = board.rotate_piece();
    assert!(rotated);
    let active = board.active.as_ref().unwrap();
    assert_eq!(active.rotation, 1);
}

#[test]
fn test_clear_lines() {
    let mut board = Board::new();
    for x in 0..COLS {
        board.grid[ROWS - 1][x] = Some(PieceType::O);
    }

    let cleared = board.clear_lines();
    assert_eq!(cleared, 1);
    for x in 0..COLS {
        assert!(board.grid[ROWS - 1][x].is_none());
    }
}

#[test]
fn shapes_turn_about_one_one() {
    assert_eq!(PieceType::I.shape(0), vec![(0, 1), (1, 1), (2, 1), (3, 1)]);
    assert_eq!(PieceType::I.shape(1), vec![(1, 0), (1, 1), (1, 2), (1, 3)]);
    assert_eq!(PieceType::T.shape(2), vec![(1, 2), (2, 1), (1, 1), (0, 1)]);
    for p in [PieceType::I, PieceType::O, PieceType::T, PieceType::S, PieceType::Z, PieceType::J, PieceType::L] {
        for r in 0..4 {
            assert_eq!(p.shape(r), p.shape(r + 4));
        }
    }
}

#[test]
fn move_blocked_by_wall_and_blocks() {
    let mut board = Board::new();
    board.active = Some(ActivePiece { piece_type: PieceType::O, x: -1, y: 0, rotation: 0 });
    assert!(!board.move_piece(-1, 0));
    assert_eq!(board.active.unwrap().x, -1);
    board.grid[5][1] = Some(PieceType::I);
    board.active = Some(ActivePiece { piece_type: PieceType::O, x: 0, y: 3, rotation: 0 });
    assert!(!board.move_piece(0, 1));
    assert!(board.move_piece(0, 0));
    assert!(!board.move_piece(0, 1));
}

#[test]
fn collides_above_top_is_free() {
    let board = Board::new();
    assert!(!board.collides(PieceType::I, 3, -1, 0));
    assert!(board.collides(PieceType::I, 7, 0, 0));
    assert!(board.collides(PieceType::I, 0, ROWS as i32 - 1, 0));
}

#[test]
fn clear_lines_keeps_other_rows_in_order() {
    let mut board = Board::new();
    for x in 0..COLS {
        board.grid[ROWS - 1][x] = Some(PieceType::O);
        board.grid[ROWS - 3][x] = Some(PieceType::I);
    }
    board.grid[ROWS - 2][4] = Some(PieceType::T);
    board.grid[ROWS - 4][0] = Some(PieceType::S);
    assert_eq!(board.clear_lines(), 2);
    assert_eq!(board.grid[ROWS - 1][4], Some(PieceType::T));
    assert_eq!(board.grid[ROWS - 2][0], Some(PieceType::S));
    for y in 0..ROWS - 2 {
        for x in 0..COLS {
            assert!(board.grid[y][x].is_none());
        }
    }
    assert_eq!(board.clear_lines(), 0);
}

#[test]
fn lock_piece_writes_cells() {
    let mut board = Board::new();
    board.active = Some(ActivePiece { piece_type: PieceType::O, x: 0, y: 18, rotation: 0 });
    board.lock_piece();
    assert!(board.active.is_none());
    assert_eq!(board.grid[18][1], Some(PieceType::O));
    assert_eq!(board.grid[18][2], Some(PieceType::O));
    assert_eq!(board.grid[19][1], Some(PieceType::O));
    assert_eq!(board.grid[19][2], Some(PieceType::O));
    assert_eq!(board.grid[19][0], None);
}

#[test]
fn spawn_piece_at_spawn_point() {
    let mut board = Board::new();
    assert!(board.spawn_piece_of(PieceType::L));
    let a = board.active.unwrap();
    assert_eq!((a.x, a.y, a.rotation), (tetris::SPAWN_X, tetris::SPAWN_Y, 0));
    let mut full = Board::new();
    for y in 0..ROWS {
        for x in 0..COLS {
            full.grid[y][x] = Some(PieceType::Z);
        }
    }
    assert!(!full.spawn_piece());
    assert!(full.active.is_none());
    assert!(board.spawn_piece());
}

#[test]
fn hard_drop_lands_on_floor() {
    let mut board = Board::new();
    board.active = Some(ActivePiece { piece_type: PieceType::I, x: 3, y: -1, rotation: 0 });
    board.hard_drop();
    assert_eq!(board.active.unwrap().y, ROWS as i32 - 2);
    let (cleared, placed) = board.land_piece();
    assert_eq!(cleared, 0);
    assert!(placed);
    for x in 3..7 {
        assert_eq!(board.grid[ROWS - 1][x], Some(PieceType::I));
    }
}

#[test]
fn land_piece_clears_completed_row() {
    let mut board = Board::new();
    for x in 0..COLS {
        if !(3..7).contains(&x) {
            board.grid[ROWS - 1][x] = Some(PieceType::J);
        }
    }
    board.active = Some(ActivePiece { piece_type: PieceType::I, x: 3, y: ROWS as i32 - 2, rotation: 0 });
    let (cleared, _) = board.land_piece();
    assert_eq!(cleared, 1);
    for x in 0..COLS {
        assert!(board.grid[ROWS - 1][x].is_none());
    }
}

#[test]
fn pull_moves_one_step_or_not_at_all() {
    let mut board = Board::new();
    board.active = Some(ActivePiece { piece_type: PieceType::O, x: 0, y: 5, rotation: 0 });
    assert!(board.apply_pull(1, 0));
    assert_eq!(board.active.unwrap().x, 1);
    assert!(!board.apply_pull(0, 0));
    assert_eq!(board.active.unwrap().x, 1);
}

#[test]
fn music_arrangement_voicing() {
    let a = tetris::music_arrangement(7);
    assert_eq!(a.lead_tone, [Tone::Square, Tone::Saw, Tone::Square, Tone::Saw, Tone::Square, Tone::Saw, Tone::Square, Tone::Saw]);
    assert_eq!(a.drum_var, [0, 1, 2, 3, 4, 5, 0, 1]);
    let r = tetris::random_music_arrangement();
    assert_eq!(r.drum_var, [0, 1, 2, 3, 4, 5, 0, 1]);
}

#[test]
fn random_pieces_vary() {
    let mut kinds = Vec::new();
    for _ in 0..200 {
        let mut b = Board::new();
        assert!(b.spawn_piece());
        let p = b.active.unwrap().piece_type;
        if !kinds.contains(&p) {
            kinds.push(p);
        }
    }
    assert!(kinds.len() >= 3);
}

#[test]
fn random_music_arrangements_vary() {
    let first = tetris::random_music_arrangement();
    let mut differs = false;
    for _ in 0..30 {
        let a = tetris::random_music_arrangement();
        if a.lead_var != first.lead_var || a.cp_active != first.cp_active {
            differs = true;
        }
    }
    assert!(differs);
}
