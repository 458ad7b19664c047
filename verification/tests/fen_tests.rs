use barricade_engine::{get_zobrist, FenError, GameState};

#[test]
fn fen_of_initial_state() {
    assert_eq!(GameState::initial_state().get_FEN(), "e1/e9/10/10/ R");
}

#[test]
fn fen_lists_horizontal_walls_first() {
    let s = GameState::initial_state().apply_move(1, 3, 4).apply_move(2, 0, 0);
    assert_eq!(s.get_FEN(), "e1/e9/9/9/a1h,d5v R");
    let t = s.apply_move(0, 4, 1).apply_move(2, 7, 7);
    assert_eq!(t.get_FEN(), "e2/e9/9/8/a1h,h8h,d5v R");
    let u = t.apply_move(0, 3, 1);
    assert_eq!(u.get_FEN(), "d2/e9/9/8/a1h,h8h,d5v B");
}

#[test]
fn fen_round_trip() {
    let s = GameState::initial_state()
        .apply_move(1, 3, 4)
        .apply_move(2, 0, 0)
        .apply_move(0, 4, 1)
        .apply_move(2, 7, 7)
        .apply_move(0, 3, 1);
    let back = GameState::load_from_FEN(&s.get_FEN()).unwrap();
    assert_eq!(back, s);
    let init = GameState::initial_state();
    assert_eq!(GameState::load_from_FEN(&init.get_FEN()), Ok(init));
}

#[test]
fn fen_missing_space_is_refused() {
    assert_eq!(GameState::load_from_FEN("e1/e9/10/10/"), Err(FenError::MissingSpace));
    assert_eq!(GameState::load_from_FEN("e1/e9/10/10/ R extra"), Err(FenError::MissingSpace));
    assert_eq!(GameState::load_from_FEN(""), Err(FenError::MissingSpace));
}

#[test]
fn fen_wrong_field_count_is_refused() {
    assert_eq!(GameState::load_from_FEN("e1/e9/10 R"), Err(FenError::FieldCount));
    assert_eq!(GameState::load_from_FEN("e1/e9/10/10// R"), Err(FenError::FieldCount));
}

#[test]
fn fen_loose_fields() {
    let s = GameState::load_from_FEN("  e1/e9/abc/+7/a1h,,zz,b2x,c3v \t B ").unwrap();
    assert_eq!(s.positions, [4, 76]);
    assert_eq!(s.walls_left, [0, 7]);
    assert_eq!(s.walls_h, 1);
    assert_eq!(s.walls_v, 1u64 << 18);
    assert_eq!(s.player_to_move, 1);
    let z = get_zobrist();
    assert_eq!(s.hash, z.p0_pos[4] ^ z.p1_pos[76] ^ z.walls_h[0] ^ z.walls_v[18] ^ z.player_turn);
}

#[test]
fn fen_wall_count_overflow_reads_zero() {
    let s = GameState::load_from_FEN("e1/e9/256/0010/ R").unwrap();
    assert_eq!(s.walls_left, [0, 10]);
    let t = GameState::load_from_FEN("e1/e9/+/-1/ R").unwrap();
    assert_eq!(t.walls_left, [0, 0]);
}

#[test]
fn fen_unicode_whitespace_separates() {
    let s = GameState::load_from_FEN("a1/i9/10/10/\u{3000}R").unwrap();
    assert_eq!(s.positions, [0, 80]);
    assert_eq!(s.player_to_move, 0);
    let t = GameState::load_from_FEN("a1/i9/10/10/\u{a0}x").unwrap();
    assert_eq!(t.player_to_move, 1);
}
