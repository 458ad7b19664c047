use barricade_engine::{get_zobrist, GameState, ZobristTable};

fn xorshift(mut s: u64) -> u64 {
    s ^= s << 13;
    s ^= s >> 7;
    s ^= s << 17;
    s
}

#[test]
fn zobrist_table_draws_keys_in_order() {
    let z: ZobristTable = get_zobrist();
    let mut s: u64 = 1070372;
    s = xorshift(s);
    assert_eq!(z.player_turn, s);
    assert_eq!(z.player_turn, 1158066925845646);
    for i in 0..81 {
        s = xorshift(s);
        assert_eq!(z.p0_pos[i], s);
        s = xorshift(s);
        assert_eq!(z.p1_pos[i], s);
    }
    for i in 0..64 {
        s = xorshift(s);
        assert_eq!(z.walls_h[i], s);
        s = xorshift(s);
        assert_eq!(z.walls_v[i], s);
    }
    assert_eq!(z.p0_pos[4], 13894486077333955667);
    assert_eq!(z.p1_pos[76], 6579922523672127478);
}

#[test]
fn initial_state_values() {
    let s = GameState::initial_state();
    assert_eq!(s.positions, [4, 76]);
    assert_eq!(s.walls_left, [10, 10]);
    assert_eq!(s.player_to_move, 0);
    assert_eq!(s.walls_h, 0);
    assert_eq!(s.walls_v, 0);
    assert_eq!(s.hash, 11206000223204164517);
    assert_eq!(GameState::new(), s);
    assert_eq!(s.get_positions(), (4, 76));
    assert_eq!(s.get_walls_left(), (10, 10));
    assert_eq!(s.get_player_to_move(), 0);
}

#[test]
fn cell_and_wall_indices() {
    assert_eq!(GameState::xy_to_cell_idx(0, 0), 0);
    assert_eq!(GameState::xy_to_cell_idx(4, 8), 76);
    assert_eq!(GameState::xy_to_cell_idx(8, 8), 80);
    assert_eq!(GameState::xy_to_wall_idx(3, 4), 35);
    assert_eq!(GameState::xy_to_wall_idx(7, 7), 63);
}

#[test]
fn apply_pawn_move_updates_position_turn_and_hash() {
    let z = get_zobrist();
    let s = GameState::initial_state();
    let n = s.apply_move(0, 4, 1);
    assert_eq!(n.positions, [13, 76]);
    assert_eq!(n.player_to_move, 1);
    assert_eq!(n.walls_left, [10, 10]);
    assert_eq!(n.hash, s.hash ^ z.player_turn ^ z.p0_pos[4] ^ z.p0_pos[13]);
    assert_eq!(z.p0_pos[13], 14207858425196836703);
    let m = n.apply_move(0, 4, 7);
    assert_eq!(m.positions, [13, 67]);
    assert_eq!(m.player_to_move, 0);
    assert_eq!(m.hash, n.hash ^ z.player_turn ^ z.p1_pos[76] ^ z.p1_pos[67]);
}

#[test]
fn apply_wall_moves_set_bits_and_spend_walls() {
    let z = get_zobrist();
    let s = GameState::initial_state();
    let v = s.apply_move(1, 3, 4);
    assert_eq!(v.walls_v, 1u64 << 35);
    assert_eq!(v.walls_h, 0);
    assert_eq!(v.walls_left, [9, 10]);
    assert_eq!(v.player_to_move, 1);
    assert_eq!(v.hash, s.hash ^ z.player_turn ^ z.walls_v[35]);
    let h = v.apply_move(2, 3, 3);
    assert_eq!(h.walls_h, 1u64 << 27);
    assert_eq!(h.walls_left, [9, 9]);
    assert_eq!(h.player_to_move, 0);
    assert_eq!(h.hash, v.hash ^ z.player_turn ^ z.walls_h[27]);
}

#[test]
fn apply_move_with_cached_table_matches() {
    let z = get_zobrist();
    let s = GameState::initial_state();
    assert_eq!(s.apply_move_with(&z, 0, 3, 0), s.apply_move(0, 3, 0));
    assert_eq!(s.apply_move_with(&z, 2, 0, 0), s.apply_move(2, 0, 0));
}

#[test]
fn hash_does_not_depend_on_move_order() {
    let s = GameState::initial_state();
    let a = s.apply_move(1, 3, 4).apply_move(2, 0, 0).apply_move(0, 4, 1).apply_move(0, 4, 7);
    let b = s.apply_move(0, 4, 1).apply_move(0, 4, 7).apply_move(1, 3, 4).apply_move(2, 0, 0);
    assert_eq!(a.positions, b.positions);
    assert_eq!(a.walls_h, b.walls_h);
    assert_eq!(a.walls_v, b.walls_v);
    assert_eq!(a.player_to_move, b.player_to_move);
    assert_eq!(a.hash, b.hash);
    let reloaded = GameState::load_from_FEN(&a.get_FEN()).unwrap();
    assert_eq!(reloaded.hash, a.hash);
}

#[test]
fn game_finished_detection() {
    let mut s = GameState::initial_state();
    assert_eq!(s.is_game_finished(), -1);
    s.positions = [72, 76];
    assert_eq!(s.is_game_finished(), 0);
    s.positions = [40, 8];
    assert_eq!(s.is_game_finished(), 1);
    s.positions = [80, 0];
    assert_eq!(s.is_game_finished(), 0);
    s.positions = [71, 9];
    assert_eq!(s.is_game_finished(), -1);
}

#[test]
fn repr_of_state() {
    let s = GameState::initial_state().apply_move(2, 3, 3);
    assert_eq!(
        s.repr(),
        "GameState(p0:4, p1:76, turn:1, walls_h:0000000008000000, walls_v:0000000000000000)"
    );
    let mut t = GameState::initial_state();
    t.walls_v = 0xFEDCBA9876543210;
    assert_eq!(
        t.repr(),
        "GameState(p0:4, p1:76, turn:0, walls_h:0000000000000000, walls_v:FEDCBA9876543210)"
    );
}
