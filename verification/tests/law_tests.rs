use barricade_engine::{get_zobrist, Engine, GameState};

fn with_walls(positions: [u8; 2], walls_h: u64, walls_v: u64) -> GameState {
    let mut s = GameState::initial_state();
    s.positions = positions;
    s.walls_h = walls_h;
    s.walls_v = walls_v;
    s
}

fn flip_cell(c: u8) -> u8 {
    (8 - c / 9) * 9 + c % 9
}

fn flip_walls(w: u64) -> u64 {
    let mut r = 0u64;
    for i in 0..64u32 {
        if (w >> i) & 1 == 1 {
            r |= 1u64 << ((7 - i / 8) * 8 + i % 8);
        }
    }
    r
}

#[test]
fn mirrored_board_swaps_the_players_metrics() {
    let h = (1u64 << 24) | (1u64 << 26) | (1u64 << 28) | (1u64 << 30) | (1u64 << 1);
    let v = 1u64 << 20;
    let s = with_walls([13, 70], h, v);
    let m = with_walls([flip_cell(70), flip_cell(13)], flip_walls(h), flip_walls(v));
    let r = s.get_distances();
    assert_eq!(r, (11, 81, 1, 0, true, 8, 81, 1, 0, true));
    assert_eq!(m.get_distances(), (r.5, r.6, r.7, r.8, r.9, r.0, r.1, r.2, r.3, r.4));
}

#[test]
fn more_walls_never_open_a_path() {
    // closing the corner around cell 0 takes both walls; either alone leaves a path
    let shut = with_walls([0, 76], 1, 1);
    assert!(!shut.has_path_to_goal(0));
    assert!(with_walls([0, 76], 1, 0).has_path_to_goal(0));
    assert!(with_walls([0, 76], 0, 1).has_path_to_goal(0));
}

#[test]
fn wall_texts_load_in_any_order() {
    let a = GameState::load_from_FEN("e1/e9/8/10/a1h,c3v B").unwrap();
    let b = GameState::load_from_FEN("e1/e9/8/10/c3v,a1h B").unwrap();
    assert_eq!(a, b);
    assert_eq!(a.walls_h, 1);
    assert_eq!(a.walls_v, 1 << 18);
}

#[test]
fn zobrist_keys_are_nonzero_and_distinct() {
    let z = get_zobrist();
    let mut keys = vec![z.player_turn];
    for c in 0..81 {
        keys.push(z.p0_pos[c]);
        keys.push(z.p1_pos[c]);
    }
    for i in 0..64 {
        keys.push(z.walls_h[i]);
        keys.push(z.walls_v[i]);
    }
    assert_eq!(keys.len(), 291);
    assert!(keys.iter().all(|&k| k != 0));
    keys.sort();
    keys.dedup();
    assert_eq!(keys.len(), 291);
}

#[test]
fn every_fitting_wall_is_generated() {
    let s = with_walls([4, 76], 1u64 << 27, 0);
    let walls = Engine::generate_legal_walls(&s, 0);
    // slot (3, 3) holds a horizontal wall: (2, 3) and (4, 3) overlap it, (3, 3) crosses it
    for y in 0..8u8 {
        for x in 0..8u8 {
            let i = y * 8 + x;
            let h_fits = i != 27 && i != 26 && i != 28;
            let v_fits = i != 27;
            assert_eq!(walls.iter().any(|m| m.move_type == 2 && m.x == x && m.y == y), h_fits);
            assert_eq!(walls.iter().any(|m| m.move_type == 1 && m.x == x && m.y == y), v_fits);
        }
    }
}
