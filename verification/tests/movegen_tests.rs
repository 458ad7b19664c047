use barricade_engine::{Engine, GameState, Move};

fn mv(move_type: u8, x: u8, y: u8) -> Move {
    Move { move_type, x, y }
}

fn at(positions: [u8; 2], walls_h: u64, walls_v: u64) -> GameState {
    let mut s = GameState::initial_state();
    s.positions = positions;
    s.walls_h = walls_h;
    s.walls_v = walls_v;
    s
}

#[test]
fn pawn_moves_from_start() {
    let s = GameState::initial_state();
    assert_eq!(Engine::generate_pawn_moves(&s, 0), vec![mv(0, 4, 1), mv(0, 3, 0), mv(0, 5, 0)]);
    assert_eq!(Engine::generate_pawn_moves(&s, 1), vec![mv(0, 4, 7), mv(0, 3, 8), mv(0, 5, 8)]);
}

#[test]
fn straight_jump_over_opponent() {
    let s = at([31, 40], 0, 0);
    assert_eq!(
        Engine::generate_pawn_moves(&s, 0),
        vec![mv(0, 4, 2), mv(0, 4, 5), mv(0, 3, 3), mv(0, 5, 3)]
    );
}

#[test]
fn diagonal_jumps_when_straight_jump_is_walled() {
    let s = at([31, 40], (1u64 << 36) | (1u64 << 35), 0);
    assert_eq!(
        Engine::generate_pawn_moves(&s, 0),
        vec![mv(0, 4, 2), mv(0, 3, 4), mv(0, 5, 4), mv(0, 3, 3), mv(0, 5, 3)]
    );
}

#[test]
fn pawn_moves_never_land_on_the_opponent() {
    let s = at([31, 40], 0, 0);
    for m in Engine::generate_pawn_moves(&s, 0) {
        assert_eq!(m.move_type, 0);
        assert!(m.x < 9 && m.y < 9);
        assert_ne!(m.y * 9 + m.x, 40);
    }
}

#[test]
fn all_walls_fit_on_an_empty_board() {
    let s = GameState::initial_state();
    let w = Engine::generate_legal_walls(&s, 0);
    assert_eq!(w.len(), 128);
    assert_eq!(w[0], mv(2, 0, 0));
    assert_eq!(w[63], mv(2, 7, 7));
    assert_eq!(w[64], mv(1, 0, 0));
    assert_eq!(w[127], mv(1, 7, 7));
}

#[test]
fn one_wall_rules_out_overlaps_and_crossing() {
    let s = at([4, 76], 1u64 << 27, 0);
    let w = Engine::generate_legal_walls(&s, 0);
    assert_eq!(w.len(), 124);
    assert_eq!(w.iter().filter(|m| m.move_type == 2).count(), 61);
    assert!(!w.contains(&mv(2, 2, 3)));
    assert!(!w.contains(&mv(2, 3, 3)));
    assert!(!w.contains(&mv(2, 4, 3)));
    assert!(!w.contains(&mv(1, 3, 3)));
    assert!(w.contains(&mv(1, 3, 2)));
    assert!(w.contains(&mv(2, 5, 3)));
}

#[test]
fn no_walls_left_means_no_wall_moves() {
    let mut s = GameState::initial_state();
    s.walls_left = [0, 3];
    assert!(Engine::generate_legal_walls(&s, 0).is_empty());
    assert_eq!(Engine::generate_legal_walls(&s, 1).len(), 128);
}

#[test]
fn all_moves_are_pawn_moves_then_walls() {
    let s = GameState::initial_state();
    let all = Engine::get_all_moves(&s, 0);
    assert_eq!(all.len(), 131);
    assert_eq!(all[0..3].to_vec(), vec![mv(0, 4, 1), mv(0, 3, 0), mv(0, 5, 0)]);
    assert_eq!(all[3], mv(2, 0, 0));
}

#[test]
fn generated_moves_keep_the_hash_consistent() {
    let s = GameState::initial_state().apply_move(2, 3, 3);
    for m in Engine::get_all_moves(&s, s.player_to_move) {
        let n = s.apply_move(m.move_type, m.x, m.y);
        let reloaded = GameState::load_from_FEN(&n.get_FEN()).unwrap();
        assert_eq!(reloaded.hash, n.hash);
    }
}

#[test]
fn sort_moves_by_score() {
    let s = GameState::initial_state();
    let mut moves = vec![mv(2, 3, 7), mv(1, 4, 7), mv(0, 4, 1), mv(2, 0, 0)];
    let killers = [Some(mv(2, 0, 0)), None];
    Engine::sort_moves(&s, &mut moves, &killers);
    assert_eq!(moves, vec![mv(2, 0, 0), mv(0, 4, 1), mv(1, 4, 7), mv(2, 3, 7)]);
}

#[test]
fn sort_moves_second_killer_and_distance() {
    let s = GameState::initial_state();
    let mut moves = vec![mv(0, 3, 0), mv(2, 0, 0), mv(1, 7, 7), mv(2, 4, 6)];
    let killers = [None, Some(mv(1, 7, 7))];
    Engine::sort_moves(&s, &mut moves, &killers);
    assert_eq!(moves, vec![mv(1, 7, 7), mv(0, 3, 0), mv(2, 4, 6), mv(2, 0, 0)]);
}

#[test]
fn killer_moves_are_recorded_per_ply() {
    let mut e = Engine::new();
    assert_eq!(e.nodes_explored, 0);
    assert_eq!(e.killers_at(3), [None, None]);
    e.record_killer(3, mv(2, 1, 1));
    assert_eq!(e.killers_at(3), [Some(mv(2, 1, 1)), None]);
    e.record_killer(3, mv(1, 2, 2));
    assert_eq!(e.killers_at(3), [Some(mv(1, 2, 2)), Some(mv(2, 1, 1))]);
    e.record_killer(3, mv(1, 2, 2));
    assert_eq!(e.killers_at(3), [Some(mv(1, 2, 2)), Some(mv(2, 1, 1))]);
    assert_eq!(e.killers_at(4), [None, None]);
    e.record_killer(500, mv(2, 5, 5));
    assert_eq!(e.killers_at(127), [Some(mv(2, 5, 5)), None]);
    assert_eq!(e.killers_at(200), [Some(mv(2, 5, 5)), None]);
    e.clear_killers();
    assert_eq!(e.killers_at(3), [None, None]);
    assert_eq!(e.killers_at(127), [None, None]);
}

#[test]
fn promote_move_swaps_to_front() {
    let mut moves = vec![mv(0, 4, 1), mv(0, 3, 0), mv(2, 1, 1), mv(2, 1, 1)];
    Engine::promote_move(&mut moves, mv(2, 1, 1));
    assert_eq!(moves, vec![mv(2, 1, 1), mv(0, 3, 0), mv(0, 4, 1), mv(2, 1, 1)]);
    let before = moves.clone();
    Engine::promote_move(&mut moves, mv(1, 6, 6));
    assert_eq!(moves, before);
}

#[test]
fn quiescence_moves_add_legal_killer_walls() {
    let s = GameState::initial_state();
    let mut e = Engine::new();
    e.record_killer(2, mv(0, 4, 1));
    e.record_killer(2, mv(2, 3, 3));
    let q = e.quiescence_moves(&s, 2);
    assert_eq!(q, vec![mv(0, 4, 1), mv(0, 3, 0), mv(0, 5, 0), mv(2, 3, 3)]);
    let blocked = s.apply_move(2, 3, 3).apply_move(0, 4, 7);
    let q2 = e.quiescence_moves(&blocked, 2);
    assert_eq!(q2, vec![mv(0, 4, 1), mv(0, 3, 0), mv(0, 5, 0)]);
    let mut none_left = s;
    none_left.walls_left = [0, 10];
    assert_eq!(e.quiescence_moves(&none_left, 2), vec![mv(0, 4, 1), mv(0, 3, 0), mv(0, 5, 0)]);
}

#[test]
fn move_repr() {
    assert_eq!(mv(0, 4, 1).repr(), "Move(type:Move, x:4, y:1)");
    assert_eq!(mv(1, 7, 0).repr(), "Move(type:Wall_V, x:7, y:0)");
    assert_eq!(mv(2, 10, 255).repr(), "Move(type:Wall_H, x:10, y:255)");
    assert_eq!(mv(9, 0, 0).repr(), "Move(type:Unknown, x:0, y:0)");
}

#[test]
fn pawn_moves_past_the_board_follow_the_masks() {
    let s = at([100, 76], 0, 0);
    assert_eq!(
        Engine::generate_pawn_moves(&s, 0),
        vec![mv(0, 1, 10), mv(0, 1, 12), mv(0, 0, 11), mv(0, 2, 11)]
    );
    let t = at([80, 89], 0, 0);
    assert_eq!(Engine::generate_pawn_moves(&t, 0), vec![mv(0, 8, 7), mv(0, 7, 8)]);
}
