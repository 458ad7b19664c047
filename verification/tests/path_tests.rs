use barricade_engine::GameState;

fn with_walls(positions: [u8; 2], walls_h: u64, walls_v: u64) -> GameState {
    let mut s = GameState::initial_state();
    s.positions = positions;
    s.walls_h = walls_h;
    s.walls_v = walls_v;
    s
}

#[test]
fn initial_position_has_paths() {
    let s = GameState::initial_state();
    assert!(s.has_path_to_goal(0));
    assert!(s.has_path_to_goal(1));
    assert!(s.is_state_valid());
}

#[test]
fn walled_in_pawn_has_no_path() {
    // player 0 on cell (0, 0): a horizontal wall under (0,0)-(1,0) and a vertical
    // wall right of (0,0)-(0,1) shut the pawn in its corner
    let h = 1u64 << 0; // slot (0, 0)
    let v = 1u64 << 0; // slot (0, 0)
    let s = with_walls([0, 76], h, v);
    assert!(!s.has_path_to_goal(0));
    assert!(s.has_path_to_goal(1));
    assert!(!s.is_state_valid());
}

#[test]
fn row_of_walls_with_a_gap_keeps_paths() {
    // horizontal walls at slots (0,3), (2,3), (4,3), (6,3) leave column 8 open
    let h = (1u64 << 24) | (1u64 << 26) | (1u64 << 28) | (1u64 << 30);
    let s = with_walls([4, 76], h, 0);
    assert!(s.has_path_to_goal(0));
    assert!(s.has_path_to_goal(1));
}

#[test]
fn goal_row_start_is_a_path() {
    let s = with_walls([76, 4], 0, 0);
    assert!(s.has_path_to_goal(0));
    assert!(s.has_path_to_goal(1));
    assert_eq!(s.get_distances(), (0, 81, 0, 0, false, 0, 81, 0, 0, false));
}

#[test]
fn distances_on_open_board() {
    let s = GameState::initial_state();
    assert_eq!(s.get_distances(), (8, 81, 1, 0, false, 8, 81, 1, 0, false));
}

#[test]
fn distances_with_two_walls() {
    let s = with_walls([4, 76], 1u64 << 27, 1u64 << 28);
    assert_eq!(s.get_distances(), (9, 81, 1, 0, false, 9, 81, 1, 0, false));
}

#[test]
fn distances_with_a_bottleneck_give_immunity() {
    let h = (1u64 << 24) | (1u64 << 26) | (1u64 << 28) | (1u64 << 30);
    let s = with_walls([4, 76], h, 0);
    assert_eq!(s.get_distances(), (12, 81, 1, 0, true, 12, 81, 1, 0, true));
}

#[test]
fn distances_without_path() {
    let s = with_walls([0, 76], 1u64, 1u64);
    let d = s.get_distances();
    assert_eq!(d, (-1, 0, 0, 0, false, 8, 80, 1, 0, false));
    assert_eq!(d.0 == -1, !s.has_path_to_goal(0));
    assert_eq!(d.5 == -1, !s.has_path_to_goal(1));
}

#[test]
fn cells_past_the_board_follow_the_masks() {
    let s = with_walls([100, 76], 0, 0);
    assert!(s.has_path_to_goal(0));
    assert_eq!(s.get_distances(), (3, 128, 0, 3, false, 8, 81, 1, 0, false));
}
