//! What the operations do, stated through the game's own terms: what a move changes,
//! which killer moves join the quiet-position search, and in what order moves are
//! searched.

use vstd::prelude::*;
use crate::bits::{bit64, cells_of, has_wall};
use crate::movegen::{
    blocked, cell_move, dir_moves, dir_offset, holds, legal_walls, opp_xy, order_key, pawn_moves, quiescence_spec,
    sorted_by_order, Move,
};
use crate::bits::{has_cell, lemma_cell_ops, lemma_masks_differ};
use crate::board::{blocker_masks, down_blocked, left_blocked, lemma_blocker_masks, lemma_edge_cells, right_blocked, up_blocked};
use crate::reach::{
    backtrack, can_step, detour, flood_step, goal_cell, goal_mask, grown_cell, layer_mask, lemma_flood_step,
    lemma_layer_mask, lemma_within_in_range, path_metrics, path_to_goal, reachable_within,
};
use crate::state::{move_args_ok, GameState};

verus! {

proof fn lemma_set_bit(w: u64, idx: u64, j: u64)
    by (bit_vector)
    requires
        idx < 64,
        j < 64,
    ensures
        bit64(w | (1u64 << idx), j) == (bit64(w, j) || j == idx),
{
}

/// What a move changes. A pawn move puts the mover's pawn on `(x, y)` and leaves the
/// other pawn, both wall sets and both wall counts as they were. A wall move adds its
/// wall (vertical for type 1, horizontal for type 2) at slot `(x, y)`, spends one of
/// the mover's walls, and leaves both pawns, the other wall set and the other
/// player's count as they were. Either way the turn passes to the other player.
pub proof fn lemma_move_effects(s: GameState, move_type: u8, x: u8, y: u8)
    requires
        move_args_ok(s, move_type, x, y),
    ensures
        ({
            let n = s.applied(move_type, x, y);
            let p = s.player_to_move as int;
            &&& n.player_to_move == 1 - s.player_to_move
            &&& move_type == 0 ==> {
                &&& n.positions[p] == y * 9 + x
                &&& n.positions[1 - p] == s.positions[1 - p]
                &&& n.walls_left[0] == s.walls_left[0]
                &&& n.walls_left[1] == s.walls_left[1]
                &&& n.walls_h == s.walls_h
                &&& n.walls_v == s.walls_v
            }
            &&& move_type != 0 ==> {
                &&& n.positions[0] == s.positions[0]
                &&& n.positions[1] == s.positions[1]
                &&& n.walls_left[p] == s.walls_left[p] - 1
                &&& n.walls_left[1 - p] == s.walls_left[1 - p]
            }
            &&& move_type == 1 ==> {
                &&& n.walls_h == s.walls_h
                &&& forall|i: int| 0 <= i < 64 ==> #[trigger] has_wall(n.walls_v, i) == (has_wall(s.walls_v, i) || i == y * 8 + x)
            }
            &&& move_type == 2 ==> {
                &&& n.walls_v == s.walls_v
                &&& forall|i: int| 0 <= i < 64 ==> #[trigger] has_wall(n.walls_h, i) == (has_wall(s.walls_h, i) || i == y * 8 + x)
            }
        }),
{
    if move_type != 0 {
        let idx = (y * 8 + x) as u64;
        assert(idx < 64);
        assert forall|i: int| 0 <= i < 64 implies #[trigger] has_wall(s.walls_v | (1u64 << idx), i) == (has_wall(s.walls_v, i) || i == y * 8 + x) by {
            lemma_set_bit(s.walls_v, idx, i as u64);
        }
        assert forall|i: int| 0 <= i < 64 implies #[trigger] has_wall(s.walls_h | (1u64 << idx), i) == (has_wall(s.walls_h, i) || i == y * 8 + x) by {
            lemma_set_bit(s.walls_h, idx, i as u64);
        }
    }
}

/// The moves of the quiet-position search: the pawn moves of the side to move come
/// first, in order; what follows are killer moves of that player that are legal wall
/// placements, none twice, and only when the player has a wall left; and every killer
/// move that is a legal wall placement of a player with a wall left is among them.
pub proof fn lemma_quiescence_moves(state: GameState, killers: [Option<Move>; 2])
    requires
        state.player_to_move < 2,
    ensures
        ({
            let q = quiescence_spec(state, killers);
            let p = state.player_to_move as int;
            let pawns = pawn_moves(state, p);
            &&& pawns.len() <= q.len()
            &&& q.subrange(0, pawns.len() as int) == pawns
            &&& forall|i: int| pawns.len() <= i < q.len() ==> {
                &&& state.walls_left[p] > 0
                &&& (#[trigger] q[i]).move_type != 0
                &&& legal_walls(state, p).contains(q[i])
                &&& (holds(killers[0], q[i]) || holds(killers[1], q[i]))
            }
            &&& forall|i: int, j: int| pawns.len() <= i < j < q.len() ==> #[trigger] q[i] != #[trigger] q[j]
            &&& forall|k: int|
                0 <= k < 2 && state.walls_left[p] > 0 && (#[trigger] killers[k]) is Some && killers[k]->0.move_type != 0
                    && legal_walls(state, p).contains(killers[k]->0) ==> q.contains(killers[k]->0)
        }),
{
    let q = quiescence_spec(state, killers);
    let p = state.player_to_move as int;
    let pawns = pawn_moves(state, p);
    assert(q.subrange(0, pawns.len() as int) =~= pawns);
    assert forall|k: int|
        0 <= k < 2 && state.walls_left[p] > 0 && (#[trigger] killers[k]) is Some && killers[k]->0.move_type != 0
            && legal_walls(state, p).contains(killers[k]->0) implies q.contains(killers[k]->0) by {
        let with1 = if killers[0] is Some && killers[0]->0.move_type != 0 && legal_walls(state, p).contains(killers[0]->0) {
            pawns.push(killers[0]->0)
        } else {
            pawns
        };
        if k == 0 {
            assert(with1[pawns.len() as int] == killers[0]->0);
            assert(q[pawns.len() as int] == killers[0]->0);
        } else if holds(killers[0], killers[1]->0) {
            assert(with1[pawns.len() as int] == killers[0]->0);
            assert(q[pawns.len() as int] == killers[1]->0);
        } else {
            assert(q[with1.len() as int] == killers[1]->0);
        }
    }
}

/// Bounds on the move-ordering score of a move, with the opponent on the board and a
/// wall move on the board.
proof fn lemma_order_key_bounds(ox: int, oy: int, killers: [Option<Move>; 2], m: Move)
    requires
        0 <= ox < 9,
        0 <= oy < 9,
        m.move_type == 0 || (m.x < 8 && m.y < 8),
    ensures
        !holds(killers[0], m) && !holds(killers[1], m) ==> order_key(ox, oy, killers, m) <= 10000,
        !holds(killers[0], m) && holds(killers[1], m) && m.move_type != 0 ==> 15000 - 128 <= order_key(ox, oy, killers, m) <= 15000,
        !holds(killers[0], m) && holds(killers[1], m) && m.move_type == 0 ==> order_key(ox, oy, killers, m) == 25000,
        holds(killers[0], m) && m.move_type != 0 ==> 20000 - 128 <= order_key(ox, oy, killers, m) <= 20000,
        holds(killers[0], m) && m.move_type == 0 ==> order_key(ox, oy, killers, m) == 30000,
{
    if m.move_type != 0 {
        let dx = m.x - ox;
        let dy = m.y - oy;
        assert(0 <= dx * dx + dy * dy <= 128) by (nonlinear_arith)
            requires
                -8 <= dx <= 7,
                -8 <= dy <= 7,
        ;
    }
}

/// Killer moves lead the search order. In moves sorted by `sort_moves` (opponent on
/// the board, every wall on the board), each killer move comes before every move that
/// is no killer, and the first killer comes before the second, except when the first
/// is a wall and the second a pawn move: a pawn move's base score of 10000 outweighs
/// the 5000 by which the first killer's bonus exceeds the second's.
pub proof fn lemma_killers_first(state: GameState, killers: [Option<Move>; 2], s: Seq<Move>)
    requires
        state.wf(),
        sorted_by_order(s, opp_xy(state).0, opp_xy(state).1, killers),
        forall|i: int| 0 <= i < s.len() ==> (#[trigger] s[i]).move_type == 0 || (s[i].x < 8 && s[i].y < 8),
    ensures
        forall|i: int, j: int|
            0 <= i < j < s.len() && (holds(killers[0], #[trigger] s[j]) || holds(killers[1], s[j])) ==> holds(
                killers[0],
                #[trigger] s[i],
            ) || holds(killers[1], s[i]),
        forall|i: int, j: int|
            0 <= i < j < s.len() && holds(killers[0], #[trigger] s[j]) && holds(killers[1], #[trigger] s[i]) ==> holds(
                killers[0],
                s[i],
            ) || (s[j].move_type != 0 && s[i].move_type == 0),
{
    let ox = opp_xy(state).0;
    let oy = opp_xy(state).1;
    assert(0 <= ox < 9 && 0 <= oy < 9);
    assert forall|i: int, j: int|
        0 <= i < j < s.len() && (holds(killers[0], #[trigger] s[j]) || holds(killers[1], s[j])) implies holds(
            killers[0],
            #[trigger] s[i],
        ) || holds(killers[1], s[i]) by {
        lemma_order_key_bounds(ox, oy, killers, s[i]);
        lemma_order_key_bounds(ox, oy, killers, s[j]);
    }
    assert forall|i: int, j: int|
        0 <= i < j < s.len() && holds(killers[0], #[trigger] s[j]) && holds(killers[1], #[trigger] s[i]) implies holds(
            killers[0],
            s[i],
        ) || (s[j].move_type != 0 && s[i].move_type == 0) by {
        lemma_order_key_bounds(ox, oy, killers, s[i]);
        lemma_order_key_bounds(ox, oy, killers, s[j]);
    }
}

/// Apart from the killer moves, the search order puts pawn moves first and walls by
/// increasing squared distance to the opponent's cell: in moves sorted by
/// `sort_moves`, of two moves that are no killers, a pawn move never follows a wall,
/// and a wall never follows a wall farther from the opponent.
pub proof fn lemma_order_without_killers(state: GameState, killers: [Option<Move>; 2], s: Seq<Move>)
    requires
        sorted_by_order(s, opp_xy(state).0, opp_xy(state).1, killers),
    ensures
        forall|i: int, j: int|
            0 <= i < j < s.len() && !holds(killers[0], #[trigger] s[i]) && !holds(killers[1], s[i]) && !holds(
                killers[0],
                #[trigger] s[j],
            ) && !holds(killers[1], s[j]) ==> {
                &&& s[j].move_type == 0 ==> s[i].move_type == 0
                &&& s[i].move_type != 0 && s[j].move_type != 0 ==> (s[i].x - opp_xy(state).0) * (s[i].x - opp_xy(
                    state,
                ).0) + (s[i].y - opp_xy(state).1) * (s[i].y - opp_xy(state).1) <= (s[j].x - opp_xy(state).0) * (
                s[j].x - opp_xy(state).0) + (s[j].y - opp_xy(state).1) * (s[j].y - opp_xy(state).1)
            },
{
    let ox = opp_xy(state).0;
    let oy = opp_xy(state).1;
    assert forall|i: int, j: int|
        0 <= i < j < s.len() && !holds(killers[0], #[trigger] s[i]) && !holds(killers[1], s[i]) && !holds(
            killers[0],
            #[trigger] s[j],
        ) && !holds(killers[1], s[j]) && s[j].move_type == 0 implies s[i].move_type == 0 by {
        let m = s[i];
        let dx = m.x - ox;
        let dy = m.y - oy;
        assert(0 <= dx * dx + dy * dy) by (nonlinear_arith);
    }
}

/// An open step from a board cell goes one cell up, down, left or right, and the
/// direction is not blocked; conversely an unblocked direction gives an open step.
proof fn lemma_step_dir(wh: u64, wv: u64, a: int, c: int)
    requires
        0 <= a < 81,
    ensures
        can_step(wh, wv, a, c) ==> exists|dir: int| 0 <= dir < 4 && c == a + dir_offset(dir) && !#[trigger] blocked(wh, wv, dir, a),
        forall|dir: int| 0 <= dir < 4 && !#[trigger] blocked(wh, wv, dir, a) ==> can_step(wh, wv, a, a + dir_offset(dir)),
{
    if can_step(wh, wv, a, c) {
        if c == a - 9 && !blocked(wh, wv, 0, a) {
        } else if c == a + 9 && !blocked(wh, wv, 1, a) {
        } else if c == a - 1 && !blocked(wh, wv, 2, a) {
        } else {
            assert(c == a + dir_offset(3) && !blocked(wh, wv, 3, a));
        }
    }
}

/// The moves of one direction are among all pawn moves.
proof fn lemma_dir_in_pawn_moves(s: GameState, player: int, dir: int, m: Move)
    requires
        0 <= player < 2,
        0 <= dir < 4,
        dir_moves(
            s.walls_h,
            s.walls_v,
            s.positions[player] as int,
            s.positions[1 - player] as int,
            dir,
            side_a(dir),
            side_b(dir),
        ).contains(m),
    ensures
        pawn_moves(s, player).contains(m),
{
    let pos = s.positions[player] as int;
    let opp = s.positions[1 - player] as int;
    let wh = s.walls_h;
    let wv = s.walls_v;
    let a = dir_moves(wh, wv, pos, opp, 0, 2, 3);
    let b = dir_moves(wh, wv, pos, opp, 1, 2, 3);
    let c = dir_moves(wh, wv, pos, opp, 2, 0, 1);
    let d = dir_moves(wh, wv, pos, opp, 3, 0, 1);
    let all = a + b + c + d;
    assert(pawn_moves(s, player) == all);
    if dir == 0 {
        let k = choose|k: int| 0 <= k < a.len() && a[k] == m;
        assert(all[k] == m);
    } else if dir == 1 {
        let k = choose|k: int| 0 <= k < b.len() && b[k] == m;
        assert(all[a.len() + k] == m);
    } else if dir == 2 {
        let k = choose|k: int| 0 <= k < c.len() && c[k] == m;
        assert(all[a.len() + b.len() + k] == m);
    } else {
        let k = choose|k: int| 0 <= k < d.len() && d[k] == m;
        assert(all[a.len() + b.len() + c.len() + k] == m);
    }
}

/// Pawn moves follow the rules of the game. Every open step to a cell the opponent
/// does not hold is a move. When the opponent stands one open step away, every open
/// step from the opponent's cell to a cell other than the pawn's is a move, provided
/// it goes straight on, or the straight step behind the opponent is closed (then both
/// diagonal jumps to the opponent's sides are offered, where open).
pub proof fn lemma_pawn_moves_complete(s: GameState, player: int)
    requires
        s.wf(),
        0 <= player < 2,
    ensures
        forall|c: int|
            #[trigger] can_step(s.walls_h, s.walls_v, s.positions[player] as int, c) && c != s.positions[1 - player]
                ==> pawn_moves(s, player).contains(cell_move(c)),
        forall|c: int|
            can_step(s.walls_h, s.walls_v, s.positions[player] as int, s.positions[1 - player] as int)
                && #[trigger] can_step(s.walls_h, s.walls_v, s.positions[1 - player] as int, c)
                && c != s.positions[player]
                && (c == 2 * s.positions[1 - player] - s.positions[player] || !can_step(
                s.walls_h,
                s.walls_v,
                s.positions[1 - player] as int,
                2 * s.positions[1 - player] - s.positions[player],
            )) ==> pawn_moves(s, player).contains(cell_move(c)),
{
    let pos = s.positions[player] as int;
    let opp = s.positions[1 - player] as int;
    let wh = s.walls_h;
    let wv = s.walls_v;
    assert forall|c: int| #[trigger] can_step(wh, wv, pos, c) && c != opp implies pawn_moves(s, player).contains(cell_move(c)) by {
        lemma_step_dir(wh, wv, pos, c);
        let dir = choose|dir: int| 0 <= dir < 4 && c == pos + dir_offset(dir) && !#[trigger] blocked(wh, wv, dir, pos);
        let dm = dir_moves(wh, wv, pos, opp, dir, side_a(dir), side_b(dir));
        assert(dm[0] == cell_move(c));
        lemma_dir_in_pawn_moves(s, player, dir, cell_move(c));
    }
    assert forall|c: int|
        can_step(wh, wv, pos, opp) && #[trigger] can_step(wh, wv, opp, c) && c != pos && (c == 2 * opp - pos
            || !can_step(wh, wv, opp, 2 * opp - pos)) implies pawn_moves(s, player).contains(cell_move(c)) by {
        lemma_step_dir(wh, wv, pos, opp);
        lemma_step_dir(wh, wv, opp, c);
        let d0 = choose|dir: int| 0 <= dir < 4 && opp == pos + dir_offset(dir) && !#[trigger] blocked(wh, wv, dir, pos);
        let d1 = choose|dir: int| 0 <= dir < 4 && c == opp + dir_offset(dir) && !#[trigger] blocked(wh, wv, dir, opp);
        let side1 = if d0 < 2 { 2int } else { 0int };
        let side2 = if d0 < 2 { 3int } else { 1int };
        let dm = dir_moves(wh, wv, pos, opp, d0, side1, side2);
        if !blocked(wh, wv, d0, opp) {
            assert(can_step(wh, wv, opp, opp + dir_offset(d0)));
            assert(c == opp + dir_offset(d0));
            assert(dm[0] == cell_move(c));
        } else {
            assert(d1 != d0);
            assert(d1 == side1 || d1 == side2);
            let first = if !blocked(wh, wv, side1, opp) {
                seq![cell_move(opp + dir_offset(side1))]
            } else {
                Seq::<Move>::empty()
            };
            if d1 == side1 {
                assert(dm[0] == cell_move(c));
            } else {
                assert(dm[first.len() as int] == cell_move(c));
            }
        }
        lemma_dir_in_pawn_moves(s, player, d0, cell_move(c));
    }
}

/// The target cell of a pawn move allowed by the rules: an open step to a cell the
/// opponent does not hold, or, over an opponent one open step away, an open step from
/// the opponent's cell to a cell other than the pawn's that goes straight on or, when
/// the straight step behind the opponent is closed, to a side.
pub open spec fn rule_target(wh: u64, wv: u64, pos: int, opp: int, c: int) -> bool {
    ||| can_step(wh, wv, pos, c) && c != opp
    ||| {
        &&& can_step(wh, wv, pos, opp)
        &&& can_step(wh, wv, opp, c)
        &&& c != pos
        &&& (c == 2 * opp - pos || !can_step(wh, wv, opp, 2 * opp - pos))
    }
}

/// Each move of one direction goes to a cell the rules allow.
proof fn lemma_dir_moves_sound(s: GameState, player: int, dir: int, k: int)
    requires
        s.wf(),
        0 <= player < 2,
        0 <= dir < 4,
        0 <= k < dir_moves(
            s.walls_h,
            s.walls_v,
            s.positions[player] as int,
            s.positions[1 - player] as int,
            dir,
            side_a(dir),
            side_b(dir),
        ).len(),
    ensures
        exists|c: int|
            0 <= c < 81 && rule_target(s.walls_h, s.walls_v, s.positions[player] as int, s.positions[1 - player] as int, c)
                && dir_moves(
                s.walls_h,
                s.walls_v,
                s.positions[player] as int,
                s.positions[1 - player] as int,
                dir,
                side_a(dir),
                side_b(dir),
            )[k] == #[trigger] cell_move(c),
{
    let pos = s.positions[player] as int;
    let opp = s.positions[1 - player] as int;
    let wh = s.walls_h;
    let wv = s.walls_v;
    let side1 = side_a(dir);
    let side2 = side_b(dir);
    let dm = dir_moves(wh, wv, pos, opp, dir, side1, side2);
    lemma_step_dir(wh, wv, pos, pos);
    let n = pos + dir_offset(dir);
    assert(can_step(wh, wv, pos, n));
    if n != opp {
        assert(rule_target(wh, wv, pos, opp, n) && dm[k] == cell_move(n));
    } else {
        lemma_step_dir(wh, wv, opp, opp);
        let j = opp + dir_offset(dir);
        if !blocked(wh, wv, dir, opp) {
            assert(can_step(wh, wv, opp, j));
            assert(j == 2 * opp - pos);
            assert(rule_target(wh, wv, pos, opp, j) && dm[k] == cell_move(j));
        } else {
            assert(!can_step(wh, wv, opp, 2 * opp - pos)) by {
                if can_step(wh, wv, opp, 2 * opp - pos) {
                    lemma_step_dir(wh, wv, opp, 2 * opp - pos);
                }
            }
            let a = opp + dir_offset(side1);
            let b = opp + dir_offset(side2);
            let first = if !blocked(wh, wv, side1, opp) {
                seq![cell_move(a)]
            } else {
                Seq::<Move>::empty()
            };
            if k < first.len() {
                assert(can_step(wh, wv, opp, a));
                assert(rule_target(wh, wv, pos, opp, a) && dm[k] == cell_move(a));
            } else {
                assert(!blocked(wh, wv, side2, opp));
                assert(can_step(wh, wv, opp, b));
                assert(rule_target(wh, wv, pos, opp, b) && dm[k] == cell_move(b));
            }
        }
    }
}

/// Pawn moves follow the rules of the game, and only them: every pawn move goes to a
/// board cell the rules allow (see `rule_target`), and every cell the rules allow is
/// the target of a pawn move.
pub proof fn lemma_pawn_moves_exact(s: GameState, player: int)
    requires
        s.wf(),
        0 <= player < 2,
    ensures
        forall|k: int| 0 <= k < pawn_moves(s, player).len() ==> exists|c: int|
            0 <= c < 81 && rule_target(s.walls_h, s.walls_v, s.positions[player] as int, s.positions[1 - player] as int, c)
                && #[trigger] pawn_moves(s, player)[k] == cell_move(c),
        forall|c: int|
            #[trigger] rule_target(s.walls_h, s.walls_v, s.positions[player] as int, s.positions[1 - player] as int, c)
                ==> pawn_moves(s, player).contains(cell_move(c)),
{
    let pos = s.positions[player] as int;
    let opp = s.positions[1 - player] as int;
    let wh = s.walls_h;
    let wv = s.walls_v;
    lemma_pawn_moves_complete(s, player);
    assert forall|c: int| #[trigger] rule_target(wh, wv, pos, opp, c) implies pawn_moves(s, player).contains(cell_move(c)) by {
        if can_step(wh, wv, pos, c) && c != opp {
        } else {
            assert(can_step(wh, wv, opp, c));
        }
    }
    let a = dir_moves(wh, wv, pos, opp, 0, 2, 3);
    let b = dir_moves(wh, wv, pos, opp, 1, 2, 3);
    let c = dir_moves(wh, wv, pos, opp, 2, 0, 1);
    let d = dir_moves(wh, wv, pos, opp, 3, 0, 1);
    let all = a + b + c + d;
    assert(pawn_moves(s, player) == all);
    assert forall|k: int| 0 <= k < all.len() implies exists|t: int|
        0 <= t < 81 && rule_target(wh, wv, pos, opp, t) && #[trigger] all[k] == cell_move(t) by {
        if k < a.len() {
            lemma_dir_moves_sound(s, player, 0, k);
            assert(all[k] == a[k]);
        } else if k < a.len() + b.len() {
            lemma_dir_moves_sound(s, player, 1, k - a.len());
            assert(all[k] == b[k - a.len()]);
        } else if k < a.len() + b.len() + c.len() {
            lemma_dir_moves_sound(s, player, 2, k - a.len() - b.len());
            assert(all[k] == c[k - a.len() - b.len()]);
        } else {
            lemma_dir_moves_sound(s, player, 3, k - a.len() - b.len() - c.len());
            assert(all[k] == d[k - a.len() - b.len() - c.len()]);
        }
    }
}

/// Cell `c` is a target of the pawn moves of direction `dir`: the neighbour in that
/// direction when the opponent is not there, or, over an opponent there, the cell
/// straight behind it or a cell beside it (sideways of `dir`).
pub open spec fn dir_target(pos: int, opp: int, dir: int, c: int) -> bool {
    ||| c == pos + dir_offset(dir) && c != opp
    ||| pos + dir_offset(dir) == opp && (c == opp + dir_offset(dir) || c == opp + dir_offset(side_a(dir)) || c == opp
        + dir_offset(side_b(dir)))
}

/// The first side of a direction: left for up and down, up for left and right.
pub open spec fn side_a(dir: int) -> int {
    if dir < 2 {
        2
    } else {
        0
    }
}

/// The second side of a direction: right for up and down, down for left and right.
pub open spec fn side_b(dir: int) -> int {
    if dir < 2 {
        3
    } else {
        1
    }
}

/// Targets of two different directions are different cells.
proof fn lemma_targets_differ(pos: int, opp: int, d1: int, d2: int, c1: int, c2: int)
    requires
        0 <= d1 < 4,
        0 <= d2 < 4,
        d1 != d2,
        dir_target(pos, opp, d1, c1),
        dir_target(pos, opp, d2, c2),
    ensures
        c1 != c2,
{
}

/// Different board cells give different pawn moves.
proof fn lemma_cell_move_injective(c1: int, c2: int)
    requires
        0 <= c1 < 81,
        0 <= c2 < 81,
        c1 != c2,
    ensures
        cell_move(c1) != cell_move(c2),
{
    assert(c1 == (c1 / 9) * 9 + c1 % 9);
    assert(c2 == (c2 / 9) * 9 + c2 % 9);
}

/// Each move of direction `dir` goes to a board cell that is a target of `dir`; a
/// direction lists at most two moves, and two different ones.
proof fn lemma_dir_moves_targets(s: GameState, player: int, dir: int)
    requires
        s.wf(),
        0 <= player < 2,
        0 <= dir < 4,
    ensures
        ({
            let pos = s.positions[player] as int;
            let opp = s.positions[1 - player] as int;
            let dm = dir_moves(s.walls_h, s.walls_v, pos, opp, dir, side_a(dir), side_b(dir));
            &&& forall|k: int| 0 <= k < dm.len() ==> exists|c: int| 0 <= c < 81 && dir_target(pos, opp, dir, c) && #[trigger] dm[k] == cell_move(c)
            &&& dm.no_duplicates()
        }),
{
    let pos = s.positions[player] as int;
    let opp = s.positions[1 - player] as int;
    let wh = s.walls_h;
    let wv = s.walls_v;
    let side1 = side_a(dir);
    let side2 = side_b(dir);
    let dm = dir_moves(wh, wv, pos, opp, dir, side1, side2);
    lemma_step_dir(wh, wv, pos, pos);
    lemma_step_dir(wh, wv, opp, opp);
    assert forall|k: int| 0 <= k < dm.len() implies exists|c: int| 0 <= c < 81 && dir_target(pos, opp, dir, c) && #[trigger] dm[k] == cell_move(c) by {
        let n = pos + dir_offset(dir);
        assert(can_step(wh, wv, pos, n));
        if n != opp {
            assert(dm[k] == cell_move(n));
        } else if !blocked(wh, wv, dir, opp) {
            let j = opp + dir_offset(dir);
            assert(can_step(wh, wv, opp, j));
            assert(dm[k] == cell_move(j));
        } else {
            let a = opp + dir_offset(side1);
            let b = opp + dir_offset(side2);
            let first = if !blocked(wh, wv, side1, opp) {
                seq![cell_move(a)]
            } else {
                Seq::<Move>::empty()
            };
            if k < first.len() {
                assert(can_step(wh, wv, opp, a));
                assert(dm[k] == cell_move(a));
            } else {
                assert(!blocked(wh, wv, side2, opp));
                assert(can_step(wh, wv, opp, b));
                assert(dm[k] == cell_move(b));
            }
        }
    }
    if dm.len() == 2 {
        let a = opp + dir_offset(side1);
        let b = opp + dir_offset(side2);
        assert(can_step(wh, wv, opp, a) && can_step(wh, wv, opp, b));
        assert(dm[0] == cell_move(a) && dm[1] == cell_move(b));
        lemma_cell_move_injective(a, b);
    }
}

/// Two different directions list no common pawn move.
proof fn lemma_dirs_disjoint(s: GameState, player: int, d1: int, d2: int)
    requires
        s.wf(),
        0 <= player < 2,
        0 <= d1 < 4,
        0 <= d2 < 4,
        d1 != d2,
    ensures
        forall|i: int, j: int|
            0 <= i < dir_moves(s.walls_h, s.walls_v, s.positions[player] as int, s.positions[1 - player] as int, d1, side_a(d1), side_b(d1)).len()
                && 0 <= j < dir_moves(s.walls_h, s.walls_v, s.positions[player] as int, s.positions[1 - player] as int, d2, side_a(d2), side_b(d2)).len()
                ==> #[trigger] dir_moves(s.walls_h, s.walls_v, s.positions[player] as int, s.positions[1 - player] as int, d1, side_a(d1), side_b(d1))[i]
                != #[trigger] dir_moves(s.walls_h, s.walls_v, s.positions[player] as int, s.positions[1 - player] as int, d2, side_a(d2), side_b(d2))[j],
{
    let pos = s.positions[player] as int;
    let opp = s.positions[1 - player] as int;
    let m1 = dir_moves(s.walls_h, s.walls_v, pos, opp, d1, side_a(d1), side_b(d1));
    let m2 = dir_moves(s.walls_h, s.walls_v, pos, opp, d2, side_a(d2), side_b(d2));
    lemma_dir_moves_targets(s, player, d1);
    lemma_dir_moves_targets(s, player, d2);
    assert forall|i: int, j: int| 0 <= i < m1.len() && 0 <= j < m2.len() implies #[trigger] m1[i] != #[trigger] m2[j] by {
        let c1 = choose|c: int| 0 <= c < 81 && dir_target(pos, opp, d1, c) && #[trigger] m1[i] == cell_move(c);
        let c2 = choose|c: int| 0 <= c < 81 && dir_target(pos, opp, d2, c) && #[trigger] m2[j] == cell_move(c);
        lemma_targets_differ(pos, opp, d1, d2, c1, c2);
        lemma_cell_move_injective(c1, c2);
    }
}

/// No pawn move is listed twice.
pub proof fn lemma_pawn_moves_distinct(s: GameState, player: int)
    requires
        s.wf(),
        0 <= player < 2,
    ensures
        pawn_moves(s, player).no_duplicates(),
{
    let pos = s.positions[player] as int;
    let opp = s.positions[1 - player] as int;
    let wh = s.walls_h;
    let wv = s.walls_v;
    let a = dir_moves(wh, wv, pos, opp, 0, 2, 3);
    let b = dir_moves(wh, wv, pos, opp, 1, 2, 3);
    let c = dir_moves(wh, wv, pos, opp, 2, 0, 1);
    let d = dir_moves(wh, wv, pos, opp, 3, 0, 1);
    lemma_dir_moves_targets(s, player, 0);
    lemma_dir_moves_targets(s, player, 1);
    lemma_dir_moves_targets(s, player, 2);
    lemma_dir_moves_targets(s, player, 3);
    lemma_dirs_disjoint(s, player, 0, 1);
    lemma_dirs_disjoint(s, player, 0, 2);
    lemma_dirs_disjoint(s, player, 0, 3);
    lemma_dirs_disjoint(s, player, 1, 2);
    lemma_dirs_disjoint(s, player, 1, 3);
    lemma_dirs_disjoint(s, player, 2, 3);
    vstd::seq_lib::lemma_no_dup_in_concat(a, b);
    let ab = a + b;
    assert forall|i: int, j: int| 0 <= i < ab.len() && 0 <= j < c.len() implies ab[i] != c[j] by {
        if i < a.len() {
            assert(ab[i] == a[i]);
        } else {
            assert(ab[i] == b[i - a.len()]);
        }
    }
    vstd::seq_lib::lemma_no_dup_in_concat(ab, c);
    let abc = ab + c;
    assert forall|i: int, j: int| 0 <= i < abc.len() && 0 <= j < d.len() implies abc[i] != d[j] by {
        if i < a.len() {
            assert(abc[i] == a[i]);
        } else if i < a.len() + b.len() {
            assert(abc[i] == b[i - a.len()]);
        } else {
            assert(abc[i] == c[i - a.len() - b.len()]);
        }
    }
    vstd::seq_lib::lemma_no_dup_in_concat(abc, d);
    assert(pawn_moves(s, player) == a + b + c + d);
}

/// Cell `c` lies on a shortest path `d` steps from the start `s`, walking back from
/// the goal row of `player` met after `dist` steps: at `dist`, a goal cell reachable
/// within `dist` steps; below, a cell reachable within `d` steps that lies on such a
/// path at `d + 1` steps or is one open step from a cell that does.
pub open spec fn on_path(wh: u64, wv: u64, s: int, player: int, dist: int, d: int, c: int) -> bool
    decreases dist - d,
{
    if d >= dist {
        goal_cell(player, c) && reachable_within(wh, wv, s, c, dist as nat)
    } else {
        reachable_within(wh, wv, s, c, d as nat) && (on_path(wh, wv, s, player, dist, d + 1, c) || exists|n: int|
            #[trigger] can_step(wh, wv, n, c) && on_path(wh, wv, s, player, dist, d + 1, n))
    }
}

/// The path cells `d` steps from the start form a tunnel: none of them can step left
/// or right, or none of them can step up or down.
pub open spec fn tunnel_layer(wh: u64, wv: u64, s: int, player: int, dist: int, d: int) -> bool {
    ||| forall|c: int| #[trigger] on_path(wh, wv, s, player, dist, d, c) ==> left_blocked(wv, c) && right_blocked(wv, c)
    ||| forall|c: int| #[trigger] on_path(wh, wv, s, player, dist, d, c) ==> up_blocked(wh, c) && down_blocked(wh, c)
}

/// The number of tunnel layers among the layers `0` to `k - 1` steps from the start.
pub open spec fn tunnel_count(wh: u64, wv: u64, s: int, player: int, dist: int, k: int) -> int
    decreases k,
{
    if k <= 0 {
        0
    } else {
        tunnel_count(wh, wv, s, player, dist, k - 1) + if tunnel_layer(wh, wv, s, player, dist, k - 1) {
            1int
        } else {
            0int
        }
    }
}

/// A mask without the cells of a blocker mask is empty exactly when every cell of the
/// mask is one the blocker mask marks.
proof fn lemma_walled(m: u128, b: u128, blocked_at: spec_fn(int) -> bool)
    requires
        forall|c: int| 0 <= c < 128 ==> #[trigger] has_cell(b, c) == blocked_at(c),
    ensures
        ((m & !b) == 0) == (forall|c: int| 0 <= c < 128 && #[trigger] has_cell(m, c) ==> blocked_at(c)),
{
    if (m & !b) != 0 {
        let c = lemma_masks_differ(m & !b, 0);
        lemma_cell_ops(m, !b, c);
        lemma_cell_ops(b, b, c);
        lemma_cell_ops(0, 0, c);
        assert(has_cell(m, c) && !blocked_at(c));
    } else {
        assert forall|c: int| 0 <= c < 128 && #[trigger] has_cell(m, c) implies blocked_at(c) by {
            lemma_cell_ops(m, !b, c);
            lemma_cell_ops(b, b, c);
            lemma_cell_ops(0, 0, c);
        }
    }
}

/// One step of walking the shortest paths back: from the mask of the path cells
/// `d + 1` steps out, a flood-fill step cut to the cells within `d` steps gives the
/// mask of the path cells `d` steps out.
pub proof fn lemma_path_layer_mask(wh: u64, wv: u64, s: int, player: int, dist: int, d: int, pm: u128)
    requires
        0 <= s < 128,
        0 <= d < dist,
        forall|c: int| 0 <= c < 128 ==> #[trigger] has_cell(pm, c) == on_path(wh, wv, s, player, dist, d + 1, c),
    ensures
        forall|c: int|
            0 <= c < 128 ==> #[trigger] has_cell(
                flood_step(pm, blocker_masks(wh, wv).0, blocker_masks(wh, wv).1, blocker_masks(wh, wv).2, blocker_masks(wh, wv).3)
                    & layer_mask(wh, wv, s, d as nat),
                c,
            ) == on_path(wh, wv, s, player, dist, d, c),
        forall|c: int| #[trigger] on_path(wh, wv, s, player, dist, d, c) ==> 0 <= c < 128,
{
    let b = blocker_masks(wh, wv);
    lemma_blocker_masks(wh, wv);
    lemma_flood_step(wh, wv, pm, b.0, b.1, b.2, b.3);
    lemma_layer_mask(wh, wv, s, d as nat);
    let f1 = flood_step(pm, b.0, b.1, b.2, b.3);
    let l1 = layer_mask(wh, wv, s, d as nat);
    let pm2 = f1 & l1;
    assert forall|c: int| 0 <= c < 128 implies #[trigger] has_cell(pm2, c) == on_path(wh, wv, s, player, dist, d, c) by {
        lemma_cell_ops(f1, l1, c);
        assert(has_cell(f1, c) == grown_cell(wh, wv, pm, c));
        assert(has_cell(l1, c) == reachable_within(wh, wv, s, c, d as nat));
        if grown_cell(wh, wv, pm, c) && !has_cell(pm, c) {
            let n = choose|n: int| #[trigger] can_step(wh, wv, n, c) && has_cell(pm, n);
            assert(can_step(wh, wv, n, c) && on_path(wh, wv, s, player, dist, d + 1, n));
        }
        if reachable_within(wh, wv, s, c, d as nat) && !on_path(wh, wv, s, player, dist, d + 1, c) && on_path(wh, wv, s, player, dist, d, c) {
            let n = choose|n: int| #[trigger] can_step(wh, wv, n, c) && on_path(wh, wv, s, player, dist, d + 1, n);
            assert(can_step(wh, wv, n, c) && has_cell(pm, n));
        }
    }
    assert forall|c: int| #[trigger] on_path(wh, wv, s, player, dist, d, c) implies 0 <= c < 128 by {
        lemma_within_in_range(wh, wv, s, c, d as nat);
    }
}

/// Walking the shortest paths back adds one tunnel for every tunnel layer.
proof fn lemma_backtrack_tunnels(
    wh: u64,
    wv: u64,
    s: int,
    player: int,
    dist: int,
    d: int,
    pm: u128,
    max_delta: int,
    tunnels: int,
    immune: bool,
)
    requires
        0 <= s < 128,
        -1 <= d < dist,
        forall|c: int| 0 <= c < 128 ==> #[trigger] has_cell(pm, c) == on_path(wh, wv, s, player, dist, d + 1, c),
    ensures
        backtrack(wh, wv, s, goal_mask(player), dist, d, pm, max_delta, tunnels, immune).1 == tunnels + tunnel_count(
            wh,
            wv,
            s,
            player,
            dist,
            d + 1,
        ),
    decreases d + 1,
{
    if d >= 0 {
        let target = goal_mask(player);
        let b = blocker_masks(wh, wv);
        lemma_blocker_masks(wh, wv);
        let f1 = flood_step(pm, b.0, b.1, b.2, b.3);
        let l1 = layer_mask(wh, wv, s, d as nat);
        let pm2 = f1 & l1;
        lemma_path_layer_mask(wh, wv, s, player, dist, d, pm);
        lemma_walled(pm2, b.0, |c: int| up_blocked(wh, c));
        lemma_walled(pm2, b.1, |c: int| down_blocked(wh, c));
        lemma_walled(pm2, b.2, |c: int| left_blocked(wv, c));
        lemma_walled(pm2, b.3, |c: int| right_blocked(wv, c));
        let walled_left = (pm2 & !b.2) == 0;
        let walled_right = (pm2 & !b.3) == 0;
        let walled_up = (pm2 & !b.0) == 0;
        let walled_down = (pm2 & !b.1) == 0;
        assert(((walled_left && walled_right) || (walled_up && walled_down)) == tunnel_layer(wh, wv, s, player, dist, d)) by {
            if walled_left && walled_right {
                assert forall|c: int| #[trigger] on_path(wh, wv, s, player, dist, d, c) implies left_blocked(wv, c) && right_blocked(wv, c) by {
                    assert(has_cell(pm2, c));
                }
            }
            if walled_up && walled_down {
                assert forall|c: int| #[trigger] on_path(wh, wv, s, player, dist, d, c) implies up_blocked(wh, c) && down_blocked(wh, c) by {
                    assert(has_cell(pm2, c));
                }
            }
            if forall|c: int| #[trigger] on_path(wh, wv, s, player, dist, d, c) ==> left_blocked(wv, c) && right_blocked(wv, c) {
                assert forall|c: int| 0 <= c < 128 && #[trigger] has_cell(pm2, c) implies left_blocked(wv, c) by {
                    assert(on_path(wh, wv, s, player, dist, d, c));
                }
                assert forall|c: int| 0 <= c < 128 && #[trigger] has_cell(pm2, c) implies right_blocked(wv, c) by {
                    assert(on_path(wh, wv, s, player, dist, d, c));
                }
            }
            if forall|c: int| #[trigger] on_path(wh, wv, s, player, dist, d, c) ==> up_blocked(wh, c) && down_blocked(wh, c) {
                assert forall|c: int| 0 <= c < 128 && #[trigger] has_cell(pm2, c) implies up_blocked(wh, c) by {
                    assert(on_path(wh, wv, s, player, dist, d, c));
                }
                assert forall|c: int| 0 <= c < 128 && #[trigger] has_cell(pm2, c) implies down_blocked(wh, c) by {
                    assert(on_path(wh, wv, s, player, dist, d, c));
                }
            }
        }
        let tunnels2 = if (walled_left && walled_right) || (walled_up && walled_down) {
            tunnels + 1
        } else {
            tunnels
        };
        let check = cells_of(pm2).len() <= 2 && !immune;
        let det = detour(wh, wv, target, pm2, 100, 1u128 << (s as u128), 0);
        let immune2 = if check && !det.0 {
            true
        } else {
            immune
        };
        let max_delta2 = if check && det.0 && det.1 - dist > max_delta {
            det.1 - dist
        } else {
            max_delta
        };
        lemma_backtrack_tunnels(wh, wv, s, player, dist, d - 1, pm2, max_delta2, tunnels2, immune2);
    }
}

/// The tunnel count that `get_distances` gives a player with a path to the goal is
/// the number of layers of its shortest paths, walked back from the goal row, whose
/// path cells can step neither left nor right, or neither up nor down.
pub proof fn lemma_tunnel_count(wh: u64, wv: u64, s: int, player: int, r: (i32, u32, i32, u32, bool))
    requires
        0 <= s < 128,
        0 <= player < 2,
        path_metrics(wh, wv, s, player, r),
        path_to_goal(wh, wv, s, player),
    ensures
        r.3 == tunnel_count(wh, wv, s, player, r.0 as int, r.0 as int),
{
    let dist = r.0 as int;
    let g = goal_mask(player);
    let l = layer_mask(wh, wv, s, dist as nat);
    lemma_layer_mask(wh, wv, s, dist as nat);
    assert forall|c: int| 0 <= c < 128 implies #[trigger] has_cell(l & g, c) == on_path(wh, wv, s, player, dist, dist, c) by {
        lemma_cell_ops(l, g, c);
        lemma_edge_cells(c);
    }
    lemma_backtrack_tunnels(wh, wv, s, player, dist, dist - 1, l & g, 0, 0, false);
}

} // verus!
