//! Move generation: wall placements and pawn steps and jumps.

use vstd::prelude::*;
use crate::bits::{bit128, bit64, bits_from, has_cell, has_wall, lemma_bits_from_start, lemma_kernighan_end, lemma_kernighan_step, set_bits, set_bits_below};
use crate::board::{down_blocked, left_blocked, right_blocked, up_blocked, wall_at};
use crate::state::GameState;

verus! {

/// A move: `move_type` 0 moves the pawn to cell `(x, y)`, 1 places a vertical wall
/// and 2 a horizontal wall at slot `(x, y)`.
#[derive(Clone, Copy, Debug, PartialEq, Eq, Structural)]
pub struct Move {
    pub move_type: u8,
    pub x: u8,
    pub y: u8,
}

/// Wall slots of the 8x8 grid outside column 0.
pub const NOT_COL_A: u64 = 0xFEFEFEFEFEFEFEFE;
/// Wall slots of the 8x8 grid outside column 7.
pub const NOT_COL_H: u64 = 0x7F7F7F7F7F7F7F7F;

/// A horizontal wall fits at slot `i`: the slot is free of both orientations (no
/// crossing) and neither horizontal neighbour in the same row holds a horizontal wall
/// (which would overlap it).
pub open spec fn h_slot_free(wh: u64, wv: u64, i: int) -> bool {
    let x = i % 8;
    let y = i / 8;
    !wall_at(wh, x, y) && !wall_at(wv, x, y) && !wall_at(wh, x - 1, y) && !wall_at(wh, x + 1, y)
}

/// A vertical wall fits at slot `i`: the slot is free of both orientations and neither
/// vertical neighbour in the same column holds a vertical wall.
pub open spec fn v_slot_free(wh: u64, wv: u64, i: int) -> bool {
    let x = i % 8;
    let y = i / 8;
    !wall_at(wv, x, y) && !wall_at(wh, x, y) && !wall_at(wv, x, y - 1) && !wall_at(wv, x, y + 1)
}

/// The mask of slots where a horizontal wall fits.
pub open spec fn h_free_mask(wh: u64, wv: u64) -> u64 {
    !(wh | wv | ((wh << 1u64) & NOT_COL_A) | ((wh >> 1u64) & NOT_COL_H))
}

/// The mask of slots where a vertical wall fits.
pub open spec fn v_free_mask(wh: u64, wv: u64) -> u64 {
    !(wv | wh | (wv << 8u64) | (wv >> 8u64))
}

/// The wall move of the given type at slot `i`.
pub open spec fn wall_move(move_type: u8, i: int) -> Move {
    Move { move_type, x: (i % 8) as u8, y: (i / 8) as u8 }
}

/// The wall moves of the given type at the listed slots, in the same order.
pub open spec fn wall_moves(move_type: u8, slots: Seq<int>) -> Seq<Move> {
    slots.map_values(|i: int| wall_move(move_type, i))
}

/// All wall placements of `player`, horizontal ones first, each group by increasing
/// slot; none when the player has no wall left.
pub open spec fn legal_walls(s: GameState, player: int) -> Seq<Move> {
    if s.walls_left[player] == 0 {
        Seq::empty()
    } else {
        wall_moves(2, set_bits(h_free_mask(s.walls_h, s.walls_v))) + wall_moves(
            1,
            set_bits(v_free_mask(s.walls_h, s.walls_v)),
        )
    }
}

proof fn lemma_free_bits(wh: u64, wv: u64, i: u64)
    by (bit_vector)
    requires
        i < 64,
    ensures
        bit64(h_free_mask(wh, wv), i) == !(bit64(wh, i) || bit64(wv, i) || (i % 8 != 0 && i >= 1
            && bit64(wh, (i - 1) as u64)) || (i % 8 != 7 && i + 1 < 64 && bit64(wh, (i + 1) as u64))),
        bit64(v_free_mask(wh, wv), i) == !(bit64(wv, i) || bit64(wh, i) || (i >= 8 && bit64(
            wv,
            (i - 8) as u64,
        )) || (i + 8 < 64 && bit64(wv, (i + 8) as u64))),
{
}

/// The free-slot masks hold exactly the slots where a wall fits.
pub proof fn lemma_free_masks(wh: u64, wv: u64)
    ensures
        forall|i: int| 0 <= i < 64 ==> #[trigger] has_wall(h_free_mask(wh, wv), i) == h_slot_free(wh, wv, i),
        forall|i: int| 0 <= i < 64 ==> #[trigger] has_wall(v_free_mask(wh, wv), i) == v_slot_free(wh, wv, i),
{
    assert forall|i: int| 0 <= i < 64 implies #[trigger] has_wall(h_free_mask(wh, wv), i) == h_slot_free(wh, wv, i)
        && has_wall(v_free_mask(wh, wv), i) == v_slot_free(wh, wv, i) by {
        lemma_free_bits(wh, wv, i as u64);
    }
    assert forall|i: int| 0 <= i < 64 implies #[trigger] has_wall(v_free_mask(wh, wv), i) == v_slot_free(wh, wv, i) by {
        lemma_free_bits(wh, wv, i as u64);
    }
}

/// Appends the wall moves of the given type at every set bit of `valid`, lowest first.
fn push_wall_moves(moves: &mut Vec<Move>, valid: u64, move_type: u8)
    ensures
        final(moves)@ == old(moves)@ + wall_moves(move_type, set_bits(valid)),
{
    let ghost start = moves@;
    let mut v = valid;
    let ghost mut n: int = 0;
    proof {
        lemma_bits_from_start(valid);
    }
    while v != 0
        invariant
            0 <= n <= 64,
            bits_from(v, valid, n),
            moves@ == start + wall_moves(move_type, set_bits_below(valid, n as nat)),
        decreases 64 - n,
    {
        proof {
            lemma_kernighan_step(valid, n, v);
        }
        let idx = v.trailing_zeros() as u8;
        moves.push(Move { move_type, x: idx % 8, y: idx / 8 });
        proof {
            let old_n = n;
            n = idx as int + 1;
            assert(moves@ == start + wall_moves(move_type, set_bits_below(valid, n as nat))) by {
                assert(set_bits_below(valid, n as nat) == set_bits_below(valid, old_n as nat).push(idx as int));
                assert(wall_moves(move_type, set_bits_below(valid, n as nat)) =~= wall_moves(move_type, set_bits_below(valid, old_n as nat)).push(wall_move(move_type, idx as int)));
            }
        }
        v = v & (v - 1);
    }
    proof {
        lemma_kernighan_end(valid, n);
    }
}

/// Decides, cell by cell, whether a step is blocked in a direction:
/// 0 up, 1 down, 2 left, 3 right.
pub open spec fn blocked(wh: u64, wv: u64, dir: int, c: int) -> bool {
    if dir == 0 {
        up_blocked(wh, c)
    } else if dir == 1 {
        down_blocked(wh, c)
    } else if dir == 2 {
        left_blocked(wv, c)
    } else {
        right_blocked(wv, c)
    }
}

/// The cell offset of a direction.
pub open spec fn dir_offset(dir: int) -> int {
    if dir == 0 {
        -9
    } else if dir == 1 {
        9
    } else if dir == 2 {
        -1
    } else {
        1
    }
}

/// The pawn move to cell `c`.
pub open spec fn cell_move(c: int) -> Move {
    Move { move_type: 0, x: (c % 9) as u8, y: (c / 9) as u8 }
}

/// The pawn moves in direction `dir` from `pos` with the opponent on `opp`: a plain
/// step when the next cell is free; a straight jump over an adjacent opponent when
/// nothing blocks behind it; otherwise the diagonal jumps to the two sides `side1`
/// and `side2` of the opponent that are not blocked.
pub open spec fn dir_moves(wh: u64, wv: u64, pos: int, opp: int, dir: int, side1: int, side2: int) -> Seq<Move> {
    if blocked(wh, wv, dir, pos) {
        Seq::empty()
    } else if pos + dir_offset(dir) != opp {
        seq![cell_move(pos + dir_offset(dir))]
    } else if !blocked(wh, wv, dir, opp) {
        seq![cell_move(opp + dir_offset(dir))]
    } else {
        (if !blocked(wh, wv, side1, opp) {
            seq![cell_move(opp + dir_offset(side1))]
        } else {
            Seq::empty()
        }) + (if !blocked(wh, wv, side2, opp) {
            seq![cell_move(opp + dir_offset(side2))]
        } else {
            Seq::empty()
        })
    }
}

/// The pawn moves of `player` can be generated without a shift or a byte overflowing:
/// the pawn's cell number fits a 128-bit mask, and so does the opponent's whenever it
/// stands one step below or right of the pawn.
pub open spec fn pawn_moves_ok(s: GameState, player: int) -> bool {
    let pos = s.positions[player] as int;
    let opp = s.positions[1 - player] as int;
    pos < 128 && (opp >= 128 ==> opp != pos + 9 && opp != pos + 1)
}

/// All pawn moves of `player`: up, down, left, then right (jumps sideways go left
/// then right after a vertical direction, up then down after a horizontal one).
pub open spec fn pawn_moves(s: GameState, player: int) -> Seq<Move> {
    let pos = s.positions[player] as int;
    let opp = s.positions[1 - player] as int;
    let wh = s.walls_h;
    let wv = s.walls_v;
    dir_moves(wh, wv, pos, opp, 0, 2, 3) + dir_moves(wh, wv, pos, opp, 1, 2, 3) + dir_moves(
        wh,
        wv,
        pos,
        opp,
        2,
        0,
        1,
    ) + dir_moves(wh, wv, pos, opp, 3, 0, 1)
}

proof fn lemma_can_go_bit(b: u128, p: u128)
    by (bit_vector)
    requires
        p < 128,
    ensures
        ((b & (1u128 << p)) == 0) == !bit128(b, p),
{
}

/// No wall or edge blocks a step from cell `p` in the direction of the mask `blockers`.
fn can_go(p: u8, blockers: u128) -> (r: bool)
    requires
        p < 128,
    ensures
        r == !has_cell(blockers, p as int),
{
    proof {
        lemma_can_go_bit(blockers, p as u128);
    }
    (blockers & (1u128 << p)) == 0
}

/// Appends the pawn move to cell `target`.
fn add_move(moves: &mut Vec<Move>, target: u8)
    ensures
        final(moves)@ == old(moves)@.push(cell_move(target as int)),
{
    moves.push(Move { move_type: 0, x: target % 9, y: target / 9 });
}

/// The mask `b` marks exactly the board cells from which direction `dir` is blocked.
pub open spec fn mask_of_dir(wh: u64, wv: u64, b: u128, dir: int) -> bool {
    forall|c: int| 0 <= c < 128 ==> #[trigger] has_cell(b, c) == blocked(wh, wv, dir, c)
}

/// The neighbour of cell `c` in direction `dir` (0 up, 1 down, 2 left, 3 right).
fn step_cell(c: u8, dir: u8, Ghost(wh): Ghost<u64>, Ghost(wv): Ghost<u64>) -> (r: u8)
    requires
        c < 128,
        dir < 4,
        !blocked(wh, wv, dir as int, c as int),
    ensures
        r == c + dir_offset(dir as int),
{
    if dir == 0 {
        c - 9
    } else if dir == 1 {
        c + 9
    } else if dir == 2 {
        c - 1
    } else {
        c + 1
    }
}

/// Appends the pawn moves in direction `dir` (see `dir_moves`).
fn push_dir_moves(
    moves: &mut Vec<Move>,
    pos: u8,
    opp: u8,
    b_dir: u128,
    b_side1: u128,
    b_side2: u128,
    dir: u8,
    side1: u8,
    side2: u8,
    Ghost(wh): Ghost<u64>,
    Ghost(wv): Ghost<u64>,
)
    requires
        pos < 128,
        opp >= 128 ==> pos + dir_offset(dir as int) != opp,
        dir < 4,
        side1 < 4,
        side2 < 4,
        mask_of_dir(wh, wv, b_dir, dir as int),
        mask_of_dir(wh, wv, b_side1, side1 as int),
        mask_of_dir(wh, wv, b_side2, side2 as int),
    ensures
        final(moves)@ == old(moves)@ + dir_moves(wh, wv, pos as int, opp as int, dir as int, side1 as int, side2 as int),
{
    let ghost m0 = moves@;
    if can_go(pos, b_dir) {
        let next_pos = step_cell(pos, dir, Ghost(wh), Ghost(wv));
        if next_pos != opp {
            add_move(moves, next_pos);
        } else {
            if can_go(opp, b_dir) {
                let jump = step_cell(opp, dir, Ghost(wh), Ghost(wv));
                add_move(moves, jump);
            } else {
                if can_go(opp, b_side1) {
                    let t = step_cell(opp, side1, Ghost(wh), Ghost(wv));
                    add_move(moves, t);
                }
                let ghost m1 = moves@;
                if can_go(opp, b_side2) {
                    let t = step_cell(opp, side2, Ghost(wh), Ghost(wv));
                    add_move(moves, t);
                }
            }
        }
    }
    assert(moves@ =~= m0 + dir_moves(wh, wv, pos as int, opp as int, dir as int, side1 as int, side2 as int));
}

/// The search engine's integer state: node counter and killer moves.
pub struct Engine {
    /// Nodes visited by the current search.
    pub nodes_explored: u64,
    /// Two killer moves for each ply below 128.
    pub killer_moves: [[Option<Move>; 2]; 128],
}

impl Engine {
    /// All wall placements of `player` that fit on the board (whether they trap a pawn
    /// is not checked).
    pub fn generate_legal_walls(state: &GameState, player: u8) -> (moves: Vec<Move>)
        requires
            player < 2,
        ensures
            moves@ == legal_walls(*state, player as int),
    {
        let mut moves = Vec::with_capacity(128);
        if state.walls_left[player as usize] == 0 {
            return moves;
        }
        let w_h = state.walls_h;
        let w_v = state.walls_v;
        let invalid_h = w_h | w_v | ((w_h << 1u64) & NOT_COL_A) | ((w_h >> 1u64) & NOT_COL_H);
        let valid_h = !invalid_h;
        push_wall_moves(&mut moves, valid_h, 2);
        let invalid_v = w_v | w_h | (w_v << 8u64) | (w_v >> 8u64);
        let valid_v = !invalid_v;
        push_wall_moves(&mut moves, valid_v, 1);
        moves
    }

    /// All pawn moves of `player`, including jumps over the opponent.
    pub fn generate_pawn_moves(state: &GameState, player: u8) -> (moves: Vec<Move>)
        requires
            player < 2,
            pawn_moves_ok(*state, player as int),
        ensures
            moves@ == pawn_moves(*state, player as int),
    {
        let mut moves = Vec::with_capacity(5);
        let pos = state.positions[player as usize];
        let opp = state.positions[(1 - player) as usize];
        let (b_up, b_down, b_left, b_right) = state.get_wall_blockers();
        let ghost wh = state.walls_h;
        let ghost wv = state.walls_v;
        assert(mask_of_dir(wh, wv, b_up, 0));
        assert(mask_of_dir(wh, wv, b_down, 1));
        assert(mask_of_dir(wh, wv, b_left, 2));
        assert(mask_of_dir(wh, wv, b_right, 3));
        push_dir_moves(&mut moves, pos, opp, b_up, b_left, b_right, 0, 2, 3, Ghost(wh), Ghost(wv));
        push_dir_moves(&mut moves, pos, opp, b_down, b_left, b_right, 1, 2, 3, Ghost(wh), Ghost(wv));
        push_dir_moves(&mut moves, pos, opp, b_left, b_up, b_down, 2, 0, 1, Ghost(wh), Ghost(wv));
        push_dir_moves(&mut moves, pos, opp, b_right, b_up, b_down, 3, 0, 1, Ghost(wh), Ghost(wv));
        assert(moves@ =~= pawn_moves(*state, player as int));
        moves
    }

    /// All moves of `player`: pawn moves first, then wall placements.
    pub fn get_all_moves(state: &GameState, player: u8) -> (moves: Vec<Move>)
        requires
            player < 2,
            pawn_moves_ok(*state, player as int),
        ensures
            moves@ == pawn_moves(*state, player as int) + legal_walls(*state, player as int),
    {
        let mut moves = Self::generate_pawn_moves(state, player);
        let mut walls = Self::generate_legal_walls(state, player);
        moves.append(&mut walls);
        moves
    }
}

/// The option holds exactly the move `m`.
pub open spec fn holds(k: Option<Move>, m: Move) -> bool {
    k == Some(m)
}

/// Whether the option holds exactly the move `m`.
fn holds_move(k: Option<Move>, m: Move) -> (r: bool)
    ensures
        r == holds(k, m),
{
    match k {
        Some(km) => km == m,
        None => false,
    }
}

/// Whether `m` occurs among `moves`.
fn contains_move(moves: &Vec<Move>, m: Move) -> (r: bool)
    ensures
        r == moves@.contains(m),
{
    let mut i: usize = 0;
    while i < moves.len()
        invariant
            i <= moves.len(),
            forall|j: int| 0 <= j < i ==> moves@[j] != m,
        decreases moves.len() - i,
    {
        if moves[i] == m {
            return true;
        }
        i = i + 1;
    }
    false
}

/// The ply index used for the killer table: plies past 127 share the last slot.
pub open spec fn killer_slot(ply: int) -> int {
    if ply < 127 {
        ply
    } else {
        127
    }
}

/// The move-ordering score of `m` (higher is searched first): pawn moves score
/// 10000, a wall scores minus its squared distance to the opponent's cell
/// `(opp_x, opp_y)`; the first killer move gets 20000 more, the second 15000 more.
pub open spec fn order_key(opp_x: int, opp_y: int, killers: [Option<Move>; 2], m: Move) -> int {
    let base: int = if m.move_type == 0 {
        10000
    } else {
        let dx = m.x - opp_x;
        let dy = m.y - opp_y;
        -(dx * dx + dy * dy)
    };
    base + if holds(killers[0], m) {
        20000int
    } else if holds(killers[1], m) {
        15000int
    } else {
        0int
    }
}

/// The opponent's cell coordinates in a position.
pub open spec fn opp_xy(state: GameState) -> (int, int) {
    let opp_pos = state.positions[1 - state.player_to_move as int] as int;
    (opp_pos % 9, opp_pos / 9)
}

/// The moves are in non-increasing order of score.
pub open spec fn sorted_by_order(s: Seq<Move>, opp_x: int, opp_y: int, killers: [Option<Move>; 2]) -> bool {
    forall|a: int, b: int|
        0 <= a < b < s.len() ==> order_key(opp_x, opp_y, killers, #[trigger] s[a]) >= order_key(
            opp_x,
            opp_y,
            killers,
            #[trigger] s[b],
        )
}

fn move_order_key(opp_x: i32, opp_y: i32, killers: &[Option<Move>; 2], m: Move) -> (r: i32)
    requires
        0 <= opp_x < 9,
        0 <= opp_y <= 28,
    ensures
        r == order_key(opp_x as int, opp_y as int, *killers, m),
{
    let mut score: i32 = if m.move_type == 0 {
        10000
    } else {
        let dx = (m.x as i32) - opp_x;
        let dy = (m.y as i32) - opp_y;
        assert(0 <= dx * dx <= 70000 && 0 <= dy * dy <= 70000) by (nonlinear_arith)
            requires
                -8 <= dx <= 255,
                -28 <= dy <= 255,
        ;
        -(dx * dx + dy * dy)
    };
    if holds_move(killers[0], m) {
        score = score + 20000;
    } else if holds_move(killers[1], m) {
        score = score + 15000;
    }
    score
}

proof fn lemma_swap_multiset(s: Seq<Move>, i: int, j: int)
    requires
        0 <= i < s.len(),
        0 <= j < s.len(),
    ensures
        s.update(i, s[j]).update(j, s[i]).to_multiset() == s.to_multiset(),
{
    broadcast use vstd::multiset::group_multiset_axioms;
    broadcast use vstd::seq_lib::to_multiset_update;
    broadcast use vstd::seq_lib::to_multiset_contains;
    let s1 = s.update(i, s[j]);
    let m = s.to_multiset();
    assert(s.contains(s[i]));
    assert(m.count(s[i]) > 0);
    assert(s1.to_multiset() == m.insert(s[j]).remove(s[i]));
    assert(s1[j] == s[j]);
    assert(s1.update(j, s[i]).to_multiset() == s1.to_multiset().insert(s[i]).remove(s1[j]));
    let m1 = m.insert(s[j]);
    let m2 = m1.remove(s[i]);
    let m3 = m2.insert(s[i]);
    let m4 = m3.remove(s[j]);
    assert forall|x: Move| m4.count(x) == m.count(x) by {
        assert(m1.count(s[i]) > 0);
        assert(m3.count(s[j]) > 0);
    }
    assert(m4 =~= m);
}

impl Engine {
    /// A fresh engine: no node visited, no killer move recorded.
    pub fn new() -> (e: Engine)
        ensures
            e.nodes_explored == 0,
            e.killers_cleared(),
    {
        Engine { nodes_explored: 0, killer_moves: [[None, None]; 128] }
    }

    /// The killer moves of every ply slot.
    pub open spec fn killers(&self) -> Seq<[Option<Move>; 2]> {
        self.killer_moves@
    }

    /// No killer move is recorded.
    pub open spec fn killers_cleared(&self) -> bool {
        &&& self.killers().len() == 128
        &&& forall|i: int| 0 <= i < 128 ==> #[trigger] self.killers()[i] == [None::<Move>, None::<Move>]
    }

    /// Forgets every killer move.
    pub fn clear_killers(&mut self)
        ensures
            final(self).killers_cleared(),
            final(self).nodes_explored == old(self).nodes_explored,
    {
        self.killer_moves = [[None, None]; 128];
    }

    /// The killer moves recorded for `ply`.
    pub fn killers_at(&self, ply: usize) -> (r: [Option<Move>; 2])
        ensures
            r == self.killers()[killer_slot(ply as int)],
    {
        let safe_ply = if ply < 127 { ply } else { 127 };
        self.killer_moves[safe_ply]
    }

    /// Records `m` as the first killer move of `ply`; the former first becomes the
    /// second, unless `m` already was the first.
    pub fn record_killer(&mut self, ply: usize, m: Move)
        ensures
            final(self).nodes_explored == old(self).nodes_explored,
            final(self).killers() == old(self).killers().update(
                killer_slot(ply as int),
                if holds(old(self).killers()[killer_slot(ply as int)][0], m) {
                    old(self).killers()[killer_slot(ply as int)]
                } else {
                    [Some(m), old(self).killers()[killer_slot(ply as int)][0]]
                },
            ),
    {
        let safe_ply = if ply < 127 { ply } else { 127 };
        let pair = self.killer_moves[safe_ply];
        if !holds_move(pair[0], m) {
            self.killer_moves[safe_ply] = [Some(m), pair[0]];
        }
        proof {
            assert(self.killer_moves@ =~= old(self).killers().update(
                killer_slot(ply as int),
                if holds(old(self).killers()[killer_slot(ply as int)][0], m) {
                    old(self).killers()[killer_slot(ply as int)]
                } else {
                    [Some(m), old(self).killers()[killer_slot(ply as int)][0]]
                },
            ));
        }
    }

    /// Sorts the moves so that the highest-scoring come first (see `order_key`): pawn
    /// moves, then walls nearest the opponent, with the killer moves ahead.
    pub fn sort_moves(state: &GameState, moves: &mut [Move], killers: &[Option<Move>; 2])
        requires
            state.player_to_move < 2,
        ensures
            final(moves)@.to_multiset() == old(moves)@.to_multiset(),
            final(moves)@.len() == old(moves)@.len(),
            sorted_by_order(final(moves)@, opp_xy(*state).0, opp_xy(*state).1, *killers),
    {
        let opp = 1 - state.player_to_move;
        let opp_pos = state.positions[opp as usize];
        let opp_x = (opp_pos % 9) as i32;
        let opp_y = (opp_pos / 9) as i32;
        let ghost ox = opp_x as int;
        let ghost oy = opp_y as int;
        let ghost ks = *killers;
        let n = moves.len();
        let mut i: usize = 1;
        if n == 0 {
            return;
        }
        while i < n
            invariant
                1 <= i <= n,
                n == moves@.len(),
                0 <= opp_x < 9,
                0 <= opp_y <= 28,
                ox == opp_x,
                oy == opp_y,
                ks == *killers,
                moves@.to_multiset() == old(moves)@.to_multiset(),
                sorted_by_order(moves@.subrange(0, i as int), ox, oy, ks),
            decreases n - i,
        {
            let mut j: usize = i;
            proof {
                assert forall|a: int, b: int| 0 <= a < b <= i && a != j && b != j implies order_key(ox, oy, ks, #[trigger] moves@[a])
                    >= order_key(ox, oy, ks, #[trigger] moves@[b]) by {
                    assert(moves@.subrange(0, i as int)[a] == moves@[a]);
                    assert(moves@.subrange(0, i as int)[b] == moves@[b]);
                }
            }
            while j > 0 && move_order_key(opp_x, opp_y, killers, moves[j - 1]) < move_order_key(opp_x, opp_y, killers, moves[j])
                invariant
                    0 <= j <= i < n,
                    n == moves@.len(),
                    0 <= opp_x < 9,
                    0 <= opp_y <= 28,
                    ox == opp_x,
                    oy == opp_y,
                    ks == *killers,
                    moves@.to_multiset() == old(moves)@.to_multiset(),
                    forall|a: int, b: int|
                        0 <= a < b <= i && a != j && b != j ==> order_key(ox, oy, ks, #[trigger] moves@[a])
                            >= order_key(ox, oy, ks, #[trigger] moves@[b]),
                    forall|b: int| j < b <= i ==> order_key(ox, oy, ks, #[trigger] moves@[b]) < order_key(ox, oy, ks, moves@[j as int]),
                decreases j,
            {
                let a = moves[j - 1];
                let b = moves[j];
                proof {
                    lemma_swap_multiset(moves@, j as int, j - 1);
                }
                moves[j] = a;
                moves[j - 1] = b;
                j = j - 1;
            }
            proof {
                assert forall|a: int, b: int| 0 <= a < b < i + 1 implies order_key(ox, oy, ks, #[trigger] moves@.subrange(0, i + 1)[a])
                    >= order_key(ox, oy, ks, #[trigger] moves@.subrange(0, i + 1)[b]) by {
                    if a == j && j > 0 {
                        assert(order_key(ox, oy, ks, moves@[j - 1]) >= order_key(ox, oy, ks, moves@[j as int]));
                    }
                    if b == j && j > 0 && a < j - 1 {
                        assert(order_key(ox, oy, ks, moves@[a]) >= order_key(ox, oy, ks, moves@[j - 1]));
                    }
                }
            }
            i = i + 1;
        }
        proof {
            assert(moves@.subrange(0, n as int) =~= moves@);
        }
    }

    /// Puts the first occurrence of `tt_move` at the front by swapping it with the
    /// first move; the moves are unchanged when it does not occur.
    pub fn promote_move(moves: &mut Vec<Move>, tt_move: Move)
        ensures
            match old(moves)@.index_of_first(tt_move) {
                Some(p) => final(moves)@ == old(moves)@.update(0, old(moves)@[p]).update(p, old(moves)@[0]),
                None => final(moves)@ == old(moves)@,
            },
    {
        let mut i: usize = 0;
        while i < moves.len()
            invariant
                i <= moves.len(),
                moves@ == old(moves)@,
                forall|j: int| 0 <= j < i ==> moves@[j] != tt_move,
            decreases moves.len() - i,
        {
            if moves[i] == tt_move {
                proof {
                    old(moves)@.index_of_first_ensures(tt_move);
                    assert(old(moves)@[i as int] == tt_move);
                    assert(old(moves)@.contains(tt_move));
                    let p = old(moves)@.index_of_first(tt_move).unwrap();
                    if p < i {
                        assert(moves@[p] != tt_move);
                    }
                    assert(p == i);
                }
                let first = moves[0];
                let found = moves[i];
                moves.set(0, found);
                moves.set(i, first);
                return;
            }
            i = i + 1;
        }
        proof {
            old(moves)@.index_of_first_ensures(tt_move);
        }
    }

    /// The moves of the quiet-position search: the pawn moves of the side to move and,
    /// when it has walls left, its killer moves of `ply` that are wall placements
    /// still legal (the second only when it differs from the first).
    pub fn quiescence_moves(&self, state: &GameState, ply: usize) -> (moves: Vec<Move>)
        requires
            state.player_to_move < 2,
            pawn_moves_ok(*state, state.player_to_move as int),
        ensures
            moves@ == quiescence_spec(*state, self.killers()[killer_slot(ply as int)]),
    {
        let p = state.player_to_move;
        let mut moves = Self::generate_pawn_moves(state, p);
        let pair = self.killers_at(ply);
        if state.walls_left[p as usize] > 0 {
            let legal_walls = Self::generate_legal_walls(state, p);
            if let Some(k1) = pair[0] {
                if k1.move_type != 0 && contains_move(&legal_walls, k1) {
                    moves.push(k1);
                }
            }
            if let Some(k2) = pair[1] {
                if k2.move_type != 0 && contains_move(&legal_walls, k2) && !holds_move(pair[0], k2) {
                    moves.push(k2);
                }
            }
        }
        moves
    }
}

/// A killer move joins the quiet-position search when it is a wall placement among
/// the legal ones.
pub open spec fn killer_wall_ok(state: GameState, k: Option<Move>) -> bool {
    &&& k is Some
    &&& k->0.move_type != 0
    &&& legal_walls(state, state.player_to_move as int).contains(k->0)
}

/// The moves of the quiet-position search (see `quiescence_moves`).
pub open spec fn quiescence_spec(state: GameState, killers: [Option<Move>; 2]) -> Seq<Move> {
    let p = state.player_to_move as int;
    let pawns = pawn_moves(state, p);
    if state.walls_left[p] > 0 {
        let with1 = if killer_wall_ok(state, killers[0]) {
            pawns.push(killers[0]->0)
        } else {
            pawns
        };
        if killer_wall_ok(state, killers[1]) && !holds(killers[0], killers[1]->0) {
            with1.push(killers[1]->0)
        } else {
            with1
        }
    } else {
        pawns
    }
}

} // verus!
