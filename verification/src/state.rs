//! The game state: two pawns on a 9x9 board and two 8x8 wall sets.

use vstd::prelude::*;
use crate::zobrist::{get_zobrist, key_p0, key_p1, key_turn, key_wall_h, key_wall_v, zobrist_hash, ZobristTable};

verus! {

/// A position of the game.
///
/// Cells are numbered `y * 9 + x` (`x`, `y` in `0..9`); player 0 starts on row 0
/// and races to row 8, player 1 starts on row 8 and races to row 0. Wall slots are
/// numbered `y * 8 + x` (`x`, `y` in `0..8`): a horizontal wall at slot `(x, y)`
/// lies under the cells `(x, y)` and `(x + 1, y)`, a vertical wall at slot `(x, y)`
/// lies right of the cells `(x, y)` and `(x, y + 1)`.
#[derive(Clone, Copy, Debug, PartialEq, Eq, Hash)]
pub struct GameState {
    pub positions: [u8; 2],
    pub walls_left: [u8; 2],
    pub player_to_move: u8,
    pub walls_h: u64,
    pub walls_v: u64,
    pub hash: u64,
}

/// The pair with entry `i` replaced by `v`.
pub open spec fn pair_update(a: [u8; 2], i: int, v: u8) -> [u8; 2] {
    if i == 0 {
        [v, a[1]]
    } else {
        [a[0], v]
    }
}

/// A move can be played in a position: the side to move is a player; a pawn move
/// starts from a board cell and names a board cell; a wall move names a wall slot and
/// the mover has a wall left to place.
pub open spec fn move_args_ok(s: GameState, move_type: u8, x: u8, y: u8) -> bool {
    &&& s.player_to_move < 2
    &&& {
        ||| move_type == 0 && x < 9 && y < 9 && s.positions[s.player_to_move as int] < 81
        ||| (move_type == 1 || move_type == 2) && x < 8 && y < 8 && s.walls_left[s.player_to_move as int] > 0
    }
}

impl GameState {
    /// Both pawns stand on the board and the side to move is a player.
    pub open spec fn wf(&self) -> bool {
        &&& self.positions[0] < 81
        &&& self.positions[1] < 81
        &&& self.player_to_move < 2
    }

    /// The stored hash is the Zobrist hash of the position.
    pub open spec fn hash_consistent(&self) -> bool {
        self.hash == zobrist_hash(
            self.positions[0] as int,
            self.positions[1] as int,
            self.walls_h,
            self.walls_v,
            self.player_to_move as int,
        )
    }

    /// The position after the side to move plays `move_type` at `(x, y)`:
    /// 0 moves the pawn to cell `(x, y)`, 1 places a vertical wall and 2 a horizontal
    /// wall at slot `(x, y)`; the hash is updated by XOR with the keys that change,
    /// and the turn passes.
    pub open spec fn applied(self, move_type: u8, x: u8, y: u8) -> GameState {
        let p = self.player_to_move as int;
        let h = self.hash ^ key_turn();
        let next_turn = (1 - self.player_to_move) as u8;
        if move_type == 0 {
            let old_pos = self.positions[p] as int;
            let new_pos = y * 9 + x;
            GameState {
                positions: pair_update(self.positions, p, new_pos as u8),
                player_to_move: next_turn,
                hash: if p == 0 {
                    h ^ (key_p0(old_pos) ^ key_p0(new_pos))
                } else {
                    h ^ (key_p1(old_pos) ^ key_p1(new_pos))
                },
                ..self
            }
        } else {
            let idx = y * 8 + x;
            let walls_left = pair_update(self.walls_left, p, (self.walls_left[p] - 1) as u8);
            if move_type == 1 {
                GameState {
                    walls_left,
                    walls_v: self.walls_v | (1u64 << (idx as u64)),
                    player_to_move: next_turn,
                    hash: h ^ key_wall_v(idx),
                    ..self
                }
            } else {
                GameState {
                    walls_left,
                    walls_h: self.walls_h | (1u64 << (idx as u64)),
                    player_to_move: next_turn,
                    hash: h ^ key_wall_h(idx),
                    ..self
                }
            }
        }
    }
}

impl GameState {
    /// Cell number of column `x`, row `y`.
    pub fn xy_to_cell_idx(x: u8, y: u8) -> (r: u8)
        requires
            x < 9,
            y < 9,
        ensures
            r == y * 9 + x,
    {
        y * 9 + x
    }

    /// Wall slot number of column `x`, row `y`.
    pub fn xy_to_wall_idx(x: u8, y: u8) -> (r: u8)
        requires
            x < 8,
            y < 8,
        ensures
            r == y * 8 + x,
    {
        y * 8 + x
    }

    /// The starting position (same as `initial_state`).
    pub fn new() -> (s: Self)
        ensures
            s == Self::initial_spec(),
    {
        GameState::initial_state()
    }

    /// The starting position: pawns on cells 4 and 76 (the middle of rows 0 and 8),
    /// ten walls each, no walls on the board, player 0 to move.
    pub open spec fn initial_spec() -> GameState {
        GameState {
            positions: [4u8, 76u8],
            walls_left: [10u8, 10u8],
            player_to_move: 0,
            walls_h: 0,
            walls_v: 0,
            hash: key_p0(4) ^ key_p1(76),
        }
    }

    /// The starting position, hashed.
    pub fn initial_state() -> (s: Self)
        ensures
            s == Self::initial_spec(),
            s.wf(),
    {
        let z = get_zobrist();
        let p0_start: u8 = 4;
        let p1_start: u8 = 76;
        let initial_hash = z.p0_pos[p0_start as usize] ^ z.p1_pos[p1_start as usize];
        GameState {
            positions: [p0_start, p1_start],
            walls_left: [10, 10],
            player_to_move: 0,
            walls_h: 0,
            walls_v: 0,
            hash: initial_hash,
        }
    }

    /// The two pawn cells.
    pub fn get_positions(&self) -> (r: (u8, u8))
        ensures
            r == (self.positions[0], self.positions[1]),
    {
        (self.positions[0], self.positions[1])
    }

    /// The walls each player has left.
    pub fn get_walls_left(&self) -> (r: (u8, u8))
        ensures
            r == (self.walls_left[0], self.walls_left[1]),
    {
        (self.walls_left[0], self.walls_left[1])
    }

    /// The side to move.
    pub fn get_player_to_move(&self) -> (r: u8)
        ensures
            r == self.player_to_move,
    {
        self.player_to_move
    }

    /// 0 when player 0 stands on its goal row, else 1 when player 1 stands on its goal
    /// row, else -1.
    pub fn is_game_finished(&self) -> (r: i8)
        ensures
            r == if self.positions[0] >= 72 {
                0
            } else if self.positions[1] <= 8 {
                1i8
            } else {
                -1i8
            },
    {
        if self.positions[0] >= 72 {
            return 0;
        }
        if self.positions[1] <= 8 {
            return 1;
        }
        -1
    }

    /// Plays a move for the side to move (see `applied`), updating the hash from the
    /// keys of `z`.
    pub fn apply_move_with(&self, z: &ZobristTable, move_type: u8, x: u8, y: u8) -> (next: Self)
        requires
            z.is_standard(),
            move_args_ok(*self, move_type, x, y),
        ensures
            next == self.applied(move_type, x, y),
            self.wf() ==> next.wf(),
    {
        let mut next_state = *self;
        let p = self.player_to_move as usize;
        next_state.hash = next_state.hash ^ z.player_turn;
        if move_type == 0 {
            let old_pos = self.positions[p] as usize;
            let new_pos = GameState::xy_to_cell_idx(x, y) as usize;
            next_state.positions[p] = new_pos as u8;
            if p == 0 {
                next_state.hash = next_state.hash ^ (z.p0_pos[old_pos] ^ z.p0_pos[new_pos]);
            } else {
                next_state.hash = next_state.hash ^ (z.p1_pos[old_pos] ^ z.p1_pos[new_pos]);
            }
        } else if move_type == 1 {
            let idx = GameState::xy_to_wall_idx(x, y);
            next_state.walls_left[p] = next_state.walls_left[p] - 1;
            next_state.walls_v = next_state.walls_v | (1u64 << idx);
            next_state.hash = next_state.hash ^ z.walls_v[idx as usize];
        } else {
            let idx = GameState::xy_to_wall_idx(x, y);
            next_state.walls_left[p] = next_state.walls_left[p] - 1;
            next_state.walls_h = next_state.walls_h | (1u64 << idx);
            next_state.hash = next_state.hash ^ z.walls_h[idx as usize];
        }
        next_state.player_to_move = 1 - self.player_to_move;
        proof {
            let sp = self.applied(move_type, x, y);
            assert(next_state.positions =~= sp.positions);
            assert(next_state.walls_left =~= sp.walls_left);
        }
        next_state
    }

    /// Plays a move for the side to move (see `applied`).
    pub fn apply_move(&self, move_type: u8, x: u8, y: u8) -> (next: Self)
        requires
            move_args_ok(*self, move_type, x, y),
        ensures
            next == self.applied(move_type, x, y),
            self.wf() ==> next.wf(),
    {
        let z = get_zobrist();
        self.apply_move_with(&z, move_type, x, y)
    }
}

} // verus!
