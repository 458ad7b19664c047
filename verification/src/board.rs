//! Board geometry: cells, wall slots, and the masks of blocked moves.

use vstd::prelude::*;
use crate::bits::{bit128, bit64, has_cell, has_wall, lemma_cell_ops, lemma_cell_shl};
use crate::state::GameState;

verus! {

/// Cells of row 0 (player 1's goal).
pub const TOP_EDGE: u128 = 0x1FF;
/// Cells of row 8 (player 0's goal).
pub const BOTTOM_EDGE: u128 = 0x1FF << 72u128;
/// Cells of column 0.
pub const LEFT_EDGE: u128 = 1 | (1 << 9u128) | (1 << 18u128) | (1 << 27u128) | (1 << 36u128) | (1
    << 45u128) | (1 << 54u128) | (1 << 63u128) | (1 << 72u128);
/// Cells of column 8.
pub const RIGHT_EDGE: u128 = LEFT_EDGE << 8u128;

/// The wall set `w` holds the slot at column `x`, row `y` (both in `0..8`).
pub open spec fn wall_at(w: u64, x: int, y: int) -> bool {
    0 <= x < 8 && 0 <= y < 8 && has_wall(w, y * 8 + x)
}

/// The horizontal wall set holds slot `(x, y)`.
pub open spec fn h_wall(wh: u64, x: int, y: int) -> bool {
    wall_at(wh, x, y)
}

/// The vertical wall set holds slot `(x, y)`.
pub open spec fn v_wall(wv: u64, x: int, y: int) -> bool {
    wall_at(wv, x, y)
}

/// A pawn on board cell `c` cannot step up (board edge or a wall above it). Nothing
/// blocks the cell numbers 81 to 127 of the 128-bit masks, which lie past the board.
pub open spec fn up_blocked(wh: u64, c: int) -> bool {
    let x = c % 9;
    let y = c / 9;
    c < 81 && (y == 0 || h_wall(wh, x, y - 1) || h_wall(wh, x - 1, y - 1))
}

/// A pawn on board cell `c` cannot step down.
pub open spec fn down_blocked(wh: u64, c: int) -> bool {
    let x = c % 9;
    let y = c / 9;
    c < 81 && (y == 8 || h_wall(wh, x, y) || h_wall(wh, x - 1, y))
}

/// A pawn on board cell `c` cannot step left.
pub open spec fn left_blocked(wv: u64, c: int) -> bool {
    let x = c % 9;
    let y = c / 9;
    c < 81 && (x == 0 || v_wall(wv, x - 1, y) || v_wall(wv, x - 1, y - 1))
}

/// A pawn on board cell `c` cannot step right.
pub open spec fn right_blocked(wv: u64, c: int) -> bool {
    let x = c % 9;
    let y = c / 9;
    c < 81 && (x == 8 || v_wall(wv, x, y) || v_wall(wv, x, y - 1))
}

/// The spread of a wall set onto the board grid: slot `(x, y)` lands on cell `(x, y)`.
pub open spec fn spread_walls(w: u64) -> u128 {
    ((w as u128) & 0xFF) | ((((w >> 8u64) as u128) & 0xFF) << 9u128) | ((((w >> 16u64) as u128)
        & 0xFF) << 18u128) | ((((w >> 24u64) as u128) & 0xFF) << 27u128) | ((((w >> 32u64) as u128)
        & 0xFF) << 36u128) | ((((w >> 40u64) as u128) & 0xFF) << 45u128) | ((((w >> 48u64)
        as u128) & 0xFF) << 54u128) | ((((w >> 56u64) as u128) & 0xFF) << 63u128)
}

proof fn lemma_spread_bit(w: u64, r: u128, k: u128)
    by (bit_vector)
    requires
        r < 8,
        k < 9,
    ensures
        bit128(spread_walls(w), (9 * r + k) as u128) == (k < 8 && bit64(w, (8 * r + k) as u64)),
{
}

proof fn lemma_spread_high(w: u64, i: u128)
    by (bit_vector)
    requires
        72 <= i < 128,
    ensures
        !bit128(spread_walls(w), i),
{
}

/// Cell `c` of the spread of `w` is set exactly when the slot with the same column and row is.
pub proof fn lemma_spread_cell(w: u64, c: int)
    requires
        0 <= c < 128,
    ensures
        has_cell(spread_walls(w), c) == (c < 81 && wall_at(w, c % 9, c / 9)),
{
    if c < 72 {
        let r = c / 9;
        let k = c % 9;
        lemma_spread_bit(w, r as u128, k as u128);
        assert((9 * r + k) as u128 == c as u128);
        assert((8 * r + k) as u64 == (r * 8 + k) as u64);
    } else {
        lemma_spread_high(w, c as u128);
    }
}

proof fn lemma_edges(c: u128)
    by (bit_vector)
    requires
        c < 128,
    ensures
        bit128(TOP_EDGE, c) == (c < 9),
        bit128(BOTTOM_EDGE, c) == (72 <= c && c < 81),
        bit128(LEFT_EDGE, c) == (c == 0 || c == 9 || c == 18 || c == 27 || c == 36 || c == 45 || c
            == 54 || c == 63 || c == 72),
        bit128(RIGHT_EDGE, c) == (c == 8 || c == 17 || c == 26 || c == 35 || c == 44 || c == 53 || c
            == 62 || c == 71 || c == 80),
{
}

/// The board edges, cell by cell.
pub proof fn lemma_edge_cells(c: int)
    requires
        0 <= c < 128,
    ensures
        has_cell(TOP_EDGE, c) == (c < 9),
        has_cell(BOTTOM_EDGE, c) == (72 <= c < 81),
        has_cell(LEFT_EDGE, c) == (c < 81 && c % 9 == 0),
        has_cell(RIGHT_EDGE, c) == (c < 81 && c % 9 == 8),
{
    lemma_edges(c as u128);
}

/// The four masks of cells from which a step up, down, left or right is blocked, for
/// every cell number of a 128-bit mask.
pub open spec fn blockers_match(wh: u64, wv: u64, up: u128, down: u128, left: u128, right: u128) -> bool {
    forall|c: int|
        #![trigger has_cell(up, c)]
        #![trigger has_cell(down, c)]
        #![trigger has_cell(left, c)]
        #![trigger has_cell(right, c)]
        0 <= c < 128 ==> {
            &&& has_cell(up, c) == up_blocked(wh, c)
            &&& has_cell(down, c) == down_blocked(wh, c)
            &&& has_cell(left, c) == left_blocked(wv, c)
            &&& has_cell(right, c) == right_blocked(wv, c)
        }
}

/// The blocked-step masks of a position, as `get_wall_blockers` computes them
/// (up, down, left, right).
pub open spec fn blocker_masks(wh: u64, wv: u64) -> (u128, u128, u128, u128) {
    let e_h = spread_walls(wh);
    let e_v = spread_walls(wv);
    let block_down_walls = e_h | (e_h << 1u128);
    let block_right_walls = e_v | (e_v << 9u128);
    (
        (block_down_walls << 9u128) | TOP_EDGE,
        block_down_walls | BOTTOM_EDGE,
        (block_right_walls << 1u128) | LEFT_EDGE,
        block_right_walls | RIGHT_EDGE,
    )
}

/// The blocked-step masks mark exactly the blocked steps.
pub proof fn lemma_blocker_masks(wh: u64, wv: u64)
    ensures
        blockers_match(
            wh,
            wv,
            blocker_masks(wh, wv).0,
            blocker_masks(wh, wv).1,
            blocker_masks(wh, wv).2,
            blocker_masks(wh, wv).3,
        ),
{
    let w_h = spread_walls(wh);
    let w_v = spread_walls(wv);
    let block_down_walls = w_h | (w_h << 1u128);
    let block_right_walls = w_v | (w_v << 9u128);
    let block_up = blocker_masks(wh, wv).0;
    let block_down = blocker_masks(wh, wv).1;
    let block_left = blocker_masks(wh, wv).2;
    let block_right = blocker_masks(wh, wv).3;
    assert forall|c: int| 0 <= c < 128 implies #[trigger] has_cell(w_h, c) == (c < 81 && wall_at(wh, c % 9, c / 9)) by {
        lemma_spread_cell(wh, c);
    }
    assert forall|c: int| 0 <= c < 128 implies #[trigger] has_cell(w_v, c) == (c < 81 && wall_at(wv, c % 9, c / 9)) by {
        lemma_spread_cell(wv, c);
    }
        assert forall|c: int|
            #![trigger has_cell(block_up, c)]
            #![trigger has_cell(block_down, c)]
            #![trigger has_cell(block_left, c)]
            #![trigger has_cell(block_right, c)]
            0 <= c < 128 implies {
            &&& has_cell(block_up, c) == up_blocked(wh, c)
            &&& has_cell(block_down, c) == down_blocked(wh, c)
            &&& has_cell(block_left, c) == left_blocked(wv, c)
            &&& has_cell(block_right, c) == right_blocked(wv, c)
        } by {
            lemma_edge_cells(c);
            lemma_cell_ops(block_down_walls, BOTTOM_EDGE, c);
            lemma_cell_ops(block_down_walls << 9u128, TOP_EDGE, c);
            lemma_cell_ops(block_right_walls, RIGHT_EDGE, c);
            lemma_cell_ops(block_right_walls << 1u128, LEFT_EDGE, c);
            lemma_cell_ops(w_h, w_h << 1u128, c);
            lemma_cell_ops(w_v, w_v << 9u128, c);
            lemma_cell_shl(w_h, 1u128, c);
            lemma_cell_shl(w_v, 9u128, c);
            lemma_cell_shl(block_down_walls, 9u128, c);
            lemma_cell_shl(block_right_walls, 1u128, c);
            if c >= 9 {
                lemma_cell_ops(w_h, w_h << 1u128, c - 9);
                lemma_cell_shl(w_h, 1u128, c - 9);
                lemma_cell_ops(w_v, w_v << 9u128, c - 9);
                lemma_cell_shl(w_v, 9u128, c - 9);
            }
            if c >= 1 {
                lemma_cell_ops(w_v, w_v << 9u128, c - 1);
                lemma_cell_shl(w_v, 9u128, c - 1);
            }
        }
}

impl GameState {
    /// Spreads the 8x8 wall grid onto the 9x9 cell grid (slot `(x, y)` to cell `(x, y)`).
    pub fn expand_8x8_to_9x9(walls: u64) -> (res: u128)
        ensures
            res == spread_walls(walls),
            forall|c: int| 0 <= c < 128 ==> #[trigger] has_cell(res, c) == (c < 81 && wall_at(walls, c % 9, c / 9)),
    {
        let mut res = 0u128;
        res = res | (walls as u128 & 0xFF);
        res = res | (((walls >> 8u64) as u128 & 0xFF) << 9u128);
        res = res | (((walls >> 16u64) as u128 & 0xFF) << 18u128);
        res = res | (((walls >> 24u64) as u128 & 0xFF) << 27u128);
        res = res | (((walls >> 32u64) as u128 & 0xFF) << 36u128);
        res = res | (((walls >> 40u64) as u128 & 0xFF) << 45u128);
        res = res | (((walls >> 48u64) as u128 & 0xFF) << 54u128);
        res = res | (((walls >> 56u64) as u128 & 0xFF) << 63u128);
        assert(res == spread_walls(walls)) by (bit_vector)
            requires
                res == 0u128 | ((walls as u128) & 0xFF) | ((((walls >> 8u64) as u128) & 0xFF) << 9u128) | ((((walls >> 16u64) as u128)
        & 0xFF) << 18u128) | ((((walls >> 24u64) as u128) & 0xFF) << 27u128) | ((((walls >> 32u64) as u128)
        & 0xFF) << 36u128) | ((((walls >> 40u64) as u128) & 0xFF) << 45u128) | ((((walls >> 48u64)
        as u128) & 0xFF) << 54u128) | ((((walls >> 56u64) as u128) & 0xFF) << 63u128);
        assert forall|c: int| 0 <= c < 128 implies #[trigger] has_cell(res, c) == (c < 81 && wall_at(walls, c % 9, c / 9)) by {
            lemma_spread_cell(walls, c);
        }
        res
    }

    /// Masks of the cells from which a step up, down, left or right is blocked by
    /// a wall or the board edge.
    pub fn get_wall_blockers(&self) -> (res: (u128, u128, u128, u128))
        ensures
            res == blocker_masks(self.walls_h, self.walls_v),
            blockers_match(self.walls_h, self.walls_v, res.0, res.1, res.2, res.3),
    {
        let w_h = Self::expand_8x8_to_9x9(self.walls_h);
        let w_v = Self::expand_8x8_to_9x9(self.walls_v);

        let block_down_walls = w_h | (w_h << 1u128);
        let block_down = block_down_walls | BOTTOM_EDGE;
        let block_up = (block_down_walls << 9u128) | TOP_EDGE;

        let block_right_walls = w_v | (w_v << 9u128);
        let block_right = block_right_walls | RIGHT_EDGE;
        let block_left = (block_right_walls << 1u128) | LEFT_EDGE;

        proof {
            lemma_blocker_masks(self.walls_h, self.walls_v);
        }
        (block_up, block_down, block_left, block_right)
    }
}

} // verus!
