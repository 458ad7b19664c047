//! The board mirrored top to bottom: row `y` becomes row `8 - y` and the two players
//! trade places, so every path metric of one player becomes the other's.

use vstd::prelude::*;
use crate::bits::{cells_of, has_cell, lemma_cell_ops, lemma_cell_single, lemma_masks_differ};
use crate::board::{
    blocker_masks, blockers_match, down_blocked, lemma_blocker_masks, lemma_edge_cells, left_blocked,
    right_blocked, up_blocked, wall_at,
};
use crate::reach::{
    backtrack, can_step, closure_set, detour, flood_step, goal_cell, goal_mask, goal_within, grown_cell,
    is_shortest_distance, layer_mask, lemma_flood_step, lemma_layer_mask, path_metrics, path_to_goal,
    reachable_within,
};
use vstd::set_lib::{lemma_int_range, lemma_len_subset, lemma_map_size, set_int_range};

verus! {

/// The cell in the same column of the mirrored row.
pub open spec fn flip_cell(c: int) -> int {
    (8 - c / 9) * 9 + c % 9
}

/// The wall set `w2` is `w` mirrored top to bottom: slot row `y` becomes row `7 - y`.
pub open spec fn walls_mirrored(w: u64, w2: u64) -> bool {
    forall|x: int, y: int| 0 <= x < 8 && 0 <= y < 8 ==> #[trigger] wall_at(w, x, y) == wall_at(w2, x, 7 - y)
}

/// Mirroring a board cell gives a board cell, in the same column and the mirrored
/// row, and mirroring twice gives the cell back.
pub proof fn lemma_flip_cell(c: int)
    requires
        0 <= c < 81,
    ensures
        0 <= flip_cell(c) < 81,
        flip_cell(c) % 9 == c % 9,
        flip_cell(c) / 9 == 8 - c / 9,
        flip_cell(flip_cell(c)) == c,
{
    let x = c % 9;
    let y = c / 9;
    assert(c == 9 * y + x && 0 <= x < 9 && 0 <= y < 9);
    let f = (8 - y) * 9 + x;
    assert(f % 9 == x && f / 9 == 8 - y);
}

/// Mirroring is its own inverse on wall sets.
pub proof fn lemma_walls_mirrored_symmetric(w: u64, w2: u64)
    requires
        walls_mirrored(w, w2),
    ensures
        walls_mirrored(w2, w),
{
    assert forall|x: int, y: int| 0 <= x < 8 && 0 <= y < 8 implies #[trigger] wall_at(w2, x, y) == wall_at(w, x, 7 - y) by {
        assert(wall_at(w, x, 7 - y) == wall_at(w2, x, 7 - (7 - y)));
    }
}

/// On a board cell, the blocked directions mirror: up and down trade places, left and
/// right stay.
pub proof fn lemma_flip_blocked(wh: u64, wv: u64, wh2: u64, wv2: u64, c: int)
    requires
        walls_mirrored(wh, wh2),
        walls_mirrored(wv, wv2),
        0 <= c < 81,
    ensures
        up_blocked(wh, c) == down_blocked(wh2, flip_cell(c)),
        down_blocked(wh, c) == up_blocked(wh2, flip_cell(c)),
        left_blocked(wv, c) == left_blocked(wv2, flip_cell(c)),
        right_blocked(wv, c) == right_blocked(wv2, flip_cell(c)),
{
    lemma_flip_cell(c);
    let x = c % 9;
    let y = c / 9;
    assert(wall_at(wh, x, y - 1) == wall_at(wh2, x, 8 - y));
    assert(wall_at(wh, x - 1, y - 1) == wall_at(wh2, x - 1, 8 - y));
    assert(wall_at(wh, x, y) == wall_at(wh2, x, 7 - y));
    assert(wall_at(wh, x - 1, y) == wall_at(wh2, x - 1, 7 - y));
    assert(wall_at(wv, x - 1, y) == wall_at(wv2, x - 1, 7 - y));
    assert(wall_at(wv, x - 1, y - 1) == wall_at(wv2, x - 1, 8 - y));
    assert(wall_at(wv, x, y) == wall_at(wv2, x, 7 - y));
    assert(wall_at(wv, x, y - 1) == wall_at(wv2, x, 8 - y));
}

/// From a board cell, a step leads to a board cell.
pub proof fn lemma_step_on_board(wh: u64, wv: u64, n: int, c: int)
    requires
        0 <= n < 81,
        can_step(wh, wv, n, c),
    ensures
        0 <= c < 81,
{
}

/// A step between board cells is open exactly when the mirrored step is open on the
/// mirrored walls.
pub proof fn lemma_flip_step(wh: u64, wv: u64, wh2: u64, wv2: u64, n: int, c: int)
    requires
        walls_mirrored(wh, wh2),
        walls_mirrored(wv, wv2),
        0 <= n < 81,
        0 <= c < 81,
    ensures
        can_step(wh, wv, n, c) == can_step(wh2, wv2, flip_cell(n), flip_cell(c)),
{
    lemma_flip_blocked(wh, wv, wh2, wv2, n);
    lemma_flip_cell(n);
    lemma_flip_cell(c);
    let xn = n % 9;
    let yn = n / 9;
    let xc = c % 9;
    let yc = c / 9;
    let fnn = flip_cell(n);
    let fc = flip_cell(c);
    assert(n == 9 * yn + xn && c == 9 * yc + xc);
    assert(fnn == 9 * (8 - yn) + xn && fc == 9 * (8 - yc) + xc);
    assert((c == n - 9) == (yc == yn - 1 && xc == xn));
    assert((fc == fnn + 9) == (yc == yn - 1 && xc == xn));
    assert((c == n + 9) == (yc == yn + 1 && xc == xn));
    assert((fc == fnn - 9) == (yc == yn + 1 && xc == xn));
    assert(xn >= 1 ==> (c == n - 1) == (yc == yn && xc == xn - 1));
    assert(xn >= 1 ==> (fc == fnn - 1) == (yc == yn && xc == xn - 1));
    assert(xn <= 7 ==> (c == n + 1) == (yc == yn && xc == xn + 1));
    assert(xn <= 7 ==> (fc == fnn + 1) == (yc == yn && xc == xn + 1));
}

/// What a board cell reaches within `k` steps, its mirror reaches on the mirrored walls.
pub proof fn lemma_flip_within(wh: u64, wv: u64, wh2: u64, wv2: u64, s: int, c: int, k: nat)
    requires
        walls_mirrored(wh, wh2),
        walls_mirrored(wv, wv2),
        0 <= s < 81,
        reachable_within(wh, wv, s, c, k),
    ensures
        0 <= c < 81,
        reachable_within(wh2, wv2, flip_cell(s), flip_cell(c), k),
    decreases k,
{
    lemma_flip_cell(s);
    if k > 0 {
        if reachable_within(wh, wv, s, c, (k - 1) as nat) {
            lemma_flip_within(wh, wv, wh2, wv2, s, c, (k - 1) as nat);
        } else {
            let n = choose|n: int| #[trigger] can_step(wh, wv, n, c) && reachable_within(wh, wv, s, n, (k - 1) as nat);
            lemma_flip_within(wh, wv, wh2, wv2, s, n, (k - 1) as nat);
            lemma_step_on_board(wh, wv, n, c);
            lemma_flip_step(wh, wv, wh2, wv2, n, c);
            assert(can_step(wh2, wv2, flip_cell(n), flip_cell(c)));
        }
    }
}

/// Reachability within `k` steps from a board cell is the same on the mirrored board.
pub proof fn lemma_flip_within_iff(wh: u64, wv: u64, wh2: u64, wv2: u64, s: int, c: int, k: nat)
    requires
        walls_mirrored(wh, wh2),
        walls_mirrored(wv, wv2),
        0 <= s < 81,
        0 <= c < 81,
    ensures
        reachable_within(wh, wv, s, c, k) == reachable_within(wh2, wv2, flip_cell(s), flip_cell(c), k),
{
    lemma_flip_cell(s);
    lemma_flip_cell(c);
    if reachable_within(wh, wv, s, c, k) {
        lemma_flip_within(wh, wv, wh2, wv2, s, c, k);
    }
    if reachable_within(wh2, wv2, flip_cell(s), flip_cell(c), k) {
        lemma_walls_mirrored_symmetric(wh, wh2);
        lemma_walls_mirrored_symmetric(wv, wv2);
        lemma_flip_within(wh2, wv2, wh, wv, flip_cell(s), flip_cell(c), k);
    }
}

/// The mask holds board cells only.
pub open spec fn board_only(m: u128) -> bool {
    forall|c: int| #[trigger] has_cell(m, c) ==> c < 81
}

/// The mask `m2` holds the board cells of `m`, mirrored top to bottom, and nothing else.
pub open spec fn masks_mirrored(m: u128, m2: u128) -> bool {
    forall|c: int| 0 <= c < 128 ==> #[trigger] has_cell(m2, c) == (c < 81 && has_cell(m, flip_cell(c)))
}

/// A mirrored mask holds board cells only, and mirroring a board mask back gives it.
pub proof fn lemma_mirrored_symmetric(m: u128, m2: u128)
    requires
        masks_mirrored(m, m2),
        board_only(m),
    ensures
        board_only(m2),
        masks_mirrored(m2, m),
{
    assert forall|c: int| #[trigger] has_cell(m2, c) implies c < 81 by {
    }
    assert forall|c: int| 0 <= c < 128 implies #[trigger] has_cell(m, c) == (c < 81 && has_cell(m2, flip_cell(c))) by {
        if c < 81 {
            lemma_flip_cell(c);
            assert(has_cell(m2, flip_cell(c)) == has_cell(m, flip_cell(flip_cell(c))));
        }
    }
}

/// Mirroring commutes with intersection, and with removing the cells of a mask.
pub proof fn lemma_mirrored_and(a: u128, a2: u128, b: u128, b2: u128)
    requires
        masks_mirrored(a, a2),
        masks_mirrored(b, b2),
    ensures
        masks_mirrored(a & b, a2 & b2),
        masks_mirrored(a & !b, a2 & !b2),
        board_only(a) ==> board_only(a & b) && board_only(a & !b),
{
    if board_only(a) {
        assert forall|c: int| #[trigger] has_cell(a & b, c) implies c < 81 by {
            lemma_cell_ops(a, b, c);
        }
        assert forall|c: int| #[trigger] has_cell(a & !b, c) implies c < 81 by {
            lemma_cell_ops(a, !b, c);
        }
    }
    assert forall|c: int| 0 <= c < 128 implies #[trigger] has_cell(a2 & b2, c) == (c < 81 && has_cell(a & b, flip_cell(c)))
        && has_cell(a2 & !b2, c) == (c < 81 && has_cell(a & !b, flip_cell(c))) by {
        lemma_cell_ops(a2, b2, c);
        lemma_cell_ops(a2, !b2, c);
        lemma_cell_ops(b2, a2, c);
        if c < 81 {
            lemma_flip_cell(c);
            lemma_cell_ops(a, b, flip_cell(c));
            lemma_cell_ops(a, !b, flip_cell(c));
            lemma_cell_ops(b, a, flip_cell(c));
        }
    }
    assert forall|c: int| 0 <= c < 128 implies #[trigger] has_cell(a2 & !b2, c) == (c < 81 && has_cell(a & !b, flip_cell(c))) by {
        assert(has_cell(a2 & b2, c) == (c < 81 && has_cell(a & b, flip_cell(c))));
    }
}

/// Two board masks are equal exactly when their mirrors are.
pub proof fn lemma_mirrored_eq(a: u128, a2: u128, b: u128, b2: u128)
    requires
        masks_mirrored(a, a2),
        masks_mirrored(b, b2),
        board_only(a),
        board_only(b),
    ensures
        (a == b) == (a2 == b2),
{
    lemma_mirrored_symmetric(a, a2);
    lemma_mirrored_symmetric(b, b2);
    if a != b {
        let c = lemma_masks_differ(a, b);
        lemma_flip_cell(c);
        assert(has_cell(a2, flip_cell(c)) != has_cell(b2, flip_cell(c)));
    }
    if a2 != b2 {
        let c = lemma_masks_differ(a2, b2);
        lemma_flip_cell(c);
        assert(has_cell(a, flip_cell(c)) != has_cell(b, flip_cell(c)));
    }
}

/// A board mask is empty exactly when its mirror is.
pub proof fn lemma_mirrored_zero(a: u128, a2: u128)
    requires
        masks_mirrored(a, a2),
        board_only(a),
    ensures
        (a == 0) == (a2 == 0),
{
    assert(masks_mirrored(0u128, 0u128)) by {
        assert forall|c: int| 0 <= c < 128 implies #[trigger] has_cell(0u128, c) == (c < 81 && has_cell(0u128, flip_cell(c))) by {
            lemma_cell_ops(0, 0, c);
            if c < 81 {
                lemma_flip_cell(c);
                lemma_cell_ops(0, 0, flip_cell(c));
            }
        }
    }
    assert(board_only(0u128)) by {
        assert forall|c: int| #[trigger] has_cell(0u128, c) implies c < 81 by {
            lemma_cell_ops(0, 0, c);
        }
    }
    lemma_mirrored_eq(a, a2, 0u128, 0u128);
}

/// A mirrored board mask holds as many cells.
pub proof fn lemma_mirrored_count(a: u128, a2: u128)
    requires
        masks_mirrored(a, a2),
        board_only(a),
    ensures
        cells_of(a).len() == cells_of(a2).len(),
{
    let f = |c: int| flip_cell(c);
    assert(cells_of(a).subset_of(set_int_range(0, 128)));
    lemma_int_range(0, 128);
    lemma_len_subset(cells_of(a), set_int_range(0, 128));
    assert forall|x: int, y: int| cells_of(a).contains(x) && cells_of(a).contains(y) && #[trigger] f(x) == #[trigger] f(y) implies x == y by {
        lemma_flip_cell(x);
        lemma_flip_cell(y);
    }
    assert(vstd::relations::injective_on(f, cells_of(a)));
    assert forall|c: int| #[trigger] cells_of(a2).contains(c) <==> cells_of(a).map(f).contains(c) by {
        if cells_of(a2).contains(c) {
            lemma_flip_cell(c);
            assert(cells_of(a).contains(flip_cell(c)) && f(flip_cell(c)) == c);
        }
        if cells_of(a).map(f).contains(c) {
            let x = choose|x: int| cells_of(a).contains(x) && f(x) == c;
            lemma_flip_cell(x);
            assert(has_cell(a2, c));
        }
    }
    assert(cells_of(a).map(f) =~= cells_of(a2));
    lemma_map_size(cells_of(a), cells_of(a2), f);
}

/// The blocked-step masks of mirrored walls are the mirrored masks, with up and down
/// traded.
pub proof fn lemma_mirrored_blockers(wh: u64, wv: u64, wh2: u64, wv2: u64)
    requires
        walls_mirrored(wh, wh2),
        walls_mirrored(wv, wv2),
    ensures
        masks_mirrored(blocker_masks(wh, wv).0, blocker_masks(wh2, wv2).1),
        masks_mirrored(blocker_masks(wh, wv).1, blocker_masks(wh2, wv2).0),
        masks_mirrored(blocker_masks(wh, wv).2, blocker_masks(wh2, wv2).2),
        masks_mirrored(blocker_masks(wh, wv).3, blocker_masks(wh2, wv2).3),
{
    let b = blocker_masks(wh, wv);
    let b2 = blocker_masks(wh2, wv2);
    lemma_blocker_masks(wh, wv);
    lemma_blocker_masks(wh2, wv2);
    assert forall|c: int| 0 <= c < 128 implies {
        &&& #[trigger] has_cell(b2.1, c) == (c < 81 && has_cell(b.0, flip_cell(c)))
        &&& has_cell(b2.0, c) == (c < 81 && has_cell(b.1, flip_cell(c)))
        &&& has_cell(b2.2, c) == (c < 81 && has_cell(b.2, flip_cell(c)))
        &&& has_cell(b2.3, c) == (c < 81 && has_cell(b.3, flip_cell(c)))
    } by {
        assert(has_cell(b2.0, c) == up_blocked(wh2, c));
        assert(has_cell(b2.1, c) == down_blocked(wh2, c));
        assert(has_cell(b2.2, c) == left_blocked(wv2, c));
        assert(has_cell(b2.3, c) == right_blocked(wv2, c));
        if c < 81 {
            lemma_flip_cell(c);
            lemma_flip_blocked(wh, wv, wh2, wv2, flip_cell(c));
            assert(has_cell(b.0, flip_cell(c)) == up_blocked(wh, flip_cell(c)));
            assert(has_cell(b.1, flip_cell(c)) == down_blocked(wh, flip_cell(c)));
            assert(has_cell(b.2, flip_cell(c)) == left_blocked(wv, flip_cell(c)));
            assert(has_cell(b.3, flip_cell(c)) == right_blocked(wv, flip_cell(c)));
        }
    }
    assert forall|c: int| 0 <= c < 128 implies #[trigger] has_cell(b2.0, c) == (c < 81 && has_cell(b.1, flip_cell(c))) by {
        assert(has_cell(b2.1, c) == (c < 81 && has_cell(b.0, flip_cell(c))));
    }
    assert forall|c: int| 0 <= c < 128 implies #[trigger] has_cell(b2.2, c) == (c < 81 && has_cell(b.2, flip_cell(c))) by {
        assert(has_cell(b2.1, c) == (c < 81 && has_cell(b.0, flip_cell(c))));
    }
    assert forall|c: int| 0 <= c < 128 implies #[trigger] has_cell(b2.3, c) == (c < 81 && has_cell(b.3, flip_cell(c))) by {
        assert(has_cell(b2.1, c) == (c < 81 && has_cell(b.0, flip_cell(c))));
    }
}

/// One flood-fill step commutes with mirroring, and keeps a board mask on the board.
pub proof fn lemma_mirrored_flood(wh: u64, wv: u64, wh2: u64, wv2: u64, r: u128, r2: u128)
    requires
        walls_mirrored(wh, wh2),
        walls_mirrored(wv, wv2),
        masks_mirrored(r, r2),
        board_only(r),
    ensures
        masks_mirrored(
            flood_step(r, blocker_masks(wh, wv).0, blocker_masks(wh, wv).1, blocker_masks(wh, wv).2, blocker_masks(wh, wv).3),
            flood_step(r2, blocker_masks(wh2, wv2).0, blocker_masks(wh2, wv2).1, blocker_masks(wh2, wv2).2, blocker_masks(wh2, wv2).3),
        ),
        board_only(flood_step(r, blocker_masks(wh, wv).0, blocker_masks(wh, wv).1, blocker_masks(wh, wv).2, blocker_masks(wh, wv).3)),
{
    let b = blocker_masks(wh, wv);
    let b2 = blocker_masks(wh2, wv2);
    let f1 = flood_step(r, b.0, b.1, b.2, b.3);
    let f2 = flood_step(r2, b2.0, b2.1, b2.2, b2.3);
    lemma_blocker_masks(wh, wv);
    lemma_blocker_masks(wh2, wv2);
    lemma_flood_step(wh, wv, r, b.0, b.1, b.2, b.3);
    lemma_flood_step(wh2, wv2, r2, b2.0, b2.1, b2.2, b2.3);
    assert forall|c: int| #[trigger] has_cell(f1, c) implies c < 81 by {
        assert(grown_cell(wh, wv, r, c));
        if !has_cell(r, c) {
            let n = choose|n: int| #[trigger] can_step(wh, wv, n, c) && has_cell(r, n);
            lemma_step_on_board(wh, wv, n, c);
        }
    }
    assert forall|c: int| 0 <= c < 128 implies #[trigger] has_cell(f2, c) == (c < 81 && has_cell(f1, flip_cell(c))) by {
        if grown_cell(wh2, wv2, r2, c) {
            if has_cell(r2, c) {
                lemma_flip_cell(c);
                assert(grown_cell(wh, wv, r, flip_cell(c)));
            } else {
                let n = choose|n: int| #[trigger] can_step(wh2, wv2, n, c) && has_cell(r2, n);
                lemma_flip_cell(n);
                lemma_step_on_board(wh2, wv2, n, c);
                lemma_flip_cell(c);
                lemma_flip_step(wh, wv, wh2, wv2, flip_cell(n), flip_cell(c));
                assert(can_step(wh, wv, flip_cell(n), flip_cell(c)) && has_cell(r, flip_cell(n)));
                assert(grown_cell(wh, wv, r, flip_cell(c)));
            }
        }
        if c < 81 && has_cell(f1, flip_cell(c)) {
            lemma_flip_cell(c);
            assert(grown_cell(wh, wv, r, flip_cell(c)));
            if !has_cell(r, flip_cell(c)) {
                let n = choose|n: int| #[trigger] can_step(wh, wv, n, flip_cell(c)) && has_cell(r, n);
                lemma_flip_cell(n);
                lemma_flip_step(wh, wv, wh2, wv2, n, flip_cell(c));
                assert(has_cell(r2, flip_cell(n)));
                assert(can_step(wh2, wv2, flip_cell(n), c) && has_cell(r2, flip_cell(n)));
            }
            assert(grown_cell(wh2, wv2, r2, c));
        }
    }
}

/// The mask of a single board cell mirrors to the mask of the mirrored cell.
pub proof fn lemma_mirrored_single(s: int)
    requires
        0 <= s < 81,
    ensures
        masks_mirrored(1u128 << (s as u128), 1u128 << (flip_cell(s) as u128)),
        board_only(1u128 << (s as u128)),
{
    lemma_flip_cell(s);
    assert forall|c: int| #[trigger] has_cell(1u128 << (s as u128), c) implies c < 81 by {
        lemma_cell_single(s as u128, c);
    }
    assert forall|c: int| 0 <= c < 128 implies #[trigger] has_cell(1u128 << (flip_cell(s) as u128), c) == (c < 81
        && has_cell(1u128 << (s as u128), flip_cell(c))) by {
        lemma_cell_single(flip_cell(s) as u128, c);
        if c < 81 {
            lemma_flip_cell(c);
            lemma_cell_single(s as u128, flip_cell(c));
        }
    }
}

/// The flood-fill layers from a board cell mirror to the layers from the mirrored cell
/// on the mirrored walls.
pub proof fn lemma_mirrored_layers(wh: u64, wv: u64, wh2: u64, wv2: u64, s: int, k: nat)
    requires
        walls_mirrored(wh, wh2),
        walls_mirrored(wv, wv2),
        0 <= s < 81,
    ensures
        masks_mirrored(layer_mask(wh, wv, s, k), layer_mask(wh2, wv2, flip_cell(s), k)),
        board_only(layer_mask(wh, wv, s, k)),
{
    lemma_flip_cell(s);
    let l1 = layer_mask(wh, wv, s, k);
    let l2 = layer_mask(wh2, wv2, flip_cell(s), k);
    lemma_layer_mask(wh, wv, s, k);
    lemma_layer_mask(wh2, wv2, flip_cell(s), k);
    lemma_walls_mirrored_symmetric(wh, wh2);
    lemma_walls_mirrored_symmetric(wv, wv2);
    assert forall|c: int| #[trigger] has_cell(l1, c) implies c < 81 by {
        lemma_flip_within(wh, wv, wh2, wv2, s, c, k);
    }
    assert forall|c: int| 0 <= c < 128 implies #[trigger] has_cell(l2, c) == (c < 81 && has_cell(l1, flip_cell(c))) by {
        if reachable_within(wh2, wv2, flip_cell(s), c, k) {
            lemma_flip_within(wh2, wv2, wh, wv, flip_cell(s), c, k);
        }
        if c < 81 {
            lemma_flip_cell(c);
            lemma_flip_within_iff(wh, wv, wh2, wv2, s, flip_cell(c), k);
        }
    }
}

/// The goal rows mirror to each other.
pub proof fn lemma_mirrored_goals()
    ensures
        masks_mirrored(goal_mask(0), goal_mask(1)),
        masks_mirrored(goal_mask(1), goal_mask(0)),
        board_only(goal_mask(0)),
        board_only(goal_mask(1)),
{
    assert forall|c: int| 0 <= c < 128 implies #[trigger] has_cell(goal_mask(1), c) == (c < 81 && has_cell(goal_mask(0), flip_cell(c)))
        && has_cell(goal_mask(0), c) == (c < 81 && has_cell(goal_mask(1), flip_cell(c))) by {
        lemma_edge_cells(c);
        if c < 81 {
            lemma_flip_cell(c);
            lemma_edge_cells(flip_cell(c));
        }
    }
    assert forall|c: int| 0 <= c < 128 implies #[trigger] has_cell(goal_mask(0), c) == (c < 81 && has_cell(goal_mask(1), flip_cell(c))) by {
        assert(has_cell(goal_mask(1), c) == (c < 81 && has_cell(goal_mask(0), flip_cell(c))));
    }
    assert forall|c: int| #[trigger] has_cell(goal_mask(0), c) implies c < 81 by {
        lemma_edge_cells(c);
    }
    assert forall|c: int| #[trigger] has_cell(goal_mask(1), c) implies c < 81 by {
        lemma_edge_cells(c);
    }
}

/// The detour search runs the same on the mirrored board.
pub proof fn lemma_mirrored_detour(
    wh: u64,
    wv: u64,
    wh2: u64,
    wv2: u64,
    target: u128,
    target2: u128,
    blocked: u128,
    blocked2: u128,
    fuel: nat,
    reach: u128,
    reach2: u128,
    dist: int,
)
    requires
        walls_mirrored(wh, wh2),
        walls_mirrored(wv, wv2),
        masks_mirrored(target, target2),
        masks_mirrored(blocked, blocked2),
        masks_mirrored(reach, reach2),
        board_only(reach),
    ensures
        detour(wh, wv, target, blocked, fuel, reach, dist) == detour(wh2, wv2, target2, blocked2, fuel, reach2, dist),
    decreases fuel,
{
    if fuel > 0 {
        lemma_mirrored_and(reach, reach2, target, target2);
        lemma_mirrored_zero(reach & target, reach2 & target2);
        let b = blocker_masks(wh, wv);
        let b2 = blocker_masks(wh2, wv2);
        lemma_mirrored_flood(wh, wv, wh2, wv2, reach, reach2);
        let f1 = flood_step(reach, b.0, b.1, b.2, b.3);
        let f2 = flood_step(reach2, b2.0, b2.1, b2.2, b2.3);
        lemma_mirrored_and(f1, f2, blocked, blocked2);
        lemma_mirrored_eq(f1 & !blocked, f2 & !blocked2, reach, reach2);
        lemma_mirrored_detour(wh, wv, wh2, wv2, target, target2, blocked, blocked2, (fuel - 1) as nat, f1 & !blocked, f2 & !blocked2, dist + 1);
    }
}

/// Walking the shortest paths back runs the same on the mirrored board: every layer
/// mirrors, up and down trade places, and the detour searches agree.
pub proof fn lemma_mirrored_backtrack(
    wh: u64,
    wv: u64,
    wh2: u64,
    wv2: u64,
    s: int,
    target: u128,
    target2: u128,
    dist: int,
    d: int,
    pm: u128,
    pm2: u128,
    max_delta: int,
    tunnels: int,
    immune: bool,
)
    requires
        walls_mirrored(wh, wh2),
        walls_mirrored(wv, wv2),
        0 <= s < 81,
        masks_mirrored(target, target2),
        masks_mirrored(pm, pm2),
        board_only(pm),
    ensures
        backtrack(wh, wv, s, target, dist, d, pm, max_delta, tunnels, immune) == backtrack(
            wh2,
            wv2,
            flip_cell(s),
            target2,
            dist,
            d,
            pm2,
            max_delta,
            tunnels,
            immune,
        ),
    decreases d + 1,
{
    if d >= 0 {
        let b = blocker_masks(wh, wv);
        let b2 = blocker_masks(wh2, wv2);
        lemma_mirrored_flood(wh, wv, wh2, wv2, pm, pm2);
        let f1 = flood_step(pm, b.0, b.1, b.2, b.3);
        let f2 = flood_step(pm2, b2.0, b2.1, b2.2, b2.3);
        lemma_mirrored_layers(wh, wv, wh2, wv2, s, d as nat);
        let l1 = layer_mask(wh, wv, s, d as nat);
        let l2 = layer_mask(wh2, wv2, flip_cell(s), d as nat);
        lemma_mirrored_and(f1, f2, l1, l2);
        let q1 = f1 & l1;
        let q2 = f2 & l2;
        lemma_mirrored_blockers(wh, wv, wh2, wv2);
        lemma_mirrored_and(q1, q2, b.0, b2.1);
        lemma_mirrored_and(q1, q2, b.1, b2.0);
        lemma_mirrored_and(q1, q2, b.2, b2.2);
        lemma_mirrored_and(q1, q2, b.3, b2.3);
        lemma_mirrored_zero(q1 & !b.0, q2 & !b2.1);
        lemma_mirrored_zero(q1 & !b.1, q2 & !b2.0);
        lemma_mirrored_zero(q1 & !b.2, q2 & !b2.2);
        lemma_mirrored_zero(q1 & !b.3, q2 & !b2.3);
        lemma_mirrored_count(q1, q2);
        lemma_mirrored_single(s);
        lemma_mirrored_detour(wh, wv, wh2, wv2, target, target2, q1, q2, 100, 1u128 << (s as u128), 1u128 << (flip_cell(s) as u128), 0);
        let b_ = backtrack(wh, wv, s, target, dist, d, pm, max_delta, tunnels, immune);
        let walled_left = (q1 & !b.2) == 0;
        let walled_right = (q1 & !b.3) == 0;
        let walled_up = (q1 & !b.0) == 0;
        let walled_down = (q1 & !b.1) == 0;
        let tunnels2 = if (walled_left && walled_right) || (walled_up && walled_down) {
            tunnels + 1
        } else {
            tunnels
        };
        let check = cells_of(q1).len() <= 2 && !immune;
        let det = detour(wh, wv, target, q1, 100, 1u128 << (s as u128), 0);
        let immune2 = if check && !det.0 {
            true
        } else {
            immune
        };
        let max_delta2 = if check && det.0 && det.1 - dist > max_delta {
            det.1 - dist
        } else {
            max_delta
        };
        lemma_mirrored_backtrack(wh, wv, wh2, wv2, s, target, target2, dist, d - 1, q1, q2, max_delta2, tunnels2, immune2);
    }
}

/// The goal rows trade places under mirroring.
proof fn lemma_flip_goal(player: int, c: int)
    requires
        0 <= player < 2,
        0 <= c < 81,
    ensures
        goal_cell(player, c) == goal_cell(1 - player, flip_cell(c)),
{
    lemma_flip_cell(c);
}

/// A goal cell is reachable within `j` steps exactly when the other player's goal cell
/// is reachable within `j` steps from the mirrored cell on the mirrored walls.
proof fn lemma_flip_goal_within(wh: u64, wv: u64, wh2: u64, wv2: u64, s: int, player: int, j: nat)
    requires
        walls_mirrored(wh, wh2),
        walls_mirrored(wv, wv2),
        0 <= s < 81,
        0 <= player < 2,
    ensures
        goal_within(wh, wv, s, player, j) == goal_within(wh2, wv2, flip_cell(s), 1 - player, j),
{
    lemma_flip_cell(s);
    if goal_within(wh, wv, s, player, j) {
        let c = choose|c: int| goal_cell(player, c) && #[trigger] reachable_within(wh, wv, s, c, j);
        lemma_flip_within(wh, wv, wh2, wv2, s, c, j);
        lemma_flip_goal(player, c);
        assert(goal_cell(1 - player, flip_cell(c)) && reachable_within(wh2, wv2, flip_cell(s), flip_cell(c), j));
    }
    if goal_within(wh2, wv2, flip_cell(s), 1 - player, j) {
        let c = choose|c: int| goal_cell(1 - player, c) && #[trigger] reachable_within(wh2, wv2, flip_cell(s), c, j);
        lemma_walls_mirrored_symmetric(wh, wh2);
        lemma_walls_mirrored_symmetric(wv, wv2);
        lemma_flip_within(wh2, wv2, wh, wv, flip_cell(s), c, j);
        lemma_flip_goal(1 - player, c);
        assert(goal_cell(player, flip_cell(c)) && reachable_within(wh, wv, s, flip_cell(c), j));
    }
}

/// The reachable area of a board cell equals that of its mirror on the mirrored walls.
proof fn lemma_mirrored_closure(wh: u64, wv: u64, wh2: u64, wv2: u64, s: int)
    requires
        walls_mirrored(wh, wh2),
        walls_mirrored(wv, wv2),
        0 <= s < 81,
    ensures
        closure_set(wh, wv, s).len() == closure_set(wh2, wv2, flip_cell(s)).len(),
{
    lemma_flip_cell(s);
    lemma_walls_mirrored_symmetric(wh, wh2);
    lemma_walls_mirrored_symmetric(wv, wv2);
    let x = closure_set(wh, wv, s);
    let y = closure_set(wh2, wv2, flip_cell(s));
    let f = |c: int| flip_cell(c);
    assert forall|c: int| x.contains(c) implies set_int_range(0, 128).contains(c) by {
        let k = choose|k: nat| #[trigger] reachable_within(wh, wv, s, c, k);
        lemma_flip_within(wh, wv, wh2, wv2, s, c, k);
    }
    lemma_int_range(0, 128);
    lemma_len_subset(x, set_int_range(0, 128));
    assert forall|a: int, b: int| x.contains(a) && x.contains(b) && #[trigger] f(a) == #[trigger] f(b) implies a == b by {
        let ka = choose|k: nat| #[trigger] reachable_within(wh, wv, s, a, k);
        let kb = choose|k: nat| #[trigger] reachable_within(wh, wv, s, b, k);
        lemma_flip_within(wh, wv, wh2, wv2, s, a, ka);
        lemma_flip_within(wh, wv, wh2, wv2, s, b, kb);
        lemma_flip_cell(a);
        lemma_flip_cell(b);
    }
    assert(vstd::relations::injective_on(f, x));
    assert forall|c: int| #[trigger] y.contains(c) <==> x.map(f).contains(c) by {
        if y.contains(c) {
            let k = choose|k: nat| #[trigger] reachable_within(wh2, wv2, flip_cell(s), c, k);
            lemma_flip_within(wh2, wv2, wh, wv, flip_cell(s), c, k);
            lemma_flip_cell(c);
            assert(reachable_within(wh, wv, s, flip_cell(c), k));
            assert(x.contains(flip_cell(c)) && f(flip_cell(c)) == c);
        }
        if x.map(f).contains(c) {
            let a = choose|a: int| x.contains(a) && f(a) == c;
            let k = choose|k: nat| #[trigger] reachable_within(wh, wv, s, a, k);
            lemma_flip_within(wh, wv, wh2, wv2, s, a, k);
            assert(reachable_within(wh2, wv2, flip_cell(s), c, k));
        }
    }
    assert(x.map(f) =~= y);
    lemma_map_size(x, y, f);
}

/// The path metrics of a board cell for one player equal those of the mirrored cell
/// for the other player on the mirrored walls.
pub proof fn lemma_metrics_mirrored(
    wh: u64,
    wv: u64,
    wh2: u64,
    wv2: u64,
    s: int,
    player: int,
    a: (i32, u32, i32, u32, bool),
    b: (i32, u32, i32, u32, bool),
)
    requires
        walls_mirrored(wh, wh2),
        walls_mirrored(wv, wv2),
        0 <= s < 81,
        0 <= player < 2,
        path_metrics(wh, wv, s, player, a),
        path_metrics(wh2, wv2, flip_cell(s), 1 - player, b),
    ensures
        a == b,
{
    lemma_flip_cell(s);
    assert forall|j: nat| #[trigger] goal_within(wh, wv, s, player, j) == goal_within(wh2, wv2, flip_cell(s), 1 - player, j) by {
        lemma_flip_goal_within(wh, wv, wh2, wv2, s, player, j);
    }
    if path_to_goal(wh, wv, s, player) {
        let (c, k) = choose|c: int, k: nat| goal_cell(player, c) && #[trigger] reachable_within(wh, wv, s, c, k);
        assert(goal_within(wh, wv, s, player, k));
        assert(goal_within(wh2, wv2, flip_cell(s), 1 - player, k));
    }
    if path_to_goal(wh2, wv2, flip_cell(s), 1 - player) {
        let (c, k) = choose|c: int, k: nat| goal_cell(1 - player, c) && #[trigger] reachable_within(wh2, wv2, flip_cell(s), c, k);
        assert(goal_within(wh2, wv2, flip_cell(s), 1 - player, k));
        assert(goal_within(wh, wv, s, player, k));
    }
    if path_to_goal(wh, wv, s, player) {
        let da = a.0 as nat;
        let db = b.0 as nat;
        if da < db {
            assert(goal_within(wh, wv, s, player, da));
            assert(!goal_within(wh2, wv2, flip_cell(s), 1 - player, da));
        }
        if db < da {
            assert(goal_within(wh2, wv2, flip_cell(s), 1 - player, db));
            assert(!goal_within(wh, wv, s, player, db));
        }
        assert(a.0 == b.0);
        lemma_mirrored_closure(wh, wv, wh2, wv2, s);
        let d = a.0 as int;
        lemma_mirrored_layers(wh, wv, wh2, wv2, s, d as nat);
        lemma_mirrored_goals();
        let g = goal_mask(player);
        let g2 = goal_mask(1 - player);
        assert(masks_mirrored(g, g2));
        lemma_mirrored_and(layer_mask(wh, wv, s, d as nat), layer_mask(wh2, wv2, flip_cell(s), d as nat), g, g2);
        lemma_mirrored_backtrack(
            wh,
            wv,
            wh2,
            wv2,
            s,
            g,
            g2,
            d,
            d - 1,
            layer_mask(wh, wv, s, d as nat) & g,
            layer_mask(wh2, wv2, flip_cell(s), d as nat) & g2,
            0,
            0,
            false,
        );
    }
}

/// Mirroring the board top to bottom and letting the players trade places swaps their
/// path metrics: given what `get_distances` returns for a position (pawns on `p0`,
/// `p1`) and for its mirror (pawns on the mirrored cells of `p1`, `p0`, walls
/// mirrored), each player's distance, reachable area, detour cost, tunnel count and
/// immunity in the mirror are the other player's in the position.
pub proof fn lemma_distances_mirrored(
    wh: u64,
    wv: u64,
    wh2: u64,
    wv2: u64,
    p0: int,
    p1: int,
    r: (i32, u32, i32, u32, bool, i32, u32, i32, u32, bool),
    r2: (i32, u32, i32, u32, bool, i32, u32, i32, u32, bool),
)
    requires
        walls_mirrored(wh, wh2),
        walls_mirrored(wv, wv2),
        0 <= p0 < 81,
        0 <= p1 < 81,
        path_metrics(wh, wv, p0, 0, (r.0, r.1, r.2, r.3, r.4)),
        path_metrics(wh, wv, p1, 1, (r.5, r.6, r.7, r.8, r.9)),
        path_metrics(wh2, wv2, flip_cell(p1), 0, (r2.0, r2.1, r2.2, r2.3, r2.4)),
        path_metrics(wh2, wv2, flip_cell(p0), 1, (r2.5, r2.6, r2.7, r2.8, r2.9)),
    ensures
        r2 == (r.5, r.6, r.7, r.8, r.9, r.0, r.1, r.2, r.3, r.4),
{
    lemma_metrics_mirrored(wh, wv, wh2, wv2, p0, 0, (r.0, r.1, r.2, r.3, r.4), (r2.5, r2.6, r2.7, r2.8, r2.9));
    lemma_metrics_mirrored(wh, wv, wh2, wv2, p1, 1, (r.5, r.6, r.7, r.8, r.9), (r2.0, r2.1, r2.2, r2.3, r2.4));
}

} // verus!
