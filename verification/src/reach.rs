//! Reachability on the wall graph: bit-parallel flood fill and its meaning cell by cell.

use vstd::prelude::*;
use crate::bits::{
    bit128, cells_of, count_cells, has_cell, lemma_and_nonzero128, lemma_cell_ops, lemma_cell_shl,
    lemma_cell_shr, lemma_cell_single, lemma_masks_differ,
};
use vstd::set_lib::{lemma_int_range, lemma_len_subset, set_int_range};
use crate::board::{
    blocker_masks, blockers_match, down_blocked, lemma_blocker_masks, left_blocked, right_blocked, up_blocked, lemma_edge_cells,
    BOTTOM_EDGE, TOP_EDGE,
};
use crate::state::GameState;

verus! {

/// A pawn may step from cell `from` to the neighbouring cell `to`: both are cell
/// numbers of a 128-bit mask, they are adjacent, and no wall or board edge lies
/// between them. From a board cell (below 81) only board cells can be reached; the
/// numbers 81 to 127, past the board, are joined by unblocked steps.
pub open spec fn can_step(wh: u64, wv: u64, from: int, to: int) -> bool {
    &&& 0 <= from < 128
    &&& 0 <= to < 128
    &&& {
        ||| (to == from - 9 && !up_blocked(wh, from))
        ||| (to == from + 9 && !down_blocked(wh, from))
        ||| (to == from - 1 && !left_blocked(wv, from))
        ||| (to == from + 1 && !right_blocked(wv, from))
    }
}

/// Cell `c` can be reached from cell `s` in at most `k` steps.
pub open spec fn reachable_within(wh: u64, wv: u64, s: int, c: int, k: nat) -> bool
    decreases k,
{
    if k == 0 {
        0 <= s < 128 && c == s
    } else {
        ||| reachable_within(wh, wv, s, c, (k - 1) as nat)
        ||| exists|n: int|
            #[trigger] can_step(wh, wv, n, c) && reachable_within(wh, wv, s, n, (k - 1) as nat)
    }
}

/// Cell `c` lies on the goal row of `player` (row 8 for player 0, row 0 for player 1).
pub open spec fn goal_cell(player: int, c: int) -> bool {
    if player == 0 {
        72 <= c < 81
    } else {
        0 <= c < 9
    }
}

/// Some path of steps leads from cell `s` to the goal row of `player`.
pub open spec fn path_to_goal(wh: u64, wv: u64, s: int, player: int) -> bool {
    exists|c: int, k: nat| goal_cell(player, c) && #[trigger] reachable_within(wh, wv, s, c, k)
}

/// The goal-row mask of a player.
pub open spec fn goal_mask(player: int) -> u128 {
    if player == 0 {
        BOTTOM_EDGE
    } else {
        TOP_EDGE
    }
}

/// One flood-fill step: every cell of `r` plus every cell one unblocked step away.
pub open spec fn flood_step(r: u128, up: u128, down: u128, left: u128, right: u128) -> u128 {
    r | ((r & !up) >> 9u128) | ((r & !down) << 9u128) | ((r & !left) >> 1u128) | ((r & !right)
        << 1u128)
}

/// Cell `c` is in `r` or one step away from a cell of `r`.
pub open spec fn grown_cell(wh: u64, wv: u64, r: u128, c: int) -> bool {
    has_cell(r, c) || exists|n: int| #[trigger] can_step(wh, wv, n, c) && has_cell(r, n)
}

/// What one flood-fill step computes, cell by cell.
pub proof fn lemma_flood_step(
    wh: u64,
    wv: u64,
    r: u128,
    up: u128,
    down: u128,
    left: u128,
    right: u128,
)
    requires
        blockers_match(wh, wv, up, down, left, right),
    ensures
        forall|c: int|
            0 <= c < 128 ==> #[trigger] has_cell(flood_step(r, up, down, left, right), c)
                == grown_cell(wh, wv, r, c),
{
    let a = (r & !up) >> 9u128;
    let b = (r & !down) << 9u128;
    let l = (r & !left) >> 1u128;
    let rr = (r & !right) << 1u128;
    let next = flood_step(r, up, down, left, right);
    assert forall|c: int| 0 <= c < 128 implies #[trigger] has_cell(next, c) == {
        ||| has_cell(r, c)
        ||| (c + 9 < 128 && has_cell(r, c + 9) && !has_cell(up, c + 9))
        ||| (c >= 9 && has_cell(r, c - 9) && !has_cell(down, c - 9))
        ||| (c + 1 < 128 && has_cell(r, c + 1) && !has_cell(left, c + 1))
        ||| (c >= 1 && has_cell(r, c - 1) && !has_cell(right, c - 1))
    } by {
        lemma_cell_ops(r | a | b | l, rr, c);
        lemma_cell_ops(r | a | b, l, c);
        lemma_cell_ops(r | a, b, c);
        lemma_cell_ops(r, a, c);
        lemma_cell_shr(r & !up, 9u128, c);
        lemma_cell_shl(r & !down, 9u128, c);
        lemma_cell_shr(r & !left, 1u128, c);
        lemma_cell_shl(r & !right, 1u128, c);
        if c + 9 < 128 {
            lemma_cell_ops(r, !up, c + 9);
            lemma_cell_ops(up, up, c + 9);
        }
        if c >= 9 {
            lemma_cell_ops(r, !down, c - 9);
            lemma_cell_ops(down, down, c - 9);
        }
        if c + 1 < 128 {
            lemma_cell_ops(r, !left, c + 1);
            lemma_cell_ops(left, left, c + 1);
        }
        if c >= 1 {
            lemma_cell_ops(r, !right, c - 1);
            lemma_cell_ops(right, right, c - 1);
        }
    }
    assert forall|c: int| 0 <= c < 128 implies #[trigger] has_cell(next, c) == grown_cell(
        wh,
        wv,
        r,
        c,
    ) by {
        assert(has_cell(next, c) == {
            ||| has_cell(r, c)
            ||| (c + 9 < 128 && has_cell(r, c + 9) && !has_cell(up, c + 9))
            ||| (c >= 9 && has_cell(r, c - 9) && !has_cell(down, c - 9))
            ||| (c + 1 < 128 && has_cell(r, c + 1) && !has_cell(left, c + 1))
            ||| (c >= 1 && has_cell(r, c - 1) && !has_cell(right, c - 1))
        });
        if has_cell(next, c) && !has_cell(r, c) {
            if c >= 9 {
                assert(has_cell(down, c - 9) == down_blocked(wh, c - 9));
            }
            if c >= 1 {
                assert(has_cell(right, c - 1) == right_blocked(wv, c - 1));
            }
            if c + 1 < 128 {
                assert(has_cell(left, c + 1) == left_blocked(wv, c + 1));
            }
            if c + 9 < 128 {
                assert(has_cell(up, c + 9) == up_blocked(wh, c + 9));
            }
            if c + 9 < 128 && has_cell(r, c + 9) && !has_cell(up, c + 9) {
                assert(can_step(wh, wv, c + 9, c));
            } else if c >= 9 && has_cell(r, c - 9) && !has_cell(down, c - 9) {
                assert(can_step(wh, wv, c - 9, c));
            } else if c + 1 < 128 && has_cell(r, c + 1) && !has_cell(left, c + 1) {
                assert(can_step(wh, wv, c + 1, c));
            } else {
                assert(can_step(wh, wv, c - 1, c));
            }
        }
        if grown_cell(wh, wv, r, c) && !has_cell(r, c) {
            let n = choose|n: int| #[trigger] can_step(wh, wv, n, c) && has_cell(r, n);
            assert(has_cell(up, n) == up_blocked(wh, n));
            assert(has_cell(down, n) == down_blocked(wh, n));
            assert(has_cell(left, n) == left_blocked(wv, n));
            assert(has_cell(right, n) == right_blocked(wv, n));
        }
    }
}

/// Reaching within `j` steps implies reaching within any `k >= j` steps.
pub proof fn lemma_within_mono(wh: u64, wv: u64, s: int, c: int, j: nat, k: nat)
    requires
        j <= k,
        reachable_within(wh, wv, s, c, j),
    ensures
        reachable_within(wh, wv, s, c, k),
    decreases k - j,
{
    if j < k {
        lemma_within_mono(wh, wv, s, c, j, (k - 1) as nat);
    }
}

/// Only cell numbers of a 128-bit mask are ever reached.
pub proof fn lemma_within_in_range(wh: u64, wv: u64, s: int, c: int, k: nat)
    requires
        reachable_within(wh, wv, s, c, k),
    ensures
        0 <= c < 128,
    decreases k,
{
    if k > 0 && reachable_within(wh, wv, s, c, (k - 1) as nat) {
        lemma_within_in_range(wh, wv, s, c, (k - 1) as nat);
    }
}

/// Once one more step reaches nothing new, no number of steps does.
pub proof fn lemma_within_stable(wh: u64, wv: u64, s: int, k: nat, j: nat)
    requires
        k <= j,
        forall|c: int| reachable_within(wh, wv, s, c, k + 1) ==> reachable_within(wh, wv, s, c, k),
    ensures
        forall|c: int| #[trigger] reachable_within(wh, wv, s, c, j) ==> reachable_within(wh, wv, s, c, k),
    decreases j - k,
{
    if k < j {
        lemma_within_stable(wh, wv, s, k, (j - 1) as nat);
        assert forall|c: int| #[trigger] reachable_within(wh, wv, s, c, j) implies reachable_within(
            wh,
            wv,
            s,
            c,
            k,
        ) by {
            if !reachable_within(wh, wv, s, c, (j - 1) as nat) {
                let n = choose|n: int|
                    #[trigger] can_step(wh, wv, n, c) && reachable_within(wh, wv, s, n, (j - 1) as nat);
                assert(reachable_within(wh, wv, s, n, k));
                assert(reachable_within(wh, wv, s, c, k + 1));
            }
        }
    }
}

/// Flood-fill layer `k`: the mask holds exactly the cells reachable within `k` steps.
pub open spec fn layer_matches(wh: u64, wv: u64, s: int, r: u128, k: nat) -> bool {
    forall|c: int| 0 <= c < 128 ==> #[trigger] has_cell(r, c) == reachable_within(wh, wv, s, c, k)
}

/// One flood-fill step from layer `k` gives layer `k + 1`.
pub proof fn lemma_layer_step(
    wh: u64,
    wv: u64,
    s: int,
    r: u128,
    k: nat,
    up: u128,
    down: u128,
    left: u128,
    right: u128,
)
    requires
        blockers_match(wh, wv, up, down, left, right),
        layer_matches(wh, wv, s, r, k),
    ensures
        layer_matches(wh, wv, s, flood_step(r, up, down, left, right), k + 1),
{
    lemma_flood_step(wh, wv, r, up, down, left, right);
    let next = flood_step(r, up, down, left, right);
    assert forall|c: int| 0 <= c < 128 implies #[trigger] has_cell(next, c) == reachable_within(
        wh,
        wv,
        s,
        c,
        k + 1,
    ) by {
        assert(has_cell(next, c) == grown_cell(wh, wv, r, c));
        if reachable_within(wh, wv, s, c, k + 1) && !reachable_within(wh, wv, s, c, k) {
            let n = choose|n: int|
                #[trigger] can_step(wh, wv, n, c) && reachable_within(wh, wv, s, n, k);
            assert(has_cell(r, n));
        }
        if grown_cell(wh, wv, r, c) && !has_cell(r, c) {
            let n = choose|n: int| #[trigger] can_step(wh, wv, n, c) && has_cell(r, n);
            assert(reachable_within(wh, wv, s, n, k));
        }
    }
}

/// The starting mask is layer 0.
pub proof fn lemma_layer_start(wh: u64, wv: u64, s: int)
    requires
        0 <= s < 128,
    ensures
        layer_matches(wh, wv, s, 1u128 << (s as u128), 0),
{
    assert forall|c: int| 0 <= c < 128 implies #[trigger] has_cell(1u128 << (s as u128), c) == (c
        == s) by {
        lemma_cell_single(s as u128, c);
    }
}

/// A layer meets the goal mask exactly when it holds a goal cell.
pub proof fn lemma_layer_goal(wh: u64, wv: u64, s: int, r: u128, k: nat, player: int)
    requires
        layer_matches(wh, wv, s, r, k),
    ensures
        (r & goal_mask(player)) != 0 <==> exists|c: int|
            goal_cell(player, c) && #[trigger] reachable_within(wh, wv, s, c, k),
{
    let t = goal_mask(player);
    lemma_and_nonzero128(r, t);
    if (r & t) != 0 {
        let i = choose|i: u128| i < 128 && #[trigger] bit128(r, i) && bit128(t, i);
        let c = i as int;
        assert(has_cell(r, c));
        lemma_edge_cells(c);
        assert(goal_cell(player, c));
    }
    if exists|c: int| goal_cell(player, c) && #[trigger] reachable_within(wh, wv, s, c, k) {
        let c = choose|c: int| goal_cell(player, c) && #[trigger] reachable_within(wh, wv, s, c, k);
        lemma_edge_cells(c);
        assert(has_cell(r, c));
        assert(has_cell(t, c));
        assert(bit128(r, c as u128) && bit128(t, c as u128));
    }
}

proof fn lemma_grows(a: u128, b: u128)
    by (bit_vector)
    ensures
        (a | b) != a ==> (a | b) > a,
{
}

/// The flood-fill mask after `k` steps from cell `s`.
pub open spec fn layer_mask(wh: u64, wv: u64, s: int, k: nat) -> u128
    decreases k,
{
    if k == 0 {
        1u128 << (s as u128)
    } else {
        let b = blocker_masks(wh, wv);
        flood_step(layer_mask(wh, wv, s, (k - 1) as nat), b.0, b.1, b.2, b.3)
    }
}

/// Flood-fill mask `k` holds exactly the cells reachable within `k` steps.
pub proof fn lemma_layer_mask(wh: u64, wv: u64, s: int, k: nat)
    requires
        0 <= s < 128,
    ensures
        layer_matches(wh, wv, s, layer_mask(wh, wv, s, k), k),
    decreases k,
{
    if k == 0 {
        lemma_layer_start(wh, wv, s);
    } else {
        lemma_layer_mask(wh, wv, s, (k - 1) as nat);
        lemma_blocker_masks(wh, wv);
        let b = blocker_masks(wh, wv);
        lemma_layer_step(wh, wv, s, layer_mask(wh, wv, s, (k - 1) as nat), (k - 1) as nat, b.0, b.1, b.2, b.3);
    }
}

/// The cells reachable from `s` within `k` steps.
pub open spec fn reach_set(wh: u64, wv: u64, s: int, k: nat) -> Set<int> {
    Set::new(|c: int| reachable_within(wh, wv, s, c, k))
}

/// Some goal cell of `player` is reachable from `s` within `k` steps.
pub open spec fn goal_within(wh: u64, wv: u64, s: int, player: int, k: nat) -> bool {
    exists|c: int| goal_cell(player, c) && #[trigger] reachable_within(wh, wv, s, c, k)
}

/// `d` is the number of steps of a shortest path from `s` to the goal row of `player`.
pub open spec fn is_shortest_distance(wh: u64, wv: u64, s: int, player: int, d: nat) -> bool {
    goal_within(wh, wv, s, player, d) && forall|j: nat| j < d ==> !#[trigger] goal_within(wh, wv, s, player, j)
}

/// The cells reachable from `s` in any number of steps.
pub open spec fn closure_set(wh: u64, wv: u64, s: int) -> Set<int> {
    Set::new(|c: int| exists|k: nat| #[trigger] reachable_within(wh, wv, s, c, k))
}

/// Once one more step reaches nothing new, the cells reachable within `k` steps are
/// all the cells reachable at all.
pub proof fn lemma_closure_at_fixpoint(wh: u64, wv: u64, s: int, k: nat)
    requires
        forall|c: int| reachable_within(wh, wv, s, c, k + 1) ==> reachable_within(wh, wv, s, c, k),
    ensures
        closure_set(wh, wv, s) == reach_set(wh, wv, s, k),
{
    assert forall|c: int| closure_set(wh, wv, s).contains(c) <==> reach_set(wh, wv, s, k).contains(c) by {
        if closure_set(wh, wv, s).contains(c) {
            let j = choose|j: nat| #[trigger] reachable_within(wh, wv, s, c, j);
            if j <= k {
                lemma_within_mono(wh, wv, s, c, j, k);
            } else {
                lemma_within_stable(wh, wv, s, k, j);
            }
        }
        if reach_set(wh, wv, s, k).contains(c) {
            assert(reachable_within(wh, wv, s, c, k));
        }
    }
    assert(closure_set(wh, wv, s) =~= reach_set(wh, wv, s, k));
}

/// The reachable set is finite and within the cell numbers of a 128-bit mask.
pub proof fn lemma_reach_set_bounded(wh: u64, wv: u64, s: int, k: nat)
    ensures
        reach_set(wh, wv, s, k).subset_of(set_int_range(0, 128)),
        reach_set(wh, wv, s, k).finite(),
        reach_set(wh, wv, s, k).len() <= 128,
{
    assert forall|c: int| reach_set(wh, wv, s, k).contains(c) implies set_int_range(0, 128).contains(c) by {
        lemma_within_in_range(wh, wv, s, c, k);
    }
    lemma_int_range(0, 128);
    lemma_len_subset(reach_set(wh, wv, s, k), set_int_range(0, 128));
}

/// A flood-fill step that changes the mask reaches a new cell.
proof fn lemma_layer_grows(wh: u64, wv: u64, s: int, r: u128, next: u128, k: nat)
    requires
        layer_matches(wh, wv, s, r, k),
        layer_matches(wh, wv, s, next, k + 1),
        next != r,
    ensures
        reach_set(wh, wv, s, k + 1).len() >= reach_set(wh, wv, s, k).len() + 1,
{
    let c = lemma_masks_differ(next, r);
    assert(has_cell(next, c) != has_cell(r, c));
    if has_cell(r, c) {
        lemma_within_mono(wh, wv, s, c, k, k + 1);
    }
    assert(reach_set(wh, wv, s, k + 1).contains(c));
    assert(!reach_set(wh, wv, s, k).contains(c));
    assert forall|x: int| reach_set(wh, wv, s, k).contains(x) implies reach_set(wh, wv, s, k + 1).contains(x) by {
        lemma_within_mono(wh, wv, s, x, k, k + 1);
    }
    lemma_reach_set_bounded(wh, wv, s, k + 1);
    reach_set(wh, wv, s, k).lemma_subset_not_in_lt(reach_set(wh, wv, s, k + 1), c);
}

/// The cells of a flood-fill layer are the cells reachable within its step count.
proof fn lemma_layer_cells(wh: u64, wv: u64, s: int, r: u128, k: nat)
    requires
        layer_matches(wh, wv, s, r, k),
    ensures
        cells_of(r) == reach_set(wh, wv, s, k),
{
    assert forall|c: int| cells_of(r).contains(c) <==> reach_set(wh, wv, s, k).contains(c) by {
        if reachable_within(wh, wv, s, c, k) {
            lemma_within_in_range(wh, wv, s, c, k);
        }
    }
    assert(cells_of(r) =~= reach_set(wh, wv, s, k));
}

/// The search for a detour around `blocked`: flood-fill from `reach` with the cells of
/// `blocked` removed, for at most `fuel` more rounds; the result says whether the goal
/// mask `target` was met and after how many rounds.
pub open spec fn detour(
    wh: u64,
    wv: u64,
    target: u128,
    blocked: u128,
    fuel: nat,
    reach: u128,
    dist: int,
) -> (bool, int)
    decreases fuel,
{
    if fuel == 0 {
        (false, dist)
    } else if (reach & target) != 0 {
        (true, dist)
    } else {
        let b = blocker_masks(wh, wv);
        let next = flood_step(reach, b.0, b.1, b.2, b.3) & !blocked;
        if next == reach {
            (false, dist)
        } else {
            detour(wh, wv, target, blocked, (fuel - 1) as nat, next, dist + 1)
        }
    }
}

/// The metrics gathered by walking a shortest path back from the goal, layer `d` down
/// to layer 0: the path cells of each layer are the cells of that layer next to the
/// path cells of the layer above. A layer walled on both sides (left and right, or up
/// and down) adds a tunnel; a layer of at most two path cells is a bottleneck, and
/// while no bottleneck without detour has been met, each bottleneck is searched for a
/// detour: none makes the path immune, one raises the largest detour cost
/// (rounds of the detour search minus the distance) seen so far.
pub open spec fn backtrack(
    wh: u64,
    wv: u64,
    s: int,
    target: u128,
    dist: int,
    d: int,
    pm: u128,
    max_delta: int,
    tunnels: int,
    immune: bool,
) -> (int, int, bool)
    decreases d + 1,
{
    if d < 0 {
        (max_delta, tunnels, immune)
    } else {
        let b = blocker_masks(wh, wv);
        let pm2 = flood_step(pm, b.0, b.1, b.2, b.3) & layer_mask(wh, wv, s, d as nat);
        let walled_left = (pm2 & !b.2) == 0;
        let walled_right = (pm2 & !b.3) == 0;
        let walled_up = (pm2 & !b.0) == 0;
        let walled_down = (pm2 & !b.1) == 0;
        let tunnels2 = if (walled_left && walled_right) || (walled_up && walled_down) {
            tunnels + 1
        } else {
            tunnels
        };
        let check = cells_of(pm2).len() <= 2 && !immune;
        let det = detour(wh, wv, target, pm2, 100, 1u128 << (s as u128), 0);
        let immune2 = if check && !det.0 {
            true
        } else {
            immune
        };
        let max_delta2 = if check && det.0 && det.1 - dist > max_delta {
            det.1 - dist
        } else {
            max_delta
        };
        backtrack(wh, wv, s, target, dist, d - 1, pm2, max_delta2, tunnels2, immune2)
    }
}

/// Flood-fills from `start` with the cells of `blocked` removed, for at most 100 rounds.
fn detour_search(
    start: u8,
    target_mask: u128,
    blocked_mask: u128,
    allow_up: u128,
    allow_down: u128,
    allow_left: u128,
    allow_right: u128,
    Ghost(wh): Ghost<u64>,
    Ghost(wv): Ghost<u64>,
) -> (r: (bool, i32))
    requires
        start < 128,
        allow_up == !blocker_masks(wh, wv).0,
        allow_down == !blocker_masks(wh, wv).1,
        allow_left == !blocker_masks(wh, wv).2,
        allow_right == !blocker_masks(wh, wv).3,
    ensures
        (r.0, r.1 as int) == detour(wh, wv, target_mask, blocked_mask, 100, 1u128 << (start as u128), 0),
        0 <= r.1 <= 100,
{
    let mut alt_reach = 1u128 << start;
    let mut alt_dist: i32 = 0;
    while alt_dist < 100
        invariant
            0 <= alt_dist <= 100,
            allow_up == !blocker_masks(wh, wv).0,
            allow_down == !blocker_masks(wh, wv).1,
            allow_left == !blocker_masks(wh, wv).2,
            allow_right == !blocker_masks(wh, wv).3,
            detour(wh, wv, target_mask, blocked_mask, 100, 1u128 << (start as u128), 0) == detour(
                wh,
                wv,
                target_mask,
                blocked_mask,
                (100 - alt_dist) as nat,
                alt_reach,
                alt_dist as int,
            ),
        decreases 100 - alt_dist,
    {
        if (alt_reach & target_mask) != 0 {
            return (true, alt_dist);
        }
        let mut next_alt = alt_reach
            | ((alt_reach & allow_up) >> 9u128)
            | ((alt_reach & allow_down) << 9u128)
            | ((alt_reach & allow_left) >> 1u128)
            | ((alt_reach & allow_right) << 1u128);
        next_alt = next_alt & !blocked_mask;
        if next_alt == alt_reach {
            return (false, alt_dist);
        }
        alt_reach = next_alt;
        alt_dist = alt_dist + 1;
    }
    (false, alt_dist)
}

/// The flood-fill result of one player: when a path to the goal exists, the length
/// of a shortest one, the number of cells reachable from the start (the reachable
/// area), and the `backtrack` metrics of the shortest paths; otherwise -1 and zeros.
pub open spec fn path_metrics(wh: u64, wv: u64, s: int, player: int, r: (i32, u32, i32, u32, bool)) -> bool {
    if path_to_goal(wh, wv, s, player) {
        &&& r.0 >= 0
        &&& is_shortest_distance(wh, wv, s, player, r.0 as nat)
        &&& r.1 == closure_set(wh, wv, s).len()
        &&& (r.2 as int, r.3 as int, r.4) == backtrack(
            wh,
            wv,
            s,
            goal_mask(player),
            r.0 as int,
            r.0 - 1,
            layer_mask(wh, wv, s, r.0 as nat) & goal_mask(player),
            0,
            0,
            false,
        )
    } else {
        r == (-1i32, 0u32, 0i32, 0u32, false)
    }
}

impl GameState {
    /// Whether `player`'s pawn can still reach its goal row.
    pub fn has_path_to_goal(&self, player: u8) -> (r: bool)
        requires
            player < 2,
            self.positions[player as int] < 128,
        ensures
            r == path_to_goal(self.walls_h, self.walls_v, self.positions[player as int] as int, player as int),
    {
        let (b_up, b_down, b_left, b_right) = self.get_wall_blockers();

        let allow_up = !b_up;
        let allow_down = !b_down;
        let allow_left = !b_left;
        let allow_right = !b_right;

        let ghost wh = self.walls_h;
        let ghost wv = self.walls_v;
        let ghost s = self.positions[player as int] as int;
        let target_mask = if player == 0 { BOTTOM_EDGE } else { TOP_EDGE };
        let mut reach = 1u128 << self.positions[player as usize];
        let ghost mut k: nat = 0;
        proof {
            lemma_layer_start(wh, wv, s);
        }

        loop
            invariant
                blockers_match(wh, wv, b_up, b_down, b_left, b_right),
                allow_up == !b_up,
                allow_down == !b_down,
                allow_left == !b_left,
                allow_right == !b_right,
                target_mask == goal_mask(player as int),
                layer_matches(wh, wv, s, reach, k),
                wh == self.walls_h,
                wv == self.walls_v,
                s == self.positions[player as int] as int,
                0 <= s < 128,
                player < 2,
            decreases u128::MAX - reach,
        {
            proof {
                lemma_layer_goal(wh, wv, s, reach, k, player as int);
            }
            if (reach & target_mask) != 0 {
                return true;
            }
            let next_reach = reach
                | ((reach & allow_up) >> 9u128)
                | ((reach & allow_down) << 9u128)
                | ((reach & allow_left) >> 1u128)
                | ((reach & allow_right) << 1u128);
            proof {
                lemma_layer_step(wh, wv, s, reach, k, b_up, b_down, b_left, b_right);
                assert(next_reach == flood_step(reach, b_up, b_down, b_left, b_right));
            }
            if next_reach == reach {
                proof {
                    assert forall|c: int| reachable_within(wh, wv, s, c, k + 1) implies reachable_within(wh, wv, s, c, k) by {
                        lemma_within_in_range(wh, wv, s, c, k + 1);
                        assert(has_cell(next_reach, c));
                    }
                    assert forall|c: int, j: nat| goal_cell(player as int, c) implies !#[trigger] reachable_within(wh, wv, s, c, j) by {
                        if reachable_within(wh, wv, s, c, j) {
                            if j <= k {
                                lemma_within_mono(wh, wv, s, c, j, k);
                            } else {
                                lemma_within_stable(wh, wv, s, k, j);
                            }
                        }
                    }
                }
                return false;
            }
            proof {
                let x = ((reach & allow_up) >> 9u128)
                    | ((reach & allow_down) << 9u128)
                    | ((reach & allow_left) >> 1u128)
                    | ((reach & allow_right) << 1u128);
                assert(next_reach == reach | x) by (bit_vector)
                    requires next_reach == reach
                    | ((reach & allow_up) >> 9u128)
                    | ((reach & allow_down) << 9u128)
                    | ((reach & allow_left) >> 1u128)
                    | ((reach & allow_right) << 1u128),
                    x == ((reach & allow_up) >> 9u128)
                    | ((reach & allow_down) << 9u128)
                    | ((reach & allow_left) >> 1u128)
                    | ((reach & allow_right) << 1u128);
                lemma_grows(reach, x);
                k = k + 1;
            }
            reach = next_reach;
        }
    }

    /// Walks a shortest path back from the goal row, layer by layer, gathering the
    /// metrics of `backtrack`: largest detour cost, tunnel count, immunity.
    fn backtrack_path(
        history: &[u128; 128],
        distance: i32,
        start_pos: u8,
        target_mask: u128,
        allow_up: u128,
        allow_down: u128,
        allow_left: u128,
        allow_right: u128,
        Ghost(wh): Ghost<u64>,
        Ghost(wv): Ghost<u64>,
    ) -> (r: (i32, u32, bool))
        requires
            0 <= distance <= 127,
            start_pos < 128,
            forall|j: int| 0 <= j <= distance ==> #[trigger] history[j] == layer_mask(wh, wv, start_pos as int, j as nat),
            allow_up == !blocker_masks(wh, wv).0,
            allow_down == !blocker_masks(wh, wv).1,
            allow_left == !blocker_masks(wh, wv).2,
            allow_right == !blocker_masks(wh, wv).3,
        ensures
            (r.0 as int, r.1 as int, r.2) == backtrack(
                wh,
                wv,
                start_pos as int,
                target_mask,
                distance as int,
                distance - 1,
                layer_mask(wh, wv, start_pos as int, distance as nat) & target_mask,
                0,
                0,
                false,
            ),
            0 <= r.0 <= 100,
            r.1 <= distance,
    {
        let ghost s = start_pos as int;
        let mut path_mask = history[distance as usize] & target_mask;
        let mut max_delta: i32 = 0;
        let mut tunnel_security: u32 = 0;
        let mut immunity = false;
        let mut d: i32 = distance;
        while d > 0
            invariant
                0 <= d <= distance <= 127,
                start_pos < 128,
                s == start_pos as int,
                tunnel_security <= distance - d,
                0 <= max_delta <= 100,
                forall|j: int| 0 <= j <= distance ==> #[trigger] history[j] == layer_mask(wh, wv, s, j as nat),
                allow_up == !blocker_masks(wh, wv).0,
                allow_down == !blocker_masks(wh, wv).1,
                allow_left == !blocker_masks(wh, wv).2,
                allow_right == !blocker_masks(wh, wv).3,
                backtrack(
                    wh,
                    wv,
                    s,
                    target_mask,
                    distance as int,
                    distance - 1,
                    layer_mask(wh, wv, s, distance as nat) & target_mask,
                    0,
                    0,
                    false,
                ) == backtrack(
                    wh,
                    wv,
                    s,
                    target_mask,
                    distance as int,
                    d - 1,
                    path_mask,
                    max_delta as int,
                    tunnel_security as int,
                    immunity,
                ),
            decreases d,
        {
            d = d - 1;
            let prev_expanded = path_mask
                | ((path_mask & allow_up) >> 9u128)
                | ((path_mask & allow_down) << 9u128)
                | ((path_mask & allow_left) >> 1u128)
                | ((path_mask & allow_right) << 1u128);
            path_mask = prev_expanded & history[d as usize];
            let walled_left = (path_mask & allow_left) == 0;
            let walled_right = (path_mask & allow_right) == 0;
            let walled_up = (path_mask & allow_up) == 0;
            let walled_down = (path_mask & allow_down) == 0;
            if (walled_left && walled_right) || (walled_up && walled_down) {
                tunnel_security = tunnel_security + 1;
            }
            let cells = count_cells(path_mask);
            if cells <= 2 && !immunity {
                let (found, alt_dist) = detour_search(
                    start_pos,
                    target_mask,
                    path_mask,
                    allow_up,
                    allow_down,
                    allow_left,
                    allow_right,
                    Ghost(wh),
                    Ghost(wv),
                );
                if !found {
                    immunity = true;
                } else {
                    let delta = alt_dist - distance;
                    if delta > max_delta {
                        max_delta = delta;
                    }
                }
            }
        }
        (max_delta, tunnel_security, immunity)
    }

    /// Keeps flooding from layer `distance0` until the mask stops growing; the mask
    /// then holds every cell reachable from `s`.
    fn flood_closure(
        reach0: u128,
        distance0: i32,
        allow_up: u128,
        allow_down: u128,
        allow_left: u128,
        allow_right: u128,
        Ghost(wh): Ghost<u64>,
        Ghost(wv): Ghost<u64>,
        Ghost(s): Ghost<int>,
    ) -> (r: u128)
        requires
            0 <= s < 128,
            0 <= distance0 <= 127,
            reach0 == layer_mask(wh, wv, s, distance0 as nat),
            reach_set(wh, wv, s, distance0 as nat).len() >= distance0 + 1,
            allow_up == !blocker_masks(wh, wv).0,
            allow_down == !blocker_masks(wh, wv).1,
            allow_left == !blocker_masks(wh, wv).2,
            allow_right == !blocker_masks(wh, wv).3,
        ensures
            cells_of(r) == closure_set(wh, wv, s),
    {
        let mut reach = reach0;
        let mut distance = distance0;
        loop
            invariant
                0 <= s < 128,
                0 <= distance <= 127,
                reach == layer_mask(wh, wv, s, distance as nat),
                reach_set(wh, wv, s, distance as nat).len() >= distance + 1,
                allow_up == !blocker_masks(wh, wv).0,
                allow_down == !blocker_masks(wh, wv).1,
                allow_left == !blocker_masks(wh, wv).2,
                allow_right == !blocker_masks(wh, wv).3,
            decreases 127 - distance,
        {
            let next_reach = reach
                | ((reach & allow_up) >> 9u128)
                | ((reach & allow_down) << 9u128)
                | ((reach & allow_left) >> 1u128)
                | ((reach & allow_right) << 1u128);
            proof {
                lemma_layer_mask(wh, wv, s, distance as nat);
                lemma_layer_mask(wh, wv, s, (distance + 1) as nat);
                assert(next_reach == layer_mask(wh, wv, s, (distance + 1) as nat));
            }
            if next_reach == reach {
                proof {
                    let k = distance as nat;
                    assert forall|c: int| reachable_within(wh, wv, s, c, k + 1) implies reachable_within(wh, wv, s, c, k) by {
                        lemma_within_in_range(wh, wv, s, c, k + 1);
                        assert(has_cell(next_reach, c));
                    }
                    lemma_closure_at_fixpoint(wh, wv, s, k);
                    lemma_layer_cells(wh, wv, s, reach, k);
                }
                return reach;
            }
            proof {
                lemma_layer_grows(wh, wv, s, reach, next_reach, distance as nat);
                lemma_reach_set_bounded(wh, wv, s, (distance + 1) as nat);
            }
            reach = next_reach;
            distance = distance + 1;
        }
    }

    /// Breadth-first flood fill from `player`'s pawn to the goal mask, with the path
    /// metrics of `backtrack` once the goal is met.
    fn flood_fill(
        &self,
        player: u8,
        target_mask: u128,
        allow_up: u128,
        allow_down: u128,
        allow_left: u128,
        allow_right: u128,
    ) -> (r: (i32, u32, i32, u32, bool))
        requires
            player < 2,
            self.positions[player as int] < 128,
            target_mask == goal_mask(player as int),
            allow_up == !blocker_masks(self.walls_h, self.walls_v).0,
            allow_down == !blocker_masks(self.walls_h, self.walls_v).1,
            allow_left == !blocker_masks(self.walls_h, self.walls_v).2,
            allow_right == !blocker_masks(self.walls_h, self.walls_v).3,
        ensures
            path_metrics(self.walls_h, self.walls_v, self.positions[player as int] as int, player as int, r),
    {
        let ghost wh = self.walls_h;
        let ghost wv = self.walls_v;
        let start_pos = self.positions[player as usize];
        let ghost s = start_pos as int;
        let mut reach = 1u128 << start_pos;
        let mut distance: i32 = 0;
        let mut history = [0u128; 128];
        proof {
            lemma_layer_mask(wh, wv, s, 0);
            lemma_blocker_masks(wh, wv);
            assert(reach_set(wh, wv, s, 0).contains(s));
            lemma_reach_set_bounded(wh, wv, s, 0);
            assert(reach_set(wh, wv, s, 0).len() >= 1) by {
                if reach_set(wh, wv, s, 0).len() == 0 {
                    reach_set(wh, wv, s, 0).lemma_len0_is_empty();
                }
            }
        }
        loop
            invariant
                0 <= distance <= 127,
                start_pos < 128,
                s == start_pos as int,
                s == self.positions[player as int] as int,
                player < 2,
                wh == self.walls_h,
                wv == self.walls_v,
                target_mask == goal_mask(player as int),
                allow_up == !blocker_masks(wh, wv).0,
                allow_down == !blocker_masks(wh, wv).1,
                allow_left == !blocker_masks(wh, wv).2,
                allow_right == !blocker_masks(wh, wv).3,
                blockers_match(wh, wv, blocker_masks(wh, wv).0, blocker_masks(wh, wv).1, blocker_masks(wh, wv).2, blocker_masks(wh, wv).3),
                reach == layer_mask(wh, wv, s, distance as nat),
                forall|j: int| 0 <= j < distance ==> #[trigger] history[j] == layer_mask(wh, wv, s, j as nat),
                forall|j: nat| j < distance ==> !#[trigger] goal_within(wh, wv, s, player as int, j),
                reach_set(wh, wv, s, distance as nat).len() >= distance + 1,
            decreases 127 - distance,
        {
            history[distance as usize] = reach;
            proof {
                lemma_layer_mask(wh, wv, s, distance as nat);
                lemma_layer_goal(wh, wv, s, reach, distance as nat, player as int);
            }
            if (reach & target_mask) != 0 {
                let closure = Self::flood_closure(
                    reach,
                    distance,
                    allow_up,
                    allow_down,
                    allow_left,
                    allow_right,
                    Ghost(wh),
                    Ghost(wv),
                    Ghost(s),
                );
                let surf = count_cells(closure);
                proof {
                    assert(path_to_goal(wh, wv, s, player as int)) by {
                        let c = choose|c: int| goal_cell(player as int, c) && #[trigger] reachable_within(wh, wv, s, c, distance as nat);
                        assert(goal_cell(player as int, c) && reachable_within(wh, wv, s, c, distance as nat));
                    }
                }
                let (max_delta, tunnel, imm) = Self::backtrack_path(
                    &history,
                    distance,
                    start_pos,
                    target_mask,
                    allow_up,
                    allow_down,
                    allow_left,
                    allow_right,
                    Ghost(wh),
                    Ghost(wv),
                );
                return (distance, surf, max_delta, tunnel, imm);
            }
            let next_reach = reach
                | ((reach & allow_up) >> 9u128)
                | ((reach & allow_down) << 9u128)
                | ((reach & allow_left) >> 1u128)
                | ((reach & allow_right) << 1u128);
            proof {
                lemma_layer_mask(wh, wv, s, (distance + 1) as nat);
                assert(next_reach == layer_mask(wh, wv, s, (distance + 1) as nat));
            }
            if next_reach == reach {
                proof {
                    let k = distance as nat;
                    assert forall|c: int| reachable_within(wh, wv, s, c, k + 1) implies reachable_within(wh, wv, s, c, k) by {
                        lemma_within_in_range(wh, wv, s, c, k + 1);
                        assert(has_cell(next_reach, c));
                    }
                    assert forall|c: int, j: nat| goal_cell(player as int, c) implies !#[trigger] reachable_within(wh, wv, s, c, j) by {
                        if reachable_within(wh, wv, s, c, j) {
                            if j <= k {
                                lemma_within_mono(wh, wv, s, c, j, k);
                            } else {
                                lemma_within_stable(wh, wv, s, k, j);
                            }
                        }
                    }
                }
                return (-1, 0, 0, 0, false);
            }
            proof {
                lemma_layer_grows(wh, wv, s, reach, next_reach, distance as nat);
                lemma_reach_set_bounded(wh, wv, s, (distance + 1) as nat);
            }
            reach = next_reach;
            distance = distance + 1;
        }
    }

    /// Shortest-path distance plus structural metrics (reachable area, largest
    /// detour cost, tunnel count, immunity) for player 0, then for player 1.
    pub fn get_distances(&self) -> (r: (i32, u32, i32, u32, bool, i32, u32, i32, u32, bool))
        requires
            self.positions[0] < 128,
            self.positions[1] < 128,
        ensures
            path_metrics(self.walls_h, self.walls_v, self.positions[0] as int, 0, (r.0, r.1, r.2, r.3, r.4)),
            path_metrics(self.walls_h, self.walls_v, self.positions[1] as int, 1, (r.5, r.6, r.7, r.8, r.9)),
    {
        let (b_up, b_down, b_left, b_right) = self.get_wall_blockers();
        let allow_up = !b_up;
        let allow_down = !b_down;
        let allow_left = !b_left;
        let allow_right = !b_right;
        let (dist_0, surf_0, delta_0, tun_0, imm_0) = self.flood_fill(0, BOTTOM_EDGE, allow_up, allow_down, allow_left, allow_right);
        let (dist_1, surf_1, delta_1, tun_1, imm_1) = self.flood_fill(1, TOP_EDGE, allow_up, allow_down, allow_left, allow_right);
        (dist_0, surf_0, delta_0, tun_0, imm_0, dist_1, surf_1, delta_1, tun_1, imm_1)
    }

    /// Both players can still reach their goal rows.
    pub fn is_state_valid(&self) -> (r: bool)
        requires
            self.positions[0] < 128,
            self.positions[1] < 128,
        ensures
            r == (path_to_goal(self.walls_h, self.walls_v, self.positions[0] as int, 0)
                && path_to_goal(self.walls_h, self.walls_v, self.positions[1] as int, 1)),
    {
        self.has_path_to_goal(0) && self.has_path_to_goal(1)
    }
}

} // verus!
