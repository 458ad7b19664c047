//! What the detour search around a bottleneck of the shortest paths finds, cell by
//! cell: whether the goal row can be reached without entering the bottleneck, and in
//! how few steps.

use vstd::prelude::*;
use crate::bits::{cells_of, has_cell, lemma_cell_ops, lemma_masks_differ};
use crate::board::{blocker_masks, lemma_blocker_masks, lemma_edge_cells};
use crate::mirror::lemma_step_on_board;
use crate::reach::{
    backtrack, can_step, detour, flood_step, goal_cell, goal_mask, grown_cell, layer_mask, lemma_flood_step,
    lemma_layer_mask, path_metrics, path_to_goal, reachable_within,
};
use crate::rules::{lemma_path_layer_mask, on_path};
use vstd::set_lib::{lemma_int_range, lemma_len_subset, set_int_range};

verus! {

/// Cell `c` can be reached from `s` in at most `k` steps without entering a cell that
/// `avoid` marks (the start itself is not entered, so it is exempt).
pub open spec fn reachable_avoiding(wh: u64, wv: u64, avoid: spec_fn(int) -> bool, s: int, c: int, k: nat) -> bool
    decreases k,
{
    if k == 0 {
        0 <= s < 128 && c == s
    } else {
        !avoid(c) && (reachable_avoiding(wh, wv, avoid, s, c, (k - 1) as nat) || exists|n: int|
            #[trigger] can_step(wh, wv, n, c) && reachable_avoiding(wh, wv, avoid, s, n, (k - 1) as nat))
    }
}

/// Some goal cell of `player` can be reached from `s` in at most `k` steps avoiding
/// the cells that `avoid` marks.
pub open spec fn goal_avoiding(wh: u64, wv: u64, avoid: spec_fn(int) -> bool, s: int, player: int, k: nat) -> bool {
    exists|c: int| goal_cell(player, c) && #[trigger] reachable_avoiding(wh, wv, avoid, s, c, k)
}

/// The detour search mask after `k` rounds from cell `s`, the cells of `bl` removed.
pub open spec fn avoid_mask(wh: u64, wv: u64, bl: u128, s: int, k: nat) -> u128
    decreases k,
{
    if k == 0 {
        1u128 << (s as u128)
    } else {
        let b = blocker_masks(wh, wv);
        flood_step(avoid_mask(wh, wv, bl, s, (k - 1) as nat), b.0, b.1, b.2, b.3) & !bl
    }
}

/// Only cell numbers of a 128-bit mask are reached.
proof fn lemma_avoiding_in_range(wh: u64, wv: u64, avoid: spec_fn(int) -> bool, s: int, c: int, k: nat)
    requires
        reachable_avoiding(wh, wv, avoid, s, c, k),
    ensures
        0 <= c < 128,
    decreases k,
{
    if k > 0 && reachable_avoiding(wh, wv, avoid, s, c, (k - 1) as nat) {
        lemma_avoiding_in_range(wh, wv, avoid, s, c, (k - 1) as nat);
    }
}

/// The detour search mask after `k` rounds holds exactly the cells reachable within
/// `k` steps avoiding the marked cells.
proof fn lemma_avoid_mask(wh: u64, wv: u64, bl: u128, avoid: spec_fn(int) -> bool, s: int, k: nat)
    requires
        0 <= s < 128,
        forall|c: int| 0 <= c < 128 ==> #[trigger] has_cell(bl, c) == avoid(c),
    ensures
        forall|c: int| 0 <= c < 128 ==> #[trigger] has_cell(avoid_mask(wh, wv, bl, s, k), c) == reachable_avoiding(wh, wv, avoid, s, c, k),
    decreases k,
{
    if k == 0 {
        assert forall|c: int| 0 <= c < 128 implies #[trigger] has_cell(avoid_mask(wh, wv, bl, s, k), c) == reachable_avoiding(wh, wv, avoid, s, c, k) by {
            crate::bits::lemma_cell_single(s as u128, c);
        }
    } else {
        let prev = avoid_mask(wh, wv, bl, s, (k - 1) as nat);
        lemma_avoid_mask(wh, wv, bl, avoid, s, (k - 1) as nat);
        let b = blocker_masks(wh, wv);
        lemma_blocker_masks(wh, wv);
        lemma_flood_step(wh, wv, prev, b.0, b.1, b.2, b.3);
        let f = flood_step(prev, b.0, b.1, b.2, b.3);
        assert forall|c: int| 0 <= c < 128 implies #[trigger] has_cell(avoid_mask(wh, wv, bl, s, k), c) == reachable_avoiding(wh, wv, avoid, s, c, k) by {
            lemma_cell_ops(f, !bl, c);
            lemma_cell_ops(bl, bl, c);
            assert(has_cell(f, c) == grown_cell(wh, wv, prev, c));
            if grown_cell(wh, wv, prev, c) && !has_cell(prev, c) {
                let n = choose|n: int| #[trigger] can_step(wh, wv, n, c) && has_cell(prev, n);
                assert(can_step(wh, wv, n, c) && reachable_avoiding(wh, wv, avoid, s, n, (k - 1) as nat));
            }
            if reachable_avoiding(wh, wv, avoid, s, c, k) && !reachable_avoiding(wh, wv, avoid, s, c, (k - 1) as nat) {
                let n = choose|n: int| #[trigger] can_step(wh, wv, n, c) && reachable_avoiding(wh, wv, avoid, s, n, (k - 1) as nat);
                assert(can_step(wh, wv, n, c) && has_cell(prev, n));
            }
        }
    }
}

/// The search meets the goal mask after `k` rounds exactly when a goal cell is
/// reachable within `k` steps avoiding the marked cells.
proof fn lemma_avoid_goal(wh: u64, wv: u64, bl: u128, avoid: spec_fn(int) -> bool, s: int, player: int, k: nat)
    requires
        0 <= s < 128,
        0 <= player < 2,
        forall|c: int| 0 <= c < 128 ==> #[trigger] has_cell(bl, c) == avoid(c),
    ensures
        ((avoid_mask(wh, wv, bl, s, k) & goal_mask(player)) != 0) == goal_avoiding(wh, wv, avoid, s, player, k),
{
    let m = avoid_mask(wh, wv, bl, s, k);
    let g = goal_mask(player);
    lemma_avoid_mask(wh, wv, bl, avoid, s, k);
    if (m & g) != 0 {
        let c = lemma_masks_differ(m & g, 0);
        lemma_cell_ops(m, g, c);
        lemma_cell_ops(0, 0, c);
        lemma_edge_cells(c);
        assert(goal_cell(player, c) && reachable_avoiding(wh, wv, avoid, s, c, k));
    }
    if goal_avoiding(wh, wv, avoid, s, player, k) {
        let c = choose|c: int| goal_cell(player, c) && #[trigger] reachable_avoiding(wh, wv, avoid, s, c, k);
        lemma_avoiding_in_range(wh, wv, avoid, s, c, k);
        lemma_cell_ops(m, g, c);
        lemma_cell_ops(0, 0, c);
        lemma_edge_cells(c);
        assert(has_cell(m & g, c));
    }
}

/// Once a round of the search changes nothing, no later round does.
proof fn lemma_avoid_stays(wh: u64, wv: u64, bl: u128, s: int, j: nat, k: nat)
    requires
        j <= k,
        avoid_mask(wh, wv, bl, s, j + 1) == avoid_mask(wh, wv, bl, s, j),
    ensures
        avoid_mask(wh, wv, bl, s, k) == avoid_mask(wh, wv, bl, s, j),
    decreases k - j,
{
    if j < k {
        lemma_avoid_stays(wh, wv, bl, s, j, (k - 1) as nat);
        if k - 1 > j {
            assert(avoid_mask(wh, wv, bl, s, k) == avoid_mask(wh, wv, bl, s, (k - 1) as nat));
        }
    }
}

/// What the detour search returns, started at round `j` with `fuel` rounds left: when
/// it reports success, the goal mask is met at the round it reports and at no earlier
/// round from `j`; when it reports failure and the goal mask is met at some round from
/// `j` on, it is met before the fuel runs out (which the caller must rule out).
proof fn lemma_detour_rounds(wh: u64, wv: u64, t: u128, bl: u128, s: int, fuel: nat, j: nat)
    ensures
        ({
            let r = detour(wh, wv, t, bl, fuel, avoid_mask(wh, wv, bl, s, j), j as int);
            &&& r.0 ==> j <= r.1 < j + fuel && (avoid_mask(wh, wv, bl, s, r.1 as nat) & t) != 0
                && forall|i: nat| j <= i < r.1 ==> (#[trigger] avoid_mask(wh, wv, bl, s, i) & t) == 0
            &&& !r.0 ==> forall|i: nat| j <= i && (#[trigger] avoid_mask(wh, wv, bl, s, i) & t) != 0 ==> i >= j + fuel
        }),
    decreases fuel,
{
    let m = avoid_mask(wh, wv, bl, s, j);
    if fuel > 0 && (m & t) == 0 {
        let b = blocker_masks(wh, wv);
        let next = flood_step(m, b.0, b.1, b.2, b.3) & !bl;
        assert(next == avoid_mask(wh, wv, bl, s, j + 1));
        if next == m {
            assert forall|i: nat| j <= i && (#[trigger] avoid_mask(wh, wv, bl, s, i) & t) != 0 implies i >= j + fuel by {
                lemma_avoid_stays(wh, wv, bl, s, j, i);
            }
        } else {
            lemma_detour_rounds(wh, wv, t, bl, s, (fuel - 1) as nat, j + 1);
        }
    }
}

/// From a board cell, only board cells are reached.
proof fn lemma_avoiding_on_board(wh: u64, wv: u64, avoid: spec_fn(int) -> bool, s: int, c: int, k: nat)
    requires
        0 <= s < 81,
        reachable_avoiding(wh, wv, avoid, s, c, k),
    ensures
        0 <= c < 81,
    decreases k,
{
    if k > 0 {
        if reachable_avoiding(wh, wv, avoid, s, c, (k - 1) as nat) {
            lemma_avoiding_on_board(wh, wv, avoid, s, c, (k - 1) as nat);
        } else {
            let n = choose|n: int| #[trigger] can_step(wh, wv, n, c) && reachable_avoiding(wh, wv, avoid, s, n, (k - 1) as nat);
            lemma_avoiding_on_board(wh, wv, avoid, s, n, (k - 1) as nat);
            lemma_step_on_board(wh, wv, n, c);
        }
    }
}

/// From round 1 on, each round of the search keeps the cells of the round before and
/// holds board cells only; a round that changes the mask adds a cell.
proof fn lemma_avoid_grows(wh: u64, wv: u64, bl: u128, avoid: spec_fn(int) -> bool, s: int, k: nat)
    requires
        0 <= s < 81,
        k >= 1,
        forall|c: int| 0 <= c < 128 ==> #[trigger] has_cell(bl, c) == avoid(c),
    ensures
        cells_of(avoid_mask(wh, wv, bl, s, k)).subset_of(set_int_range(0, 81)),
        cells_of(avoid_mask(wh, wv, bl, s, k)).finite(),
        cells_of(avoid_mask(wh, wv, bl, s, k)).len() <= 81,
        avoid_mask(wh, wv, bl, s, k + 1) != avoid_mask(wh, wv, bl, s, k) ==> cells_of(avoid_mask(wh, wv, bl, s, k + 1)).len()
            >= cells_of(avoid_mask(wh, wv, bl, s, k)).len() + 1,
{
    let m = avoid_mask(wh, wv, bl, s, k);
    let m2 = avoid_mask(wh, wv, bl, s, k + 1);
    lemma_avoid_mask(wh, wv, bl, avoid, s, k);
    lemma_avoid_mask(wh, wv, bl, avoid, s, k + 1);
    assert forall|c: int| cells_of(m).contains(c) implies set_int_range(0, 81).contains(c) by {
        lemma_avoiding_on_board(wh, wv, avoid, s, c, k);
    }
    assert forall|c: int| cells_of(m2).contains(c) implies set_int_range(0, 81).contains(c) by {
        lemma_avoiding_on_board(wh, wv, avoid, s, c, k + 1);
    }
    lemma_int_range(0, 81);
    lemma_len_subset(cells_of(m), set_int_range(0, 81));
    lemma_len_subset(cells_of(m2), set_int_range(0, 81));
    if m2 != m {
        let c = lemma_masks_differ(m2, m);
        assert forall|x: int| cells_of(m).contains(x) implies cells_of(m2).contains(x) by {
            assert(reachable_avoiding(wh, wv, avoid, s, x, k));
        }
        if has_cell(m, c) {
            assert(reachable_avoiding(wh, wv, avoid, s, c, k));
            assert(reachable_avoiding(wh, wv, avoid, s, c, k + 1));
        }
        assert(cells_of(m2).contains(c) && !cells_of(m).contains(c));
        cells_of(m).lemma_subset_not_in_lt(cells_of(m2), c);
    }
}

/// While the search keeps changing, round `k` holds at least `k - 1` cells.
proof fn lemma_avoid_count(wh: u64, wv: u64, bl: u128, avoid: spec_fn(int) -> bool, s: int, k: nat)
    requires
        0 <= s < 81,
        k >= 1,
        forall|c: int| 0 <= c < 128 ==> #[trigger] has_cell(bl, c) == avoid(c),
        forall|i: nat| 1 <= i < k ==> #[trigger] avoid_mask(wh, wv, bl, s, i + 1) != avoid_mask(wh, wv, bl, s, i),
    ensures
        cells_of(avoid_mask(wh, wv, bl, s, k)).len() >= k - 1,
    decreases k,
{
    if k > 1 {
        lemma_avoid_count(wh, wv, bl, avoid, s, (k - 1) as nat);
        lemma_avoid_grows(wh, wv, bl, avoid, s, (k - 1) as nat);
        assert(avoid_mask(wh, wv, bl, s, ((k - 1) as nat + 1) as nat) != avoid_mask(wh, wv, bl, s, (k - 1) as nat));
    }
}

/// The search settles within 82 rounds: if the goal mask is ever met, it is met at
/// round 82 or before.
proof fn lemma_avoid_settles(wh: u64, wv: u64, bl: u128, avoid: spec_fn(int) -> bool, s: int, t: u128, i: nat)
    requires
        0 <= s < 81,
        forall|c: int| 0 <= c < 128 ==> #[trigger] has_cell(bl, c) == avoid(c),
        (avoid_mask(wh, wv, bl, s, i) & t) != 0,
    ensures
        exists|i2: nat| i2 <= 82 && (#[trigger] avoid_mask(wh, wv, bl, s, i2) & t) != 0,
{
    if i > 82 {
        if forall|j: nat| 1 <= j < 83 ==> #[trigger] avoid_mask(wh, wv, bl, s, j + 1) != avoid_mask(wh, wv, bl, s, j) {
            lemma_avoid_count(wh, wv, bl, avoid, s, 83);
            lemma_avoid_grows(wh, wv, bl, avoid, s, 83);
            assert(false);
        } else {
            let j = choose|j: nat| 1 <= j < 83 && !(#[trigger] avoid_mask(wh, wv, bl, s, j + 1) != avoid_mask(wh, wv, bl, s, j));
            lemma_avoid_stays(wh, wv, bl, s, j, i);
            assert((avoid_mask(wh, wv, bl, s, j) & t) != 0);
        }
    } else {
        assert((avoid_mask(wh, wv, bl, s, i) & t) != 0);
    }
}

/// What the detour search finds: started from a board cell `s` with the cells of `bl`
/// (those `avoid` marks) removed, it reports success exactly when some goal cell of
/// `player` can be reached from `s` without entering a removed cell, and then it
/// reports the fewest steps such a walk takes.
pub proof fn lemma_detour_meaning(wh: u64, wv: u64, bl: u128, avoid: spec_fn(int) -> bool, s: int, player: int)
    requires
        0 <= s < 81,
        0 <= player < 2,
        forall|c: int| 0 <= c < 128 ==> #[trigger] has_cell(bl, c) == avoid(c),
    ensures
        ({
            let r = detour(wh, wv, goal_mask(player), bl, 100, 1u128 << (s as u128), 0);
            &&& r.0 == exists|k: nat| #[trigger] goal_avoiding(wh, wv, avoid, s, player, k)
            &&& r.0 ==> {
                &&& 0 <= r.1
                &&& goal_avoiding(wh, wv, avoid, s, player, r.1 as nat)
                &&& forall|k: nat| k < r.1 ==> !#[trigger] goal_avoiding(wh, wv, avoid, s, player, k)
            }
        }),
{
    let t = goal_mask(player);
    lemma_detour_rounds(wh, wv, t, bl, s, 100, 0);
    assert(avoid_mask(wh, wv, bl, s, 0) == 1u128 << (s as u128));
    let r = detour(wh, wv, t, bl, 100, 1u128 << (s as u128), 0);
    assert forall|k: nat| #[trigger] goal_avoiding(wh, wv, avoid, s, player, k) == ((avoid_mask(wh, wv, bl, s, k) & t) != 0) by {
        lemma_avoid_goal(wh, wv, bl, avoid, s, player, k);
    }
    if r.0 {
        assert(goal_avoiding(wh, wv, avoid, s, player, r.1 as nat));
        assert forall|k: nat| k < r.1 implies !#[trigger] goal_avoiding(wh, wv, avoid, s, player, k) by {
            assert((avoid_mask(wh, wv, bl, s, k) & t) == 0);
        }
    } else {
        if exists|k: nat| #[trigger] goal_avoiding(wh, wv, avoid, s, player, k) {
            let k = choose|k: nat| #[trigger] goal_avoiding(wh, wv, avoid, s, player, k);
            lemma_avoid_settles(wh, wv, bl, avoid, s, t, k);
            let i2 = choose|i2: nat| i2 <= 82 && (#[trigger] avoid_mask(wh, wv, bl, s, i2) & t) != 0;
            assert(i2 >= 100);
        }
    }
}

/// The path cells `d` steps from the start (see `on_path`).
pub open spec fn layer_cells(wh: u64, wv: u64, s: int, player: int, dist: int, d: int) -> Set<int> {
    Set::new(|c: int| on_path(wh, wv, s, player, dist, d, c))
}

/// The path layer `d` steps out is a bottleneck: it has at most two cells.
pub open spec fn is_bottleneck(wh: u64, wv: u64, s: int, player: int, dist: int, d: int) -> bool {
    layer_cells(wh, wv, s, player, dist, d).len() <= 2
}

/// A walk of at most `k` steps from the start to the goal row avoids the path cells
/// `d` steps out.
pub open spec fn detour_in(wh: u64, wv: u64, s: int, player: int, dist: int, d: int, k: nat) -> bool {
    goal_avoiding(wh, wv, |c: int| on_path(wh, wv, s, player, dist, d, c), s, player, k)
}

/// Some walk from the start to the goal row avoids the path cells `d` steps out.
pub open spec fn has_detour(wh: u64, wv: u64, s: int, player: int, dist: int, d: int) -> bool {
    exists|k: nat| #[trigger] detour_in(wh, wv, s, player, dist, d, k)
}

/// The fewest steps of a walk from the start to the goal row that avoids the path
/// cells `d` steps out.
pub open spec fn detour_len(wh: u64, wv: u64, s: int, player: int, dist: int, d: int) -> int {
    (choose|k: nat| #[trigger] detour_in(wh, wv, s, player, dist, d, k) && forall|j: nat| j < k ==> !#[trigger] detour_in(
        wh,
        wv,
        s,
        player,
        dist,
        d,
        j,
    )) as int
}

/// Some bottleneck among the path layers `d` down to 0 steps out cannot be walked
/// around.
pub open spec fn immune_from(wh: u64, wv: u64, s: int, player: int, dist: int, d: int) -> bool {
    exists|e: int| 0 <= e <= d && #[trigger] is_bottleneck(wh, wv, s, player, dist, e) && !has_detour(wh, wv, s, player, dist, e)
}

/// The largest detour cost (fewest detour steps minus the distance) over the
/// bottlenecks met walking back from `d` steps out towards the start, stopping at the
/// first bottleneck that cannot be walked around, starting from `acc`.
pub open spec fn max_cost(wh: u64, wv: u64, s: int, player: int, dist: int, d: int, acc: int) -> int
    decreases d + 1,
{
    if d < 0 {
        acc
    } else if is_bottleneck(wh, wv, s, player, dist, d) && !has_detour(wh, wv, s, player, dist, d) {
        acc
    } else if is_bottleneck(wh, wv, s, player, dist, d) {
        let cost = detour_len(wh, wv, s, player, dist, d) - dist;
        max_cost(wh, wv, s, player, dist, d - 1, if cost > acc { cost } else { acc })
    } else {
        max_cost(wh, wv, s, player, dist, d - 1, acc)
    }
}

/// Walking the shortest paths back gathers `max_cost` and `immune_from`.
proof fn lemma_backtrack_bottlenecks(
    wh: u64,
    wv: u64,
    s: int,
    player: int,
    dist: int,
    d: int,
    pm: u128,
    max_delta: int,
    tunnels: int,
    immune: bool,
)
    requires
        0 <= s < 81,
        0 <= player < 2,
        -1 <= d < dist,
        forall|c: int| 0 <= c < 128 ==> #[trigger] has_cell(pm, c) == on_path(wh, wv, s, player, dist, d + 1, c),
    ensures
        ({
            let r = backtrack(wh, wv, s, goal_mask(player), dist, d, pm, max_delta, tunnels, immune);
            &&& immune ==> r.0 == max_delta && r.2
            &&& !immune ==> r.0 == max_cost(wh, wv, s, player, dist, d, max_delta) && r.2 == immune_from(
                wh,
                wv,
                s,
                player,
                dist,
                d,
            )
        }),
    decreases d + 1,
{
    if d >= 0 {
        let target = goal_mask(player);
        let b = blocker_masks(wh, wv);
        let f1 = flood_step(pm, b.0, b.1, b.2, b.3);
        let l1 = layer_mask(wh, wv, s, d as nat);
        let pm2 = f1 & l1;
        lemma_path_layer_mask(wh, wv, s, player, dist, d, pm);
        assert(cells_of(pm2) =~= layer_cells(wh, wv, s, player, dist, d));
        let avoid = |c: int| on_path(wh, wv, s, player, dist, d, c);
        lemma_detour_meaning(wh, wv, pm2, avoid, s, player);
        let det = detour(wh, wv, target, pm2, 100, 1u128 << (s as u128), 0);
        assert forall|k: nat| #[trigger] detour_in(wh, wv, s, player, dist, d, k) == goal_avoiding(wh, wv, avoid, s, player, k) by {
        }
        assert(det.0 == has_detour(wh, wv, s, player, dist, d)) by {
            if det.0 {
                assert(detour_in(wh, wv, s, player, dist, d, det.1 as nat));
            }
            if has_detour(wh, wv, s, player, dist, d) {
                let k = choose|k: nat| #[trigger] detour_in(wh, wv, s, player, dist, d, k);
                assert(goal_avoiding(wh, wv, avoid, s, player, k));
            }
        }
        if det.0 {
            let k = detour_len(wh, wv, s, player, dist, d);
            assert(detour_in(wh, wv, s, player, dist, d, det.1 as nat) && forall|j: nat| j < det.1 ==> !#[trigger] detour_in(wh, wv, s, player, dist, d, j));
            assert(k >= 0 && detour_in(wh, wv, s, player, dist, d, k as nat) && forall|j: nat| j < k ==> !#[trigger] detour_in(wh, wv, s, player, dist, d, j));
            if k < det.1 {
                assert(!detour_in(wh, wv, s, player, dist, d, k as nat));
            }
            if det.1 < k {
                assert(!detour_in(wh, wv, s, player, dist, d, det.1 as nat));
            }
            assert(det.1 == k);
        }
        let walled_left = (pm2 & !b.2) == 0;
        let walled_right = (pm2 & !b.3) == 0;
        let walled_up = (pm2 & !b.0) == 0;
        let walled_down = (pm2 & !b.1) == 0;
        let tunnels2 = if (walled_left && walled_right) || (walled_up && walled_down) {
            tunnels + 1
        } else {
            tunnels
        };
        let check = cells_of(pm2).len() <= 2 && !immune;
        let immune2 = if check && !det.0 {
            true
        } else {
            immune
        };
        let max_delta2 = if check && det.0 && det.1 - dist > max_delta {
            det.1 - dist
        } else {
            max_delta
        };
        lemma_backtrack_bottlenecks(wh, wv, s, player, dist, d - 1, pm2, max_delta2, tunnels2, immune2);
        if !immune {
            if is_bottleneck(wh, wv, s, player, dist, d) && !has_detour(wh, wv, s, player, dist, d) {
                assert(immune_from(wh, wv, s, player, dist, d));
            } else {
                assert(immune_from(wh, wv, s, player, dist, d) == immune_from(wh, wv, s, player, dist, d - 1)) by {
                    if immune_from(wh, wv, s, player, dist, d) {
                        let e = choose|e: int| 0 <= e <= d && #[trigger] is_bottleneck(wh, wv, s, player, dist, e) && !has_detour(wh, wv, s, player, dist, e);
                        assert(e != d);
                    }
                }
            }
        }
    }
}

/// The detour cost and immunity that `get_distances` gives a player whose pawn stands
/// on a board cell with a path to the goal row. Walking the layers of its shortest
/// paths back from the goal row, a layer of at most two path cells is a bottleneck.
/// The player is immune exactly when some bottleneck cannot be walked around (no walk
/// from the pawn to the goal row avoids its cells). The detour cost is the largest,
/// over the bottlenecks met before the first one that cannot be walked around, of the
/// fewest steps of a walk around it minus the distance, and 0 when none is larger.
pub proof fn lemma_bottleneck_metrics(wh: u64, wv: u64, s: int, player: int, r: (i32, u32, i32, u32, bool))
    requires
        0 <= s < 81,
        0 <= player < 2,
        path_metrics(wh, wv, s, player, r),
        path_to_goal(wh, wv, s, player),
    ensures
        r.4 == immune_from(wh, wv, s, player, r.0 as int, r.0 - 1),
        r.2 == max_cost(wh, wv, s, player, r.0 as int, r.0 - 1, 0),
{
    let dist = r.0 as int;
    let g = goal_mask(player);
    let l = layer_mask(wh, wv, s, dist as nat);
    lemma_layer_mask(wh, wv, s, dist as nat);
    assert forall|c: int| 0 <= c < 128 implies #[trigger] has_cell(l & g, c) == on_path(wh, wv, s, player, dist, dist, c) by {
        lemma_cell_ops(l, g, c);
        lemma_edge_cells(c);
    }
    lemma_backtrack_bottlenecks(wh, wv, s, player, dist, dist - 1, l & g, 0, 0, false);
}

} // verus!
