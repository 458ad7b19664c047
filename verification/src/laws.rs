//! Properties that span several operations of the library.

use vstd::prelude::*;
use crate::bits::{bit64, has_wall, lemma_set_bits_facts, lemma_wall_set_ext, set_bits, set_bits_below};
use crate::state::{move_args_ok, GameState};
use crate::movegen::{
    blocked, cell_move, dir_moves, dir_offset, h_free_mask, h_slot_free, legal_walls, lemma_free_masks,
    pawn_moves, v_free_mask, v_slot_free, wall_move, wall_moves, Move,
};
use crate::reach::{can_step, goal_cell, path_metrics, path_to_goal, reachable_within};
use crate::fen::{token_wall_idx, utf8_len, walls_scan, fen_board, turn_word, walls_field, board_text, decimal, fen_loadable, fen_result, fen_text, join, lacks, lemma_board_concat, lemma_board_text, lemma_decimal, lemma_join_board, lemma_or_set_bits, lemma_parse_decimal, lemma_plain_board, lemma_plain_text, lemma_pos_text, lemma_split_join, lemma_split_on_concat, lemma_split_on_single, lemma_split_two_words, lemma_walls_scan_texts, lemma_wall_text, no_white_space, pos_text, split_on, split_whitespace, walls_of_field, wall_text, wall_texts, wall_token_ok};
use crate::zobrist::{
    key_p0, key_p1, key_turn, key_wall, turn_key, xor_wall_keys, zobrist_hash, lemma_xor_wall_add,
};

verus! {

proof fn lemma_or_bit(w: u64, idx: u64, j: u64)
    by (bit_vector)
    requires
        idx < 64,
        j < 64,
    ensures
        bit64(w | (1u64 << idx), j) == (bit64(w, j) || j == idx),
        !bit64(0u64, j),
{
}

proof fn lemma_xor_wall(a: u64, b: u64, c: u64, d: u64, t: u64, tk: u64, k: u64)
    by (bit_vector)
    ensures
        ((a ^ b ^ c ^ d ^ t) ^ tk) ^ k == a ^ b ^ (c ^ k) ^ d ^ (t ^ tk),
        ((a ^ b ^ c ^ d ^ t) ^ tk) ^ k == a ^ b ^ c ^ (d ^ k) ^ (t ^ tk),
{
}

proof fn lemma_xor_pawn(a: u64, b: u64, c: u64, d: u64, t: u64, tk: u64, n: u64)
    by (bit_vector)
    ensures
        ((a ^ b ^ c ^ d ^ t) ^ tk) ^ (a ^ n) == n ^ b ^ c ^ d ^ (t ^ tk),
        ((a ^ b ^ c ^ d ^ t) ^ tk) ^ (b ^ n) == a ^ n ^ c ^ d ^ (t ^ tk),
        0u64 ^ tk == tk,
        tk ^ tk == 0u64,
        a ^ 0u64 == a,
{
}

proof fn lemma_turn_key_flip(turn: int)
    requires
        0 <= turn < 2,
    ensures
        turn_key(1 - turn) == turn_key(turn) ^ key_turn(),
{
    lemma_xor_pawn(0, 0, 0, 0, 0, key_turn(), 0);
}

/// The fold over the set bits of a wall set with one more wall.
proof fn lemma_xor_wall_added(w: u64, idx: int, horizontal: bool)
    requires
        0 <= idx < 64,
        !has_wall(w, idx),
    ensures
        xor_wall_keys(set_bits(w | (1u64 << (idx as u64))), horizontal) == xor_wall_keys(set_bits(w), horizontal) ^ key_wall(horizontal, idx),
{
    assert forall|j: int| 0 <= j < 64 implies #[trigger] has_wall(w | (1u64 << (idx as u64)), j) == (has_wall(w, j) || j == idx) by {
        lemma_or_bit(w, idx as u64, j as u64);
    }
    lemma_xor_wall_add(w, idx, horizontal, 64);
}

proof fn lemma_no_walls(n: nat)
    requires
        n <= 64,
    ensures
        set_bits_below(0u64, n) == Seq::<int>::empty(),
    decreases n,
{
    if n > 0 {
        lemma_or_bit(0, 0, (n - 1) as u64);
        lemma_no_walls((n - 1) as nat);
    }
}

/// The hash of the starting position is the Zobrist hash of that position.
pub proof fn lemma_initial_hash()
    ensures
        GameState::initial_spec().hash_consistent(),
        GameState::initial_spec().wf(),
{
    lemma_no_walls(64);
    assert(xor_wall_keys(set_bits(0u64), true) == 0);
    assert(xor_wall_keys(set_bits(0u64), false) == 0);
    let ab = key_p0(4) ^ key_p1(76);
    lemma_xor_pawn(ab, 0, 0, 0, 0, 0, 0);
    lemma_xor_pawn(ab ^ 0u64, 0, 0, 0, 0, 0, 0);
    lemma_xor_pawn(ab ^ 0u64 ^ 0u64, 0, 0, 0, 0, 0, 0);
}

/// Playing a move keeps the stored hash equal to the Zobrist hash of the position,
/// as long as a wall move puts its wall on a slot that holds none: the hash updated
/// move by move is the hash of the position reached, whatever the order of moves.
pub proof fn lemma_apply_keeps_hash(s: GameState, move_type: u8, x: u8, y: u8)
    requires
        s.wf(),
        s.hash_consistent(),
        move_args_ok(s, move_type, x, y),
        move_type == 1 ==> !has_wall(s.walls_v, y * 8 + x),
        move_type == 2 ==> !has_wall(s.walls_h, y * 8 + x),
    ensures
        s.applied(move_type, x, y).hash_consistent(),
        s.applied(move_type, x, y).wf(),
{
    let n = s.applied(move_type, x, y);
    let a = key_p0(s.positions[0] as int);
    let b = key_p1(s.positions[1] as int);
    let c = xor_wall_keys(set_bits(s.walls_h), true);
    let d = xor_wall_keys(set_bits(s.walls_v), false);
    let t = turn_key(s.player_to_move as int);
    let tk = key_turn();
    lemma_turn_key_flip(s.player_to_move as int);
    assert(turn_key(n.player_to_move as int) == t ^ tk);
    if move_type == 0 {
        let np = y * 9 + x;
        if s.player_to_move == 0 {
            lemma_xor_pawn(a, b, c, d, t, tk, key_p0(np));
        } else {
            lemma_xor_pawn(a, b, c, d, t, tk, key_p1(np));
        }
    } else if move_type == 1 {
        let idx = y * 8 + x;
        lemma_xor_wall_added(s.walls_v, idx, false);
        lemma_xor_wall(a, b, c, d, t, tk, key_wall(false, idx));
    } else {
        let idx = y * 8 + x;
        lemma_xor_wall_added(s.walls_h, idx, true);
        lemma_xor_wall(a, b, c, d, t, tk, key_wall(true, idx));
    }
}

/// The wall texts of a position: each is readable, holds no separator and is plain.
proof fn lemma_wall_parts(s: GameState)
    ensures
        forall|i: int|
            0 <= i < (wall_texts(s.walls_h, true) + wall_texts(s.walls_v, false)).len() ==> {
                let t = #[trigger] (wall_texts(s.walls_h, true) + wall_texts(s.walls_v, false))[i];
                &&& lacks(t, ',')
                &&& board_text(t)
                &&& lacks(t, '/')
                &&& wall_token_ok(t)
                &&& t.len() > 0
            },
{
    let th = wall_texts(s.walls_h, true);
    let tv = wall_texts(s.walls_v, false);
    let parts = th + tv;
    crate::bits::lemma_set_bits_facts(s.walls_h, 64);
    crate::bits::lemma_set_bits_facts(s.walls_v, 64);
    assert forall|i: int| 0 <= i < parts.len() implies {
        let t = #[trigger] parts[i];
        &&& lacks(t, ',')
        &&& board_text(t)
        &&& lacks(t, '/')
        &&& wall_token_ok(t)
        &&& t.len() > 0
    } by {
        if i < th.len() {
            lemma_wall_text(set_bits(s.walls_h)[i], true);
            assert(parts[i] == wall_text(set_bits(s.walls_h)[i], true));
        } else {
            lemma_wall_text(set_bits(s.walls_v)[i - th.len()], false);
            assert(parts[i] == wall_text(set_bits(s.walls_v)[i - th.len()], false));
        }
        lemma_plain_text(parts[i]);
        lemma_plain_board(parts[i]);
    }
}

/// The FEN text of a position is its board word and its turn word.
proof fn lemma_fen_words(s: GameState)
    requires
        s.wf(),
    ensures
        split_whitespace(fen_text(s)) == seq![fen_board(s), turn_word(s)],
{
    let a0 = pos_text(s.positions[0] as int);
    let a1 = pos_text(s.positions[1] as int);
    let d0 = decimal(s.walls_left[0] as nat);
    let d1 = decimal(s.walls_left[1] as nat);
    let w = walls_field(s);
    let sl = seq!['/'];
    lemma_pos_text(s.positions[0] as int);
    lemma_pos_text(s.positions[1] as int);
    lemma_decimal(s.walls_left[0] as nat);
    lemma_decimal(s.walls_left[1] as nat);
    lemma_wall_parts(s);
    lemma_join_board(wall_texts(s.walls_h, true) + wall_texts(s.walls_v, false));
    lemma_plain_board(a0);
    lemma_plain_board(a1);
    lemma_plain_board(d0);
    lemma_plain_board(d1);
    assert(board_text(sl));
    lemma_board_concat(a0, sl);
    lemma_board_concat(a0 + sl, a1);
    lemma_board_concat(a0 + sl + a1, sl);
    lemma_board_concat(a0 + sl + a1 + sl, d0);
    lemma_board_concat(a0 + sl + a1 + sl + d0, sl);
    lemma_board_concat(a0 + sl + a1 + sl + d0 + sl, d1);
    lemma_board_concat(a0 + sl + a1 + sl + d0 + sl + d1, sl);
    lemma_board_concat(a0 + sl + a1 + sl + d0 + sl + d1 + sl, w);
    lemma_board_text(fen_board(s));
    let turn = turn_word(s);
    assert(no_white_space(turn)) by {
        assert forall|i: int| 0 <= i < turn.len() implies !crate::fen::is_white_space(#[trigger] turn[i]) by {}
    }
    lemma_split_two_words(fen_board(s), turn);
}

/// The board word of a position splits into its five fields.
proof fn lemma_fen_fields(s: GameState)
    requires
        s.wf(),
    ensures
        split_on(fen_board(s), '/') == seq![
            pos_text(s.positions[0] as int),
            pos_text(s.positions[1] as int),
            decimal(s.walls_left[0] as nat),
            decimal(s.walls_left[1] as nat),
            walls_field(s),
        ],
{
    let a0 = pos_text(s.positions[0] as int);
    let a1 = pos_text(s.positions[1] as int);
    let d0 = decimal(s.walls_left[0] as nat);
    let d1 = decimal(s.walls_left[1] as nat);
    let w = walls_field(s);
    let sl = seq!['/'];
    lemma_pos_text(s.positions[0] as int);
    lemma_pos_text(s.positions[1] as int);
    lemma_decimal(s.walls_left[0] as nat);
    lemma_decimal(s.walls_left[1] as nat);
    lemma_plain_text(a0);
    lemma_plain_text(a1);
    lemma_plain_text(d0);
    lemma_plain_text(d1);
    lemma_wall_parts(s);
    lemma_join_no_slash(wall_texts(s.walls_h, true) + wall_texts(s.walls_v, false));
    lemma_split_on_single(a0, '/');
    lemma_split_on_single(a1, '/');
    lemma_split_on_single(d0, '/');
    lemma_split_on_single(d1, '/');
    lemma_split_on_single(w, '/');
    lemma_split_on_concat(d1, w, '/');
    lemma_split_on_concat(d0, d1 + sl + w, '/');
    lemma_split_on_concat(a1, d0 + sl + (d1 + sl + w), '/');
    lemma_split_on_concat(a0, a1 + sl + (d0 + sl + (d1 + sl + w)), '/');
    assert(fen_board(s) =~= a0 + sl + (a1 + sl + (d0 + sl + (d1 + sl + w))));
    assert(split_on(fen_board(s), '/') =~= seq![a0, a1, d0, d1, w]);
}

/// The walls field reads back as the wall sets, and each of its wall texts is readable.
proof fn lemma_fen_walls(s: GameState)
    ensures
        walls_of_field(walls_field(s)) == (s.walls_h, s.walls_v),
        walls_field(s).len() > 0 ==> forall|i: int|
            0 <= i < split_on(walls_field(s), ',').len() ==> wall_token_ok(#[trigger] split_on(walls_field(s), ',')[i]),
{
    let th = wall_texts(s.walls_h, true);
    let tv = wall_texts(s.walls_v, false);
    let parts = th + tv;
    let w = walls_field(s);
    lemma_wall_parts(s);
    if w.len() > 0 {
        if parts.len() == 0 {
            assert(w.len() == 0);
        }
        lemma_split_join(parts, ',');
    }
    lemma_walls_scan_texts(s.walls_h, s.walls_v, parts.len());
    lemma_or_set_bits(s.walls_h);
    lemma_or_set_bits(s.walls_v);
    if w.len() == 0 {
        lemma_join_empty(parts);
        assert(th.len() == 0 && tv.len() == 0);
    }
}

/// Reading back the FEN text of a position gives the position, with the hash
/// recomputed from scratch; for a position whose hash is consistent, exactly the
/// position. Every position's FEN text can be read without panicking.
pub proof fn lemma_fen_roundtrip(s: GameState)
    requires
        s.wf(),
    ensures
        fen_loadable(fen_text(s)),
        fen_result(fen_text(s)) == Ok::<GameState, crate::fen::FenError>(
            GameState {
                hash: zobrist_hash(
                    s.positions[0] as int,
                    s.positions[1] as int,
                    s.walls_h,
                    s.walls_v,
                    s.player_to_move as int,
                ),
                ..s
            },
        ),
        s.hash_consistent() ==> fen_result(fen_text(s)) == Ok::<GameState, crate::fen::FenError>(s),
{
    lemma_fen_words(s);
    lemma_fen_fields(s);
    lemma_fen_walls(s);
    lemma_pos_text(s.positions[0] as int);
    lemma_pos_text(s.positions[1] as int);
    lemma_parse_decimal(s.walls_left[0]);
    lemma_parse_decimal(s.walls_left[1]);
    let turn = turn_word(s);
    if s.player_to_move != 0 {
        assert(turn != seq!['R']) by {
            assert(turn[0] == 'B');
        }
    }
    let r = fen_result(fen_text(s));
    assert(r.unwrap().positions =~= s.positions);
    assert(r.unwrap().walls_left =~= s.walls_left);
}

/// The joined wall texts hold no `/`.
proof fn lemma_join_no_slash(parts: Seq<Seq<char>>)
    requires
        forall|i: int| 0 <= i < parts.len() ==> lacks(#[trigger] parts[i], '/'),
    ensures
        lacks(join(parts, ','), '/'),
    decreases parts.len(),
{
    if parts.len() >= 2 {
        lemma_join_no_slash(parts.drop_last());
        let j = join(parts.drop_last(), ',');
        let r = j.push(',') + parts.last();
        assert forall|i: int| 0 <= i < r.len() implies #[trigger] r[i] != '/' by {
            if i < j.len() {
                assert(r[i] == j[i]);
            } else if i > j.len() {
                assert(r[i] == parts.last()[i - j.len() - 1]);
            }
        }
    }
}

/// Joining non-empty pieces gives an empty text only when there is no piece.
proof fn lemma_join_empty(parts: Seq<Seq<char>>)
    requires
        forall|i: int| 0 <= i < parts.len() ==> (#[trigger] parts[i]).len() > 0,
        join(parts, ',').len() == 0,
    ensures
        parts.len() == 0,
{
    if parts.len() == 1 {
        assert(parts[0].len() > 0);
    }
}

/// A step not blocked by a wall or edge stays on the board.
proof fn lemma_step_on_board(wh: u64, wv: u64, dir: int, c: int)
    requires
        0 <= c < 81,
        0 <= dir < 4,
        !blocked(wh, wv, dir, c),
    ensures
        0 <= c + dir_offset(dir) < 81,
{
}

/// The pawn moves in one direction land on board cells other than the opponent's.
proof fn lemma_dir_moves(wh: u64, wv: u64, pos: int, opp: int, dir: int, side1: int, side2: int)
    requires
        0 <= pos < 81,
        0 <= opp < 81,
        0 <= dir < 4,
        0 <= side1 < 4,
        0 <= side2 < 4,
        dir_offset(side1) != 0,
        dir_offset(side2) != 0,
    ensures
        forall|k: int| 0 <= k < dir_moves(wh, wv, pos, opp, dir, side1, side2).len() ==> exists|c: int|
            0 <= c < 81 && c != opp && #[trigger] dir_moves(wh, wv, pos, opp, dir, side1, side2)[k]
                == cell_move(c),
{
    let r = dir_moves(wh, wv, pos, opp, dir, side1, side2);
    assert forall|k: int| 0 <= k < r.len() implies exists|c: int| 0 <= c < 81 && c != opp && #[trigger] r[k] == cell_move(c) by {
        if !blocked(wh, wv, dir, pos) {
            lemma_step_on_board(wh, wv, dir, pos);
            if pos + dir_offset(dir) != opp {
                assert(r[k] == cell_move(pos + dir_offset(dir)));
            } else if !blocked(wh, wv, dir, opp) {
                lemma_step_on_board(wh, wv, dir, opp);
                assert(r[k] == cell_move(opp + dir_offset(dir)));
            } else {
                let a = if !blocked(wh, wv, side1, opp) { seq![cell_move(opp + dir_offset(side1))] } else { Seq::<Move>::empty() };
                if !blocked(wh, wv, side1, opp) {
                    lemma_step_on_board(wh, wv, side1, opp);
                }
                if !blocked(wh, wv, side2, opp) {
                    lemma_step_on_board(wh, wv, side2, opp);
                }
                if k < a.len() {
                    assert(r[k] == cell_move(opp + dir_offset(side1)));
                } else {
                    assert(r[k] == cell_move(opp + dir_offset(side2)));
                }
            }
        }
    }
}

/// The pawn moves in one direction number at most one, unless the opponent stands
/// next to the pawn in that direction; then at most two.
proof fn lemma_dir_moves_len(wh: u64, wv: u64, pos: int, opp: int, dir: int, side1: int, side2: int)
    ensures
        dir_moves(wh, wv, pos, opp, dir, side1, side2).len() <= if pos + dir_offset(dir) == opp { 2int } else { 1int },
{
}

/// A pawn has at most five moves: one per direction, and two diagonal jumps instead
/// of one step toward an adjacent opponent.
pub proof fn lemma_pawn_moves_at_most_five(s: GameState, player: int)
    requires
        0 <= player < 2,
    ensures
        pawn_moves(s, player).len() <= 5,
{
    let pos = s.positions[player] as int;
    let opp = s.positions[1 - player] as int;
    let wh = s.walls_h;
    let wv = s.walls_v;
    lemma_dir_moves_len(wh, wv, pos, opp, 0, 2, 3);
    lemma_dir_moves_len(wh, wv, pos, opp, 1, 2, 3);
    lemma_dir_moves_len(wh, wv, pos, opp, 2, 0, 1);
    lemma_dir_moves_len(wh, wv, pos, opp, 3, 0, 1);
}

/// Every pawn move lands on a board cell other than the opponent's.
pub proof fn lemma_pawn_moves_on_board(s: GameState, player: int)
    requires
        s.wf(),
        0 <= player < 2,
    ensures
        forall|k: int| 0 <= k < pawn_moves(s, player).len() ==> exists|c: int|
            0 <= c < 81 && c != s.positions[1 - player] && #[trigger] pawn_moves(s, player)[k] == cell_move(c),
{
    let pos = s.positions[player] as int;
    let opp = s.positions[1 - player] as int;
    let wh = s.walls_h;
    let wv = s.walls_v;
    let m0 = dir_moves(wh, wv, pos, opp, 0, 2, 3);
    let m1 = dir_moves(wh, wv, pos, opp, 1, 2, 3);
    let m2 = dir_moves(wh, wv, pos, opp, 2, 0, 1);
    let m3 = dir_moves(wh, wv, pos, opp, 3, 0, 1);
    lemma_dir_moves(wh, wv, pos, opp, 0, 2, 3);
    lemma_dir_moves(wh, wv, pos, opp, 1, 2, 3);
    lemma_dir_moves(wh, wv, pos, opp, 2, 0, 1);
    lemma_dir_moves(wh, wv, pos, opp, 3, 0, 1);
    let all = pawn_moves(s, player);
    assert(all == m0 + m1 + m2 + m3);
    assert forall|k: int| 0 <= k < all.len() implies exists|c: int| 0 <= c < 81 && c != opp && #[trigger] all[k] == cell_move(c) by {
        if k < m0.len() {
            assert(all[k] == m0[k]);
        } else if k < m0.len() + m1.len() {
            assert(all[k] == m1[k - m0.len()]);
        } else if k < m0.len() + m1.len() + m2.len() {
            assert(all[k] == m2[k - m0.len() - m1.len()]);
        } else {
            assert(all[k] == m3[k - m0.len() - m1.len() - m2.len()]);
        }
    }
}

/// Every wall move the generator lists names a slot on the board where a wall of its
/// orientation fits; in particular the slot holds no wall of that orientation.
pub proof fn lemma_legal_walls_fit(s: GameState, player: int)
    requires
        0 <= player < 2,
    ensures
        forall|k: int| 0 <= k < legal_walls(s, player).len() ==> {
            let m = #[trigger] legal_walls(s, player)[k];
            let i = m.y * 8 + m.x;
            &&& s.walls_left[player] > 0
            &&& m.x < 8 && m.y < 8
            &&& (m.move_type == 2 && h_slot_free(s.walls_h, s.walls_v, i) && !has_wall(s.walls_h, i))
                || (m.move_type == 1 && v_slot_free(s.walls_h, s.walls_v, i) && !has_wall(s.walls_v, i))
        },
{
    let hm = h_free_mask(s.walls_h, s.walls_v);
    let vm = v_free_mask(s.walls_h, s.walls_v);
    lemma_free_masks(s.walls_h, s.walls_v);
    crate::bits::lemma_set_bits_facts(hm, 64);
    crate::bits::lemma_set_bits_facts(vm, 64);
    let l = legal_walls(s, player);
    let a = wall_moves(2, set_bits(hm));
    let b = wall_moves(1, set_bits(vm));
    assert forall|k: int| 0 <= k < l.len() implies {
        let m = #[trigger] l[k];
        let i = m.y * 8 + m.x;
        &&& s.walls_left[player] > 0
        &&& m.x < 8 && m.y < 8
        &&& (m.move_type == 2 && h_slot_free(s.walls_h, s.walls_v, i) && !has_wall(s.walls_h, i))
            || (m.move_type == 1 && v_slot_free(s.walls_h, s.walls_v, i) && !has_wall(s.walls_v, i))
    } by {
        assert(l == a + b);
        if k < a.len() {
            let i = set_bits(hm)[k];
            assert(l[k] == wall_move(2, i));
            assert(has_wall(hm, i));
            assert(i == (i / 8) * 8 + i % 8);
        } else {
            let i = set_bits(vm)[k - a.len()];
            assert(l[k] == wall_move(1, i));
            assert(has_wall(vm, i));
            assert(i == (i / 8) * 8 + i % 8);
        }
    }
}

/// Every move that `get_all_moves` lists for the side to move can be played, and
/// playing it on a position whose hash is consistent gives a well-formed position
/// whose hash is consistent; a pawn move never lands on the opponent's cell.
pub proof fn lemma_generated_moves_playable(s: GameState, k: int)
    requires
        s.wf(),
        s.hash_consistent(),
        0 <= k < (pawn_moves(s, s.player_to_move as int) + legal_walls(s, s.player_to_move as int)).len(),
    ensures
        ({
            let m = (pawn_moves(s, s.player_to_move as int) + legal_walls(s, s.player_to_move as int))[k];
            &&& move_args_ok(s, m.move_type, m.x, m.y)
            &&& s.applied(m.move_type, m.x, m.y).wf()
            &&& s.applied(m.move_type, m.x, m.y).hash_consistent()
            &&& m.move_type == 0 ==> m.y * 9 + m.x != s.positions[1 - s.player_to_move as int]
        }),
{
    let p = s.player_to_move as int;
    let pm = pawn_moves(s, p);
    let lw = legal_walls(s, p);
    let all = pm + lw;
    let m = all[k];
    if k < pm.len() {
        lemma_pawn_moves_on_board(s, p);
        assert(all[k] == pm[k]);
        let c = choose|c: int| 0 <= c < 81 && c != s.positions[1 - p] && #[trigger] pm[k] == cell_move(c);
        assert(m.y * 9 + m.x == c);
    } else {
        lemma_legal_walls_fit(s, p);
        assert(all[k] == lw[k - pm.len()]);
    }
    lemma_apply_keeps_hash(s, m.move_type, m.x, m.y);
}

/// The flood fill finds a distance exactly when a path to the goal exists, the same
/// question `has_path_to_goal` answers.
pub proof fn lemma_distance_iff_path(wh: u64, wv: u64, s: int, player: int, r: (i32, u32, i32, u32, bool))
    requires
        path_metrics(wh, wv, s, player, r),
    ensures
        (r.0 != -1) == path_to_goal(wh, wv, s, player),
        r.0 >= -1,
{
}

/// From a board cell, steps only ever reach board cells: the cell numbers past the
/// board in the 128-bit masks play no part in a real position.
pub proof fn lemma_board_cells_stay_on_board(wh: u64, wv: u64, s: int, c: int, k: nat)
    requires
        0 <= s < 81,
        reachable_within(wh, wv, s, c, k),
    ensures
        0 <= c < 81,
    decreases k,
{
    if k > 0 {
        if reachable_within(wh, wv, s, c, (k - 1) as nat) {
            lemma_board_cells_stay_on_board(wh, wv, s, c, (k - 1) as nat);
        } else {
            let n = choose|n: int| #[trigger] can_step(wh, wv, n, c) && reachable_within(wh, wv, s, n, (k - 1) as nat);
            lemma_board_cells_stay_on_board(wh, wv, s, n, (k - 1) as nat);
        }
    }
}


/// The wall moves come horizontal walls first, then vertical ones, each group by
/// strictly increasing slot number (`y * 8 + x`), so none is listed twice.
pub proof fn lemma_legal_walls_order(s: GameState, player: int)
    requires
        0 <= player < 2,
    ensures
        forall|i: int, j: int|
            0 <= i < j < legal_walls(s, player).len() ==> {
                let a = #[trigger] legal_walls(s, player)[i];
                let b = #[trigger] legal_walls(s, player)[j];
                ||| a.move_type == 2 && b.move_type == 1
                ||| a.move_type == b.move_type && a.y * 8 + a.x < b.y * 8 + b.x
            },
{
    let wh = s.walls_h;
    let wv = s.walls_v;
    lemma_set_bits_facts(h_free_mask(wh, wv), 64);
    lemma_set_bits_facts(v_free_mask(wh, wv), 64);
    let hs = set_bits(h_free_mask(wh, wv));
    let vs = set_bits(v_free_mask(wh, wv));
    let hm = wall_moves(2, hs);
    let vm = wall_moves(1, vs);
    if s.walls_left[player] > 0 {
        assert(legal_walls(s, player) == hm + vm);
        assert forall|i: int, j: int| 0 <= i < j < (hm + vm).len() implies {
            let a = #[trigger] (hm + vm)[i];
            let b = #[trigger] (hm + vm)[j];
            ||| a.move_type == 2 && b.move_type == 1
            ||| a.move_type == b.move_type && a.y * 8 + a.x < b.y * 8 + b.x
        } by {
            if j < hm.len() {
                let p = hs[i];
                let q = hs[j];
                assert(p < q);
                assert(0 <= p < 64 && 0 <= q < 64);
                assert((p / 8) * 8 + p % 8 == p);
                assert((q / 8) * 8 + q % 8 == q);
            } else if i >= hm.len() {
                let p = vs[i - hm.len()];
                let q = vs[j - hm.len()];
                assert(p < q);
                assert(0 <= p < 64 && 0 <= q < 64);
                assert((p / 8) * 8 + p % 8 == p);
                assert((q / 8) * 8 + q % 8 == q);
            }
        }
    }
}

/// Every slot where a wall fits is offered: for a player with a wall left, each slot
/// that a horizontal (vertical) wall fits appears among the generated wall moves.
pub proof fn lemma_legal_walls_complete(s: GameState, player: int, i: int)
    requires
        0 <= player < 2,
        s.walls_left[player] > 0,
        0 <= i < 64,
    ensures
        h_slot_free(s.walls_h, s.walls_v, i) ==> legal_walls(s, player).contains(wall_move(2, i)),
        v_slot_free(s.walls_h, s.walls_v, i) ==> legal_walls(s, player).contains(wall_move(1, i)),
{
    let wh = s.walls_h;
    let wv = s.walls_v;
    lemma_free_masks(wh, wv);
    lemma_set_bits_facts(h_free_mask(wh, wv), 64);
    lemma_set_bits_facts(v_free_mask(wh, wv), 64);
    let hs = set_bits(h_free_mask(wh, wv));
    let vs = set_bits(v_free_mask(wh, wv));
    let hm = wall_moves(2, hs);
    let vm = wall_moves(1, vs);
    assert(legal_walls(s, player) == hm + vm);
    if h_slot_free(wh, wv, i) {
        assert(has_wall(h_free_mask(wh, wv), i));
        assert(hs.contains(i));
        let k = choose|k: int| 0 <= k < hs.len() && hs[k] == i;
        assert((hm + vm)[k] == wall_move(2, i));
    }
    if v_slot_free(wh, wv, i) {
        assert(has_wall(v_free_mask(wh, wv), i));
        assert(vs.contains(i));
        let k = choose|k: int| 0 <= k < vs.len() && vs[k] == i;
        assert((hm + vm)[hm.len() + k] == wall_move(1, i));
    }
}

proof fn lemma_subset_bit(w: u64, t: u64, i: u64)
    by (bit_vector)
    requires
        (t & w) == w,
        i < 64,
        bit64(w, i),
    ensures
        bit64(t, i),
{
}

/// A step that is open with the walls `th`, `tv` is open with any subset of them.
proof fn lemma_fewer_walls_step(wh: u64, wv: u64, th: u64, tv: u64, n: int, c: int)
    requires
        (th & wh) == wh,
        (tv & wv) == wv,
        can_step(th, tv, n, c),
    ensures
        can_step(wh, wv, n, c),
{
    assert forall|i: int| has_wall(wh, i) implies #[trigger] has_wall(th, i) by {
        lemma_subset_bit(wh, th, i as u64);
    }
    assert forall|i: int| has_wall(wv, i) implies #[trigger] has_wall(tv, i) by {
        lemma_subset_bit(wv, tv, i as u64);
    }
}

/// What is reachable with the walls `th`, `tv` is reachable with any subset of them.
proof fn lemma_fewer_walls_within(wh: u64, wv: u64, th: u64, tv: u64, s: int, c: int, k: nat)
    requires
        (th & wh) == wh,
        (tv & wv) == wv,
        reachable_within(th, tv, s, c, k),
    ensures
        reachable_within(wh, wv, s, c, k),
    decreases k,
{
    if k > 0 {
        if reachable_within(th, tv, s, c, (k - 1) as nat) {
            lemma_fewer_walls_within(wh, wv, th, tv, s, c, (k - 1) as nat);
        } else {
            let n = choose|n: int| #[trigger] can_step(th, tv, n, c) && reachable_within(th, tv, s, n, (k - 1) as nat);
            lemma_fewer_walls_within(wh, wv, th, tv, s, n, (k - 1) as nat);
            lemma_fewer_walls_step(wh, wv, th, tv, n, c);
        }
    }
}

/// Adding walls never opens a path: if a pawn on `s` can reach its goal row with the
/// walls `th`, `tv`, it can with any subset `wh`, `wv` of those walls.
pub proof fn lemma_more_walls_no_new_path(wh: u64, wv: u64, th: u64, tv: u64, s: int, player: int)
    requires
        (th & wh) == wh,
        (tv & wv) == wv,
        path_to_goal(th, tv, s, player),
    ensures
        path_to_goal(wh, wv, s, player),
{
    let (c, k) = choose|c: int, k: nat| goal_cell(player, c) && #[trigger] reachable_within(th, tv, s, c, k);
    lemma_fewer_walls_within(wh, wv, th, tv, s, c, k);
    assert(goal_cell(player, c) && reachable_within(wh, wv, s, c, k));
}

proof fn lemma_or_bits64(a: u64, b: u64, j: u64)
    by (bit_vector)
    requires
        j < 64,
    ensures
        bit64(a | b, j) == (bit64(a, j) || bit64(b, j)),
{
}

/// Wall text `t` sets bit `j` of the horizontal (or the vertical) wall set.
pub open spec fn token_sets(t: Seq<char>, horizontal: bool, j: int) -> bool {
    &&& utf8_len(t) >= 3
    &&& t[2] == (if horizontal { 'h' } else { 'v' })
    &&& has_wall(1u64 << (token_wall_idx(t) as u64), j)
}

/// One of the first `n` wall texts sets bit `j`.
pub open spec fn scan_sets(toks: Seq<Seq<char>>, n: nat, horizontal: bool, j: int) -> bool {
    exists|i: int| 0 <= i < n && token_sets(#[trigger] toks[i], horizontal, j)
}

/// Bit `j` of the walls read from the first `n` wall texts is set exactly when one of
/// those texts sets it.
proof fn lemma_walls_scan_bits(toks: Seq<Seq<char>>, n: nat, j: int)
    requires
        n <= toks.len(),
        0 <= j < 64,
    ensures
        has_wall(walls_scan(toks, n).0, j) == scan_sets(toks, n, true, j),
        has_wall(walls_scan(toks, n).1, j) == scan_sets(toks, n, false, j),
    decreases n,
{
    if n == 0 {
        lemma_or_bit(0, 0, j as u64);
    } else {
        let m = (n - 1) as nat;
        lemma_walls_scan_bits(toks, m, j);
        let t = toks[m as int];
        let prev = walls_scan(toks, m);
        let one = 1u64 << (token_wall_idx(t) as u64);
        lemma_or_bits64(prev.0, one, j as u64);
        lemma_or_bits64(prev.1, one, j as u64);
        assert forall|h: bool| #[trigger] scan_sets(toks, n, h, j) == (scan_sets(toks, m, h, j) || token_sets(t, h, j)) by {
            if scan_sets(toks, n, h, j) {
                let i = choose|i: int| 0 <= i < n && token_sets(#[trigger] toks[i], h, j);
                if i < m {
                    assert(0 <= i < m && token_sets(toks[i], h, j));
                }
            }
            if scan_sets(toks, m, h, j) {
                let i = choose|i: int| 0 <= i < m && token_sets(#[trigger] toks[i], h, j);
                assert(0 <= i < n && token_sets(toks[i], h, j));
            }
            if token_sets(t, h, j) {
                assert(0 <= m < n && token_sets(toks[m as int], h, j));
            }
        }
        assert(scan_sets(toks, n, true, j) == (scan_sets(toks, m, true, j) || token_sets(t, true, j)));
        assert(scan_sets(toks, n, false, j) == (scan_sets(toks, m, false, j) || token_sets(t, false, j)));
    }
}

/// Reordering wall texts keeps the set of bits they set.
proof fn lemma_scan_sets_reorder(a: Seq<Seq<char>>, b: Seq<Seq<char>>, h: bool, j: int)
    requires
        a.to_multiset() == b.to_multiset(),
    ensures
        scan_sets(a, a.len(), h, j) ==> scan_sets(b, b.len(), h, j),
{
    if scan_sets(a, a.len(), h, j) {
        let i = choose|i: int| 0 <= i < a.len() && token_sets(#[trigger] a[i], h, j);
        let x = a[i];
        a.to_multiset_ensures();
        b.to_multiset_ensures();
        assert(a.contains(x));
        assert(a.to_multiset().count(x) > 0);
        assert(b.contains(x));
        let k = choose|k: int| 0 <= k < b.len() && b[k] == x;
        assert(0 <= k < b.len() && token_sets(b[k], h, j));
    }
}

/// The walls read from a list of wall texts do not depend on the order of the texts:
/// two lists holding the same texts, each as often, give the same wall sets.
pub proof fn lemma_wall_texts_any_order(a: Seq<Seq<char>>, b: Seq<Seq<char>>)
    requires
        a.to_multiset() == b.to_multiset(),
    ensures
        walls_scan(a, a.len()) == walls_scan(b, b.len()),
{
    assert forall|j: int| 0 <= j < 64 implies #[trigger] has_wall(walls_scan(a, a.len()).0, j) == has_wall(walls_scan(b, b.len()).0, j)
        && has_wall(walls_scan(a, a.len()).1, j) == has_wall(walls_scan(b, b.len()).1, j) by {
        lemma_walls_scan_bits(a, a.len(), j);
        lemma_walls_scan_bits(b, b.len(), j);
        lemma_scan_sets_reorder(a, b, true, j);
        lemma_scan_sets_reorder(b, a, true, j);
        lemma_scan_sets_reorder(a, b, false, j);
        lemma_scan_sets_reorder(b, a, false, j);
    }
    assert forall|j: int| 0 <= j < 64 implies #[trigger] has_wall(walls_scan(a, a.len()).1, j) == has_wall(walls_scan(b, b.len()).1, j) by {
        assert(has_wall(walls_scan(a, a.len()).0, j) == has_wall(walls_scan(b, b.len()).0, j));
    }
    lemma_wall_set_ext(walls_scan(a, a.len()).0, walls_scan(b, b.len()).0);
    lemma_wall_set_ext(walls_scan(a, a.len()).1, walls_scan(b, b.len()).1);
}

/// The five `/`-separated fields of the board word of a FEN text.
pub open spec fn board_fields(f: Seq<char>) -> Seq<Seq<char>> {
    split_on(split_whitespace(f)[0], '/')
}

/// Every text of `a` meets `wall_token_ok` when every text of `b` does, for two lists
/// holding the same texts.
proof fn lemma_tokens_ok_reorder(a: Seq<Seq<char>>, b: Seq<Seq<char>>)
    requires
        a.to_multiset() == b.to_multiset(),
        forall|i: int| 0 <= i < b.len() ==> wall_token_ok(#[trigger] b[i]),
    ensures
        forall|i: int| 0 <= i < a.len() ==> wall_token_ok(#[trigger] a[i]),
{
    a.to_multiset_ensures();
    b.to_multiset_ensures();
    assert forall|i: int| 0 <= i < a.len() implies wall_token_ok(#[trigger] a[i]) by {
        let x = a[i];
        assert(a.contains(x));
        assert(a.to_multiset().count(x) > 0);
        assert(b.contains(x));
        let k = choose|k: int| 0 <= k < b.len() && b[k] == x;
        assert(wall_token_ok(b[k]));
    }
}

/// Two FEN texts that agree in everything but the order of the comma-separated wall
/// texts of the wall field are both read, and to the same position: both load or
/// neither does, and loading gives equal states, hash included.
pub proof fn lemma_fen_walls_any_order(f: Seq<char>, g: Seq<char>)
    requires
        split_whitespace(f).len() == 2,
        split_whitespace(g).len() == 2,
        split_whitespace(f)[1] == split_whitespace(g)[1],
        board_fields(f).len() == 5,
        board_fields(g).len() == 5,
        forall|i: int| 0 <= i < 4 ==> #[trigger] board_fields(f)[i] == board_fields(g)[i],
        (board_fields(f)[4].len() > 0) == (board_fields(g)[4].len() > 0),
        split_on(board_fields(f)[4], ',').to_multiset() == split_on(board_fields(g)[4], ',').to_multiset(),
    ensures
        fen_result(f) is Ok,
        fen_result(f) == fen_result(g),
        fen_loadable(f) == fen_loadable(g),
{
    let fw = board_fields(f)[4];
    let gw = board_fields(g)[4];
    lemma_wall_texts_any_order(split_on(fw, ','), split_on(gw, ','));
    assert(walls_of_field(fw) == walls_of_field(gw));
    assert(board_fields(f)[0] == board_fields(g)[0]);
    assert(board_fields(f)[1] == board_fields(g)[1]);
    assert(board_fields(f)[2] == board_fields(g)[2]);
    assert(board_fields(f)[3] == board_fields(g)[3]);
    if fw.len() > 0 {
        if forall|i: int| 0 <= i < split_on(gw, ',').len() ==> wall_token_ok(#[trigger] split_on(gw, ',')[i]) {
            lemma_tokens_ok_reorder(split_on(fw, ','), split_on(gw, ','));
        }
        if forall|i: int| 0 <= i < split_on(fw, ',').len() ==> wall_token_ok(#[trigger] split_on(fw, ',')[i]) {
            lemma_tokens_ok_reorder(split_on(gw, ','), split_on(fw, ','));
        }
    }
}

} // verus!
