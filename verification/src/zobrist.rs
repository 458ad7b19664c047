//! Zobrist keys drawn from a fixed-seed xorshift generator.

use vstd::prelude::*;
use crate::bits::{has_wall, set_bits, set_bits_below};

verus! {

/// Seed of the key generator.
pub const ZOBRIST_SEED: u64 = 1070372;

/// One step of the 64-bit xorshift generator (shifts 13, 7, 17).
pub open spec fn xorshift(s: u64) -> u64 {
    let a = s ^ (s << 13u64);
    let b = a ^ (a >> 7u64);
    b ^ (b << 17u64)
}

/// The generator's state after `n` steps from the seed; the `n`-th key drawn is `rng_state(n)`.
pub open spec fn rng_state(n: nat) -> u64
    decreases n,
{
    if n == 0 {
        ZOBRIST_SEED
    } else {
        xorshift(rng_state((n - 1) as nat))
    }
}

/// Key XORed in while it is player 1's turn (the first key drawn).
pub open spec fn key_turn() -> u64 {
    rng_state(1)
}

/// Key of player 0 standing on cell `c`.
pub open spec fn key_p0(c: int) -> u64 {
    rng_state((2 + 2 * c) as nat)
}

/// Key of player 1 standing on cell `c`.
pub open spec fn key_p1(c: int) -> u64 {
    rng_state((3 + 2 * c) as nat)
}

/// Key of a horizontal wall at wall index `i`.
pub open spec fn key_wall_h(i: int) -> u64 {
    rng_state((164 + 2 * i) as nat)
}

/// Key of a vertical wall at wall index `i`.
pub open spec fn key_wall_v(i: int) -> u64 {
    rng_state((165 + 2 * i) as nat)
}

/// Key of the wall at index `i` of one orientation.
pub open spec fn key_wall(horizontal: bool, i: int) -> u64 {
    if horizontal {
        key_wall_h(i)
    } else {
        key_wall_v(i)
    }
}

/// XOR of the wall keys of the listed indices, folded from the first.
pub open spec fn xor_wall_keys(idx: Seq<int>, horizontal: bool) -> u64
    decreases idx.len(),
{
    if idx.len() == 0 {
        0
    } else {
        xor_wall_keys(idx.drop_last(), horizontal) ^ key_wall(horizontal, idx.last())
    }
}

/// Key of the side to move: the turn key for player 1, nothing for player 0.
pub open spec fn turn_key(turn: int) -> u64 {
    if turn == 1 {
        key_turn()
    } else {
        0
    }
}

/// The Zobrist hash of a position: the keys of both pawn cells, of every wall and of
/// the side to move, XORed together.
pub open spec fn zobrist_hash(p0: int, p1: int, wh: u64, wv: u64, turn: int) -> u64 {
    key_p0(p0) ^ key_p1(p1) ^ xor_wall_keys(set_bits(wh), true) ^ xor_wall_keys(set_bits(wv), false)
        ^ turn_key(turn)
}

proof fn lemma_xor_swap(a: u64, k: u64, x: u64)
    by (bit_vector)
    ensures
        (a ^ k) ^ x == (a ^ x) ^ k,
        a ^ 0u64 == a,
{
}

/// Adding a wall that was not there XORs its key into the fold over the set bits.
pub proof fn lemma_xor_wall_add(w: u64, idx: int, horizontal: bool, n: nat)
    requires
        0 <= idx < 64,
        n <= 64,
        !has_wall(w, idx),
        forall|j: int| 0 <= j < 64 ==> #[trigger] has_wall(w | (1u64 << (idx as u64)), j) == (has_wall(w, j) || j == idx),
    ensures
        xor_wall_keys(set_bits_below(w | (1u64 << (idx as u64)), n), horizontal) == if n <= idx {
            xor_wall_keys(set_bits_below(w, n), horizontal)
        } else {
            xor_wall_keys(set_bits_below(w, n), horizontal) ^ key_wall(horizontal, idx)
        },
    decreases n,
{
    let w2 = w | (1u64 << (idx as u64));
    if n > 0 {
        lemma_xor_wall_add(w, idx, horizontal, (n - 1) as nat);
        let a = set_bits_below(w, (n - 1) as nat);
        let b = set_bits_below(w2, (n - 1) as nat);
        assert(has_wall(w2, n - 1) == (has_wall(w, n - 1) || n - 1 == idx));
        if has_wall(w2, n - 1) {
            assert(set_bits_below(w2, n).drop_last() == b);
        }
        if has_wall(w, n - 1) {
            assert(set_bits_below(w, n).drop_last() == a);
            lemma_xor_swap(xor_wall_keys(a, horizontal), key_wall(horizontal, idx), key_wall(horizontal, n - 1));
        }
        lemma_xor_swap(xor_wall_keys(a, horizontal), 0, 0);
    }
}

/// Zobrist hashing table.
pub struct ZobristTable {
    pub p0_pos: [u64; 81],
    pub p1_pos: [u64; 81],
    pub walls_h: [u64; 64],
    pub walls_v: [u64; 64],
    /// XORed in only when it is player 1's turn.
    pub player_turn: u64,
}

impl ZobristTable {
    /// The table holds exactly the keys that the generator draws, in order.
    pub open spec fn is_standard(&self) -> bool {
        &&& self.player_turn == key_turn()
        &&& forall|c: int| 0 <= c < 81 ==> #[trigger] self.p0_pos[c] == key_p0(c)
        &&& forall|c: int| 0 <= c < 81 ==> #[trigger] self.p1_pos[c] == key_p1(c)
        &&& forall|i: int| 0 <= i < 64 ==> #[trigger] self.walls_h[i] == key_wall_h(i)
        &&& forall|i: int| 0 <= i < 64 ==> #[trigger] self.walls_v[i] == key_wall_v(i)
    }

    /// Draws the keys: the turn key first, then the cell keys of both players
    /// interleaved, then the wall keys of both orientations interleaved.
    pub fn init() -> (table: Self)
        ensures
            table.is_standard(),
    {
        let mut prng: u64 = ZOBRIST_SEED;
        let ghost mut n: nat = 0;
        let turn = next_rnd(&mut prng, Ghost(n));
        proof {
            n = 1;
        }
        let mut table = ZobristTable {
            p0_pos: [0u64; 81],
            p1_pos: [0u64; 81],
            walls_h: [0u64; 64],
            walls_v: [0u64; 64],
            player_turn: turn,
        };
        let mut i: usize = 0;
        while i < 81
            invariant
                0 <= i <= 81,
                n == 1 + 2 * i,
                prng == rng_state(n),
                table.player_turn == key_turn(),
                forall|c: int| 0 <= c < i ==> #[trigger] table.p0_pos[c] == key_p0(c),
                forall|c: int| 0 <= c < i ==> #[trigger] table.p1_pos[c] == key_p1(c),
            decreases 81 - i,
        {
            let a = next_rnd(&mut prng, Ghost(n));
            table.p0_pos[i] = a;
            let b = next_rnd(&mut prng, Ghost((n + 1) as nat));
            table.p1_pos[i] = b;
            proof {
                n = n + 2;
            }
            i = i + 1;
        }
        let mut j: usize = 0;
        while j < 64
            invariant
                0 <= j <= 64,
                n == 163 + 2 * j,
                prng == rng_state(n),
                table.player_turn == key_turn(),
                forall|c: int| 0 <= c < 81 ==> #[trigger] table.p0_pos[c] == key_p0(c),
                forall|c: int| 0 <= c < 81 ==> #[trigger] table.p1_pos[c] == key_p1(c),
                forall|k: int| 0 <= k < j ==> #[trigger] table.walls_h[k] == key_wall_h(k),
                forall|k: int| 0 <= k < j ==> #[trigger] table.walls_v[k] == key_wall_v(k),
            decreases 64 - j,
        {
            let a = next_rnd(&mut prng, Ghost(n));
            table.walls_h[j] = a;
            let b = next_rnd(&mut prng, Ghost((n + 1) as nat));
            table.walls_v[j] = b;
            proof {
                n = n + 2;
            }
            j = j + 1;
        }
        table
    }
}

/// Advances the generator by one step and returns the new state.
fn next_rnd(prng: &mut u64, Ghost(n): Ghost<nat>) -> (r: u64)
    requires
        *old(prng) == rng_state(n),
    ensures
        r == rng_state(n + 1),
        *final(prng) == r,
{
    *prng = *prng ^ (*prng << 13u64);
    *prng = *prng ^ (*prng >> 7u64);
    *prng = *prng ^ (*prng << 17u64);
    *prng
}

/// The standard Zobrist table (computed afresh: the library holds no global state).
pub fn get_zobrist() -> (table: ZobristTable)
    ensures
        table.is_standard(),
{
    ZobristTable::init()
}

proof fn lemma_xorshift_steps(s: u64, a: u64, b: u64)
    by (bit_vector)
    ensures
        s ^ (s << 13u64) == 0 ==> s == 0,
        a ^ (a >> 7u64) == 0 ==> a == 0,
        b ^ (b << 17u64) == 0 ==> b == 0,
{
}

proof fn lemma_xorshift_linear(a: u64, b: u64)
    by (bit_vector)
    ensures
        xorshift(a) ^ xorshift(b) == xorshift(a ^ b),
        (a ^ b == 0) == (a == b),
{
}

/// The generator step maps only 0 to 0 and never maps two states to one.
proof fn lemma_xorshift_injective(a: u64, b: u64)
    ensures
        xorshift(a) == 0 ==> a == 0,
        xorshift(a) == xorshift(b) ==> a == b,
{
    let x = a ^ b;
    let p = x ^ (x << 13u64);
    let q = p ^ (p >> 7u64);
    lemma_xorshift_steps(x, p, q);
    lemma_xorshift_steps(a, a ^ (a << 13u64), (a ^ (a << 13u64)) ^ ((a ^ (a << 13u64)) >> 7u64));
    lemma_xorshift_linear(a, b);
    lemma_xorshift_linear(xorshift(a), xorshift(b));
}

/// Starting from state `s`, the next `steps` states of the generator all differ from
/// the seed.
pub open spec fn seed_not_revisited(s: u64, steps: nat) -> bool
    decreases steps,
{
    steps == 0 || (xorshift(s) != ZOBRIST_SEED && seed_not_revisited(xorshift(s), (steps - 1) as nat))
}

proof fn lemma_seed_not_revisited()
    ensures
        seed_not_revisited(ZOBRIST_SEED, 291),
{
    assert(seed_not_revisited(ZOBRIST_SEED, 291)) by (bit_vector);
}

/// No generator state is 0: the seed is not, and a step maps only 0 to 0.
proof fn lemma_rng_nonzero(n: nat)
    ensures
        rng_state(n) != 0,
    decreases n,
{
    if n > 0 {
        lemma_rng_nonzero((n - 1) as nat);
        lemma_xorshift_injective(rng_state((n - 1) as nat), 0);
    }
}

/// Two equal states `i <= j` steps from the seed mean the seed comes back after
/// `j - i` steps.
proof fn lemma_rng_repeat(i: nat, j: nat)
    requires
        i <= j,
        rng_state(i) == rng_state(j),
    ensures
        rng_state((j - i) as nat) == ZOBRIST_SEED,
    decreases i,
{
    if i > 0 {
        lemma_xorshift_injective(rng_state((i - 1) as nat), rng_state((j - 1) as nat));
        lemma_rng_repeat((i - 1) as nat, (j - 1) as nat);
    }
}

/// What `seed_not_revisited` says of the states after state `m`.
proof fn lemma_not_revisited(m: nat, k: nat)
    requires
        seed_not_revisited(rng_state(m), k),
    ensures
        forall|d: nat| 1 <= d <= k ==> #[trigger] rng_state(m + d) != ZOBRIST_SEED,
    decreases k,
{
    if k > 0 {
        assert(rng_state(m + 1) == xorshift(rng_state(m)));
        lemma_not_revisited(m + 1, (k - 1) as nat);
        assert forall|d: nat| 1 <= d <= k implies #[trigger] rng_state(m + d) != ZOBRIST_SEED by {
            if d > 1 {
                assert(rng_state((m + 1) + (d - 1) as nat) != ZOBRIST_SEED);
                assert((m + 1) + (d - 1) as nat == m + d);
            }
        }
    }
}

/// The generator states are never 0, and the seed and the 291 keys drawn after it are
/// pairwise distinct.
pub proof fn lemma_keys_distinct()
    ensures
        forall|n: nat| #[trigger] rng_state(n) != 0,
        forall|i: nat, j: nat| i < j <= 291 ==> #[trigger] rng_state(i) != #[trigger] rng_state(j),
{
    assert forall|n: nat| #[trigger] rng_state(n) != 0 by {
        lemma_rng_nonzero(n);
    }
    lemma_seed_not_revisited();
    lemma_not_revisited(0, 291);
    assert forall|i: nat, j: nat| i < j <= 291 implies #[trigger] rng_state(i) != #[trigger] rng_state(j) by {
        if rng_state(i) == rng_state(j) {
            lemma_rng_repeat(i, j);
            assert(rng_state((0 + (j - i) as nat) as nat) != ZOBRIST_SEED);
        }
    }
}

/// Key `k` of a table in drawing order: the turn key, then the cell keys of both
/// players interleaved, then the wall keys of both orientations interleaved.
pub open spec fn table_key(t: ZobristTable, k: int) -> u64 {
    if k == 0 {
        t.player_turn
    } else if k < 163 {
        if (k - 1) % 2 == 0 {
            t.p0_pos[(k - 1) / 2]
        } else {
            t.p1_pos[(k - 1) / 2]
        }
    } else if (k - 163) % 2 == 0 {
        t.walls_h[(k - 163) / 2]
    } else {
        t.walls_v[(k - 163) / 2]
    }
}

/// The 291 keys of the standard table are all nonzero and pairwise distinct.
pub proof fn lemma_table_keys_distinct(t: ZobristTable)
    requires
        t.is_standard(),
    ensures
        forall|k: int| 0 <= k < 291 ==> #[trigger] table_key(t, k) != 0,
        forall|k: int, l: int| 0 <= k < l < 291 ==> #[trigger] table_key(t, k) != #[trigger] table_key(t, l),
{
    lemma_keys_distinct();
    assert forall|k: int| 0 <= k < 291 implies #[trigger] table_key(t, k) == rng_state((k + 1) as nat) by {
        if 0 < k < 163 {
            let c = (k - 1) / 2;
            if (k - 1) % 2 == 0 {
                assert(t.p0_pos[c] == key_p0(c));
            } else {
                assert(t.p1_pos[c] == key_p1(c));
            }
        } else if k >= 163 {
            let i = (k - 163) / 2;
            if (k - 163) % 2 == 0 {
                assert(t.walls_h[i] == key_wall_h(i));
            } else {
                assert(t.walls_v[i] == key_wall_v(i));
            }
        }
    }
    assert forall|k: int, l: int| 0 <= k < l < 291 implies #[trigger] table_key(t, k) != #[trigger] table_key(t, l) by {
        assert(rng_state((k + 1) as nat) != rng_state((l + 1) as nat));
    }
}

} // verus!
