//! Single-bit views of the machine words that hold boards and wall sets.

use vstd::prelude::*;

verus! {

/// Bit `i` of a 128-bit board mask.
pub open spec fn bit128(x: u128, i: u128) -> bool {
    (x >> i) & 1u128 == 1u128
}

/// Bit `i` of a 64-bit wall set.
pub open spec fn bit64(x: u64, i: u64) -> bool {
    (x >> i) & 1u64 == 1u64
}

/// Bit `c` of a board mask, for a cell number given as an integer.
pub open spec fn has_cell(x: u128, c: int) -> bool {
    0 <= c < 128 && bit128(x, c as u128)
}

/// Bit `i` of a wall set, for a wall index given as an integer.
pub open spec fn has_wall(x: u64, i: int) -> bool {
    0 <= i < 64 && bit64(x, i as u64)
}

pub proof fn lemma_or128(a: u128, b: u128, i: u128)
    by (bit_vector)
    requires
        i < 128,
    ensures
        bit128(a | b, i) == (bit128(a, i) || bit128(b, i)),
{
}

pub proof fn lemma_and128(a: u128, b: u128, i: u128)
    by (bit_vector)
    requires
        i < 128,
    ensures
        bit128(a & b, i) == (bit128(a, i) && bit128(b, i)),
{
}

pub proof fn lemma_not128(a: u128, i: u128)
    by (bit_vector)
    requires
        i < 128,
    ensures
        bit128(!a, i) == !bit128(a, i),
{
}

pub proof fn lemma_shl128(a: u128, s: u128, i: u128)
    by (bit_vector)
    requires
        i < 128,
        s < 128,
    ensures
        bit128(a << s, i) == (i >= s && bit128(a, (i - s) as u128)),
{
}

pub proof fn lemma_shr128(a: u128, s: u128, i: u128)
    by (bit_vector)
    requires
        i < 128,
        s < 128,
    ensures
        bit128(a >> s, i) == (i + s < 128 && bit128(a, (i + s) as u128)),
{
}

pub proof fn lemma_single128(s: u128, i: u128)
    by (bit_vector)
    requires
        i < 128,
        s < 128,
    ensures
        bit128(1u128 << s, i) == (i == s),
{
}

pub proof fn lemma_zero128(i: u128)
    by (bit_vector)
    requires
        i < 128,
    ensures
        !bit128(0u128, i),
{
}


/// Cell-level form of the single-bit facts for `|`, `&`, `!`, shifts and singletons.
pub proof fn lemma_cell_ops(a: u128, b: u128, c: int)
    requires
        0 <= c < 128,
    ensures
        has_cell(a | b, c) == (has_cell(a, c) || has_cell(b, c)),
        has_cell(a & b, c) == (has_cell(a, c) && has_cell(b, c)),
        has_cell(!a, c) == !has_cell(a, c),
        !has_cell(0u128, c),
{
    lemma_or128(a, b, c as u128);
    lemma_and128(a, b, c as u128);
    lemma_not128(a, c as u128);
    lemma_zero128(c as u128);
}

pub proof fn lemma_cell_shl(a: u128, s: u128, c: int)
    requires
        0 <= c < 128,
        s < 128,
    ensures
        has_cell(a << s, c) == (c >= s && has_cell(a, c - s)),
{
    lemma_shl128(a, s, c as u128);
}

pub proof fn lemma_cell_shr(a: u128, s: u128, c: int)
    requires
        0 <= c < 128,
        s < 128,
    ensures
        has_cell(a >> s, c) == (c + s < 128 && has_cell(a, c + s)),
{
    lemma_shr128(a, s, c as u128);
}

pub proof fn lemma_cell_single(s: u128, c: int)
    requires
        0 <= c < 128,
        s < 128,
    ensures
        has_cell(1u128 << s, c) == (c == s),
{
    lemma_single128(s, c as u128);
}


/// The indices of the set bits of `w` below `n`, in increasing order.
pub open spec fn set_bits_below(w: u64, n: nat) -> Seq<int>
    decreases n,
{
    if n == 0 {
        Seq::empty()
    } else if has_wall(w, n - 1) {
        set_bits_below(w, (n - 1) as nat).push(n - 1)
    } else {
        set_bits_below(w, (n - 1) as nat)
    }
}

/// The indices of all set bits of `w`, in increasing order.
pub open spec fn set_bits(w: u64) -> Seq<int> {
    set_bits_below(w, 64)
}

/// `t` holds exactly the bits of `w` at `n` and above.
pub open spec fn bits_from(t: u64, w: u64, n: int) -> bool {
    forall|j: u64| j < 64 ==> #[trigger] bit64(t, j) == (j >= n && bit64(w, j))
}

/// Skipping over unset bits adds no index.
pub proof fn lemma_set_bits_skip(w: u64, n: nat, m: nat)
    requires
        n <= m,
        forall|j: int| n <= j < m ==> !#[trigger] has_wall(w, j),
    ensures
        set_bits_below(w, m) == set_bits_below(w, n),
    decreases m - n,
{
    if n < m {
        lemma_set_bits_skip(w, n, (m - 1) as nat);
    }
}

/// Every listed index is a set bit below the bound, and the list is strictly increasing.
pub proof fn lemma_set_bits_facts(w: u64, n: nat)
    ensures
        forall|i: int| 0 <= i < set_bits_below(w, n).len() ==> {
            &&& 0 <= #[trigger] set_bits_below(w, n)[i] < n
            &&& has_wall(w, set_bits_below(w, n)[i])
        },
        forall|i: int, j: int| 0 <= i < j < set_bits_below(w, n).len() ==>
            #[trigger] set_bits_below(w, n)[i] < #[trigger] set_bits_below(w, n)[j],
        forall|b: int| 0 <= b < n && has_wall(w, b) ==> set_bits_below(w, n).contains(b),
    decreases n,
{
    if n > 0 {
        lemma_set_bits_facts(w, (n - 1) as nat);
        let prev = set_bits_below(w, (n - 1) as nat);
        if has_wall(w, n - 1) {
            assert forall|b: int| 0 <= b < n && has_wall(w, b) implies set_bits_below(w, n).contains(b) by {
                if b < n - 1 {
                    let k = choose|k: int| 0 <= k < prev.len() && prev[k] == b;
                    assert(set_bits_below(w, n)[k] == b);
                } else {
                    assert(set_bits_below(w, n)[prev.len() as int] == b);
                }
            }
        }
    }
}

proof fn lemma_tz_low(t: u64, idx: u64)
    by (bit_vector)
    requires
        idx < 64,
        t << ((64 - idx) as u64) == 0,
    ensures
        (t >> idx) << idx == t,
{
}

proof fn lemma_clear_bit(t: u64, idx: u64, j: u64)
    by (bit_vector)
    requires
        idx < 64,
        j < 64,
        (t >> idx) << idx == t,
        (t >> idx) & 1u64 == 1u64,
    ensures
        bit64(t & ((t - 1) as u64), j) == (bit64(t, j) && j != idx),
{
}

proof fn lemma_zero_bits(j: u64)
    by (bit_vector)
    ensures
        !bit64(0u64, j),
{
}

/// One round of the clear-the-lowest-bit loop: the lowest set bit of what is left is
/// the next index of `set_bits`, and clearing it leaves the bits above it.
pub proof fn lemma_kernighan_step(w: u64, n: int, t: u64)
    requires
        0 <= n <= 64,
        bits_from(t, w, n),
        t != 0,
    ensures
        n <= vstd::std_specs::bits::u64_trailing_zeros(t) < 64,
        has_wall(w, vstd::std_specs::bits::u64_trailing_zeros(t) as int),
        set_bits_below(w, (vstd::std_specs::bits::u64_trailing_zeros(t) + 1) as nat)
            == set_bits_below(w, n as nat).push(vstd::std_specs::bits::u64_trailing_zeros(t) as int),
        bits_from(t & ((t - 1) as u64), w, vstd::std_specs::bits::u64_trailing_zeros(t) + 1),
{
    let idx = vstd::std_specs::bits::u64_trailing_zeros(t);
    vstd::std_specs::bits::axiom_u64_trailing_zeros(t);
    assert(idx < 64);
    let i = idx as u64;
    assert(bit64(t, i));
    assert forall|j: int| n <= j < idx implies !#[trigger] has_wall(w, j) by {
        assert((t >> (j as u64)) & 1u64 == 0u64);
        assert(bit64(t, j as u64) == (j >= n && bit64(w, j as u64)));
    }
    lemma_set_bits_skip(w, n as nat, idx as nat);
    lemma_tz_low(t, i);
    assert forall|j: u64| j < 64 implies #[trigger] bit64(t & ((t - 1) as u64), j) == (j >= idx + 1 && bit64(w, j)) by {
        lemma_clear_bit(t, i, j);
        if j < idx {
            assert((t >> j) & 1u64 == 0u64);
        }
    }
}

/// When nothing is left, every set bit has been visited.
pub proof fn lemma_kernighan_end(w: u64, n: int)
    requires
        0 <= n <= 64,
        bits_from(0u64, w, n),
    ensures
        set_bits(w) == set_bits_below(w, n as nat),
{
    assert forall|j: int| n <= j < 64 implies !#[trigger] has_wall(w, j) by {
        lemma_zero_bits(j as u64);
        assert(bit64(0u64, j as u64) == (j >= n && bit64(w, j as u64)));
    }
    lemma_set_bits_skip(w, n as nat, 64);
}

/// At the start every bit is left.
pub proof fn lemma_bits_from_start(w: u64)
    ensures
        bits_from(w, w, 0),
{
}

/// The cells set in a board mask.
pub open spec fn cells_of(m: u128) -> Set<int> {
    Set::new(|c: int| has_cell(m, c))
}

/// The cells below `i` set in a board mask.
pub open spec fn cells_below(m: u128, i: int) -> Set<int> {
    Set::new(|c: int| c < i && has_cell(m, c))
}

/// Number of cells set in a board mask.
pub fn count_cells(m: u128) -> (r: u32)
    ensures
        r == cells_of(m).len(),
        cells_of(m).finite(),
        r <= 128,
{
    let mut n: u32 = 0;
    let mut i: u32 = 0;
    proof {
        assert(cells_below(m, 0) =~= Set::empty());
    }
    while i < 128
        invariant
            i <= 128,
            n <= i,
            cells_below(m, i as int).finite(),
            n == cells_below(m, i as int).len(),
        decreases 128 - i,
    {
        let ghost before = cells_below(m, i as int);
        if (m >> (i as u128)) & 1u128 == 1u128 {
            n = n + 1;
            proof {
                assert(cells_below(m, i + 1) =~= before.insert(i as int));
            }
        } else {
            proof {
                assert(cells_below(m, i + 1) =~= before);
            }
        }
        i = i + 1;
    }
    proof {
        assert(cells_below(m, 128) =~= cells_of(m));
    }
    n
}

/// A mask without any of the bits 0..128 set is zero, and conversely.
pub proof fn lemma_and_nonzero128(a: u128, b: u128)
    ensures
        (a & b) != 0 <==> exists|i: u128| i < 128 && #[trigger] bit128(a, i) && bit128(b, i),
{
    if (a & b) != 0 {
        let t = a & b;
        let i = choose_bit128(t);
        lemma_and128(a, b, i);
    } else {
        assert forall|i: u128| i < 128 implies !(#[trigger] bit128(a, i) && bit128(b, i)) by {
            lemma_and128(a, b, i);
            lemma_zero128(i);
        }
    }
}

/// Two different masks differ at some cell.
pub proof fn lemma_masks_differ(a: u128, b: u128) -> (c: int)
    requires
        a != b,
    ensures
        0 <= c < 128,
        has_cell(a, c) != has_cell(b, c),
{
    assert(a != b ==> (a ^ b) != 0) by (bit_vector);
    let i = choose_bit128(a ^ b);
    assert(i < 128 && bit128(a ^ b, i) ==> bit128(a, i) != bit128(b, i)) by (bit_vector);
    i as int
}

/// Two wall sets with the same bits are equal.
pub proof fn lemma_wall_set_ext(a: u64, b: u64)
    requires
        forall|j: int| 0 <= j < 64 ==> #[trigger] has_wall(a, j) == has_wall(b, j),
    ensures
        a == b,
{
    if a != b {
        assert(a != b ==> (a ^ b) != 0) by (bit_vector);
        let i = lowest_bit64(a ^ b);
        assert(i < 64 && bit64(a ^ b, i) ==> bit64(a, i) != bit64(b, i)) by (bit_vector);
        assert(has_wall(a, i as int) == has_wall(b, i as int));
    }
}

proof fn lowest_bit64(t: u64) -> (i: u64)
    requires
        t != 0,
    ensures
        i < 64,
        bit64(t, i),
    decreases t,
{
    if bit64(t, 0) {
        0
    } else {
        assert(t != 0 && !bit64(t, 0) ==> (t >> 1u64) != 0 && (t >> 1u64) < t) by (bit_vector);
        let j = lowest_bit64(t >> 1u64);
        assert(bit64(t >> 1u64, j) && j < 64 ==> j < 63 && bit64(t, (j + 1) as u64)) by (bit_vector);
        (j + 1) as u64
    }
}

/// Some bit of a nonzero mask is set.
pub proof fn choose_bit128(t: u128) -> (i: u128)
    requires
        t != 0,
    ensures
        i < 128,
        bit128(t, i),
{
    let i = lowest_bit128(t);
    i
}

proof fn lowest_bit128(t: u128) -> (i: u128)
    requires
        t != 0,
    ensures
        i < 128,
        bit128(t, i),
    decreases t,
{
    if bit128(t, 0) {
        0
    } else {
        assert(t != 0 && !bit128(t, 0) ==> (t >> 1u128) != 0 && (t >> 1u128) < t) by (bit_vector);
        let j = lowest_bit128(t >> 1u128);
        assert(bit128(t >> 1u128, j) && j < 128 ==> j < 127 && bit128(t, (j + 1) as u128))
            by (bit_vector);
        (j + 1) as u128
    }
}

} // verus!
