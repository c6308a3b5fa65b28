//! Candidate masks: 9-bit sets over the digits 1..=9.
//!
//! Bit `k` (0-indexed) of a mask set means that digit `k + 1` is still a
//! legal candidate for a cell.  A mask with exactly one bit set is a solved
//! cell, a mask with two or more bits is an undetermined cell, and the empty
//! mask is a contradiction (it is never stored in a board).

use vstd::prelude::*;

verus! {

/// The representation type of a single cell's candidate mask.
pub type TileType = u16;

/// Number of rows, columns, and digits.
pub const SIZE: usize = 9;

/// Number of cells on a board.
pub const BOARD_SIZE: usize = SIZE * SIZE;

/// Number of peers of each cell: 8 in its box, 6 more in its row, 6 more in
/// its column.
pub const TILE_NEIGHBORS: usize = 20;

/// The mask in which all nine digits are still candidates.
pub const ALL_POSSIBLE: TileType = 0x1ff;

/// How many of the nine candidate bits of `m` are set.
pub open spec fn bitcount(m: u16) -> int {
    ((m >> 0u16) & 1) + ((m >> 1u16) & 1) + ((m >> 2u16) & 1) + ((m >> 3u16) & 1)
        + ((m >> 4u16) & 1) + ((m >> 5u16) & 1) + ((m >> 6u16) & 1) + ((m >> 7u16) & 1)
        + ((m >> 8u16) & 1)
}

/// A mask that fits in the nine candidate bits.
pub open spec fn mask_in_range(m: u16) -> bool {
    m & 0x1ff == m
}

/// A solved cell: exactly one candidate digit remains.
pub open spec fn is_singleton(m: u16) -> bool {
    bitcount(m) == 1
}

/// An undetermined cell: two or more candidate digits remain.
pub open spec fn is_multi(m: u16) -> bool {
    bitcount(m) >= 2
}

/// Every candidate of `a` is also a candidate of `b`.
pub open spec fn submask(a: u16, b: u16) -> bool {
    a & b == a
}

/// The singleton mask of digit `d`, for `d` in `1..=9`.
pub open spec fn mask_of(d: u16) -> u16
    recommends
        1 <= d <= 9,
{
    1u16 << ((d - 1) as u16)
}

/// Counts the candidate digits of a mask.
pub fn count_candidates(m: u16) -> (c: u16)
    ensures
        c == bitcount(m),
        c <= 9,
{
    assert(((m >> 0u16) & 1) <= 1 && ((m >> 1u16) & 1) <= 1 && ((m >> 2u16) & 1) <= 1
        && ((m >> 3u16) & 1) <= 1 && ((m >> 4u16) & 1) <= 1 && ((m >> 5u16) & 1) <= 1
        && ((m >> 6u16) & 1) <= 1 && ((m >> 7u16) & 1) <= 1 && ((m >> 8u16) & 1) <= 1)
        by (bit_vector);
    ((m >> 0u16) & 1) + ((m >> 1u16) & 1) + ((m >> 2u16) & 1) + ((m >> 3u16) & 1)
        + ((m >> 4u16) & 1) + ((m >> 5u16) & 1) + ((m >> 6u16) & 1) + ((m >> 7u16) & 1)
        + ((m >> 8u16) & 1)
}

/// Basic facts about removing the candidates of `s` from `x`.
pub proof fn lemma_remove(x: u16, s: u16)
    by (bit_vector)
    ensures
        submask(x & !s, x),
        (x & !s) & s == 0,
        x & s == 0 ==> x & !s == x,
        mask_in_range(x) ==> mask_in_range(x & !s),
{
}

/// A submask never has more candidates, and a proper submask of a mask in
/// range has strictly fewer.
pub proof fn lemma_submask_count(a: u16, b: u16)
    by (bit_vector)
    ensures
        submask(a, b) ==> bitcount(a) <= bitcount(b),
        submask(a, b) && mask_in_range(b) && a != b ==> bitcount(a) < bitcount(b),
{
}

/// Submask chains compose.
pub proof fn lemma_submask_trans(a: u16, b: u16, c: u16)
    by (bit_vector)
    ensures
        submask(a, b) && submask(b, c) ==> submask(a, c),
        submask(a, a),
{
}

/// For masks in range, only the empty mask has no candidates.
pub proof fn lemma_bitcount_zero(m: u16)
    by (bit_vector)
    ensures
        bitcount(m) >= 0,
        mask_in_range(m) ==> (bitcount(m) == 0 <==> m == 0),
{
}

/// Two solved cells hold the same digit exactly when their masks intersect.
pub proof fn lemma_singleton_pair(x: u16, y: u16)
    by (bit_vector)
    ensures
        mask_in_range(x) && mask_in_range(y) && is_singleton(x) && is_singleton(y) ==> ((x & y
            == 0) <==> x != y),
{
}

/// Removing one solved digit from a solved cell either leaves it unchanged
/// (distinct digits) or empties it (the same digit).
pub proof fn lemma_singleton_remove(x: u16, s: u16)
    by (bit_vector)
    ensures
        mask_in_range(x) && mask_in_range(s) && is_singleton(x) && is_singleton(s) && x != s
            ==> x & !s == x,
        mask_in_range(x) && is_singleton(x) && x & !s != 0 ==> x & !s == x,
        mask_in_range(s) && is_singleton(s) && x & !s != x ==> bitcount(x & !s) == bitcount(x)
            - 1,
{
}

/// The digit masks are singletons inside the nine candidate bits.
pub proof fn lemma_mask_of(d: u16)
    by (bit_vector)
    ensures
        1 <= d <= 9 ==> is_singleton(mask_of(d)),
        1 <= d <= 9 ==> mask_in_range(mask_of(d)),
{
}

/// Distinct digits have distinct masks.
pub proof fn lemma_mask_of_injective(d1: u16, d2: u16)
    by (bit_vector)
    ensures
        1 <= d1 <= 9 && 1 <= d2 <= 9 && d1 != d2 ==> mask_of(d1) != mask_of(d2),
{
}

/// A set bit of a mask is one of its candidates, as a singleton submask.
pub proof fn lemma_bit_of(x: u16, k: u16)
    by (bit_vector)
    ensures
        k < 9 && x & (1u16 << k) != 0 ==> submask(1u16 << k, x),
        k < 9 ==> is_singleton(1u16 << k) && mask_in_range(1u16 << k),
{
}

/// No candidate of `x` lies below digit bit `d`.
pub open spec fn low_zero(x: u16, d: u16) -> bool {
    ((x >> d) << d) == x
}

/// Stepping a digit floor upward past an excluded bit.
pub proof fn lemma_digit_floor(x: u16, d: u16)
    by (bit_vector)
    ensures
        low_zero(x, 0),
        d < 9 && is_singleton(x) && mask_in_range(x) && low_zero(x, d) && x != (1u16 << d)
            ==> low_zero(x, (d + 1) as u16),
        is_singleton(x) && mask_in_range(x) ==> !low_zero(x, 9),
{
}

/// A mask stays inside a shrunken superset it avoids the removed part of.
pub proof fn lemma_submask_andnot(a: u16, b: u16, s: u16)
    by (bit_vector)
    ensures
        submask(a, b) && a & s == 0 ==> submask(a, b & !s),
        submask(a, 0) ==> a == 0,
{
}

/// Facts about the union of two masks.
pub proof fn lemma_or_props(a: u16, c: u16, x: u16)
    by (bit_vector)
    ensures
        x & a == 0 && x & c == 0 ==> x & (a | c) == 0,
        submask(a, a | c),
        submask(c, a | c),
        mask_in_range(a) && mask_in_range(c) ==> mask_in_range(a | c),
        a & c == 0 ==> bitcount(a | c) == bitcount(a) + bitcount(c),
{
}

/// A mask with all nine candidate counts is the full mask.
pub proof fn lemma_full_mask(z: u16)
    by (bit_vector)
    ensures
        mask_in_range(z) && bitcount(z) == 9 ==> z == 0x1ff,
        bitcount(0u16) == 0 && mask_in_range(0u16),
{
}

/// Shrinking either side of a disjoint pair keeps it disjoint.
pub proof fn lemma_disjoint_shrink(a: u16, b: u16, x: u16)
    by (bit_vector)
    ensures
        submask(a, b) && b & x == 0 ==> a & x == 0,
        a & x == 0 ==> x & a == 0,
{
}

} // verus!
