//! Laws of solved boards.
//!
//! A board that is consistent (every solved digit removed from its peers)
//! and fully solved is a valid Sudoku solution: solved peers hold distinct
//! digits, and every row, column, and 3x3 box holds each digit 1..=9
//! exactly once.

use vstd::prelude::*;
use crate::board::consistent;
use crate::board::wf_tiles;
use crate::masks::bitcount;
use crate::masks::is_singleton;
use crate::masks::lemma_bitcount_zero;
use crate::masks::lemma_disjoint_shrink;
use crate::masks::lemma_full_mask;
use crate::masks::lemma_mask_of;
use crate::masks::lemma_or_props;
use crate::masks::lemma_singleton_pair;
use crate::masks::mask_in_range;
use crate::masks::mask_of;
use crate::masks::submask;
use crate::topology::col_of;
use crate::topology::is_peer;
use crate::topology::lemma_cell_id;
use crate::topology::row_of;
use crate::topology::lemma_band;
use crate::topology::lemma_cell_of;
use vstd::arithmetic::div_mod::lemma_fundamental_div_mod;

verus! {

/// The cell index of entry `t` of row `r`.
pub open spec fn row_cell(r: int, t: int) -> int {
    r * 9 + t
}

/// The cell index of entry `t` of column `c`.
pub open spec fn col_cell(c: int, t: int) -> int {
    t * 9 + c
}

/// The cell index of entry `t` of box `g` (boxes numbered row-major).
pub open spec fn box_cell(g: int, t: int) -> int {
    (3 * (g / 3) + t / 3) * 9 + (3 * (g % 3) + t % 3)
}

/// The digit of cell `i` in the canonical shifted grid, a valid complete
/// Sudoku: cell (r, c) holds `(3r + r/3 + c) % 9 + 1`.
pub open spec fn canon_digit(i: int) -> int {
    (3 * row_of(i) + row_of(i) / 3 + col_of(i)) % 9 + 1
}

/// The canonical grid as a board of singleton masks.
pub open spec fn canon_grid() -> Seq<u16> {
    Seq::new(81, |i: int| mask_of(canon_digit(i) as u16))
}

/// Two numbers closer than 9 apart have distinct residues.
proof fn lemma_mod9_distinct(x: int, y: int)
    requires
        x >= 0,
        y >= 0,
        x != y,
        -9 < x - y < 9,
    ensures
        x % 9 != y % 9,
{
    lemma_fundamental_div_mod(x, 9);
    lemma_fundamental_div_mod(y, 9);
    if x % 9 == y % 9 {
        assert(x - y == 9 * (x / 9) - 9 * (y / 9));
        assert(x / 9 == y / 9) by (nonlinear_arith)
            requires
                x - y == 9 * (x / 9) - 9 * (y / 9),
                -9 < x - y < 9,
        ;
    }
}

/// The shift pattern of the canonical grid, reduced to a cell's band
/// coordinates: the residue is `3 * (r % 3) + r / 3 + c`, taken mod 9.
proof fn lemma_canon_residue(i: int)
    requires
        0 <= i < 81,
    ensures
        1 <= canon_digit(i) <= 9,
        canon_digit(i) == (3 * (row_of(i) % 3) + row_of(i) / 3 + col_of(i)) % 9 + 1,
{
    lemma_cell_id(i);
    let r = row_of(i);
    let c = col_of(i);
    lemma_fundamental_div_mod(r, 3);
    assert(3 * r + r / 3 + c == 9 * (r / 3) + (3 * (r % 3) + r / 3 + c));
    vstd::arithmetic::div_mod::lemma_mod_multiples_vanish(r / 3, 3 * (r % 3) + r / 3 + c, 9);
    vstd::arithmetic::div_mod::lemma_mod_bound(3 * (r % 3) + r / 3 + c, 9);
    assert((3 * (r % 3) + r / 3 + c) % 9 == 3 * (r % 3) + r / 3 + c - 9 * ((3 * (r % 3) + r / 3
        + c) / 9) );
}

/// Two peer cells of the canonical grid hold distinct digits.
proof fn lemma_canon_peers_distinct(i: int, j: int)
    requires
        is_peer(i, j),
    ensures
        canon_digit(i) != canon_digit(j),
{
    lemma_cell_id(i);
    lemma_cell_id(j);
    lemma_canon_residue(i);
    lemma_canon_residue(j);
    let ri = row_of(i);
    let ci = col_of(i);
    let rj = row_of(j);
    let cj = col_of(j);
    lemma_fundamental_div_mod(ri, 3);
    lemma_fundamental_div_mod(rj, 3);
    let wi = 3 * (ri % 3) + ri / 3 + ci;
    let wj = 3 * (rj % 3) + rj / 3 + cj;
    lemma_band(ci, ci / 3);
    lemma_band(cj, cj / 3);
    if ri == rj {
        lemma_mod9_distinct(wi, wj);
    } else if ci == cj {
        assert(wi != wj);
        lemma_mod9_distinct(wi, wj);
    } else {
        assert(ri / 3 == rj / 3 && ci / 3 == cj / 3);
        assert(-9 < wi - wj < 9);
        assert(wi != wj);
        lemma_mod9_distinct(wi, wj);
    }
}

/// The all-candidates board admits a valid completion: the canonical grid
/// solves it, so a fresh board is always solvable.
pub proof fn lemma_full_board_solvable(s: Seq<u16>)
    requires
        s.len() == 81,
        forall|c: int| 0 <= c < 81 ==> s[c] == crate::masks::ALL_POSSIBLE,
    ensures
        exists|a: Seq<u16>| crate::board::solution_of(a, s),
{
    let a = canon_grid();
    assert forall|c: int| 0 <= c < 81 implies is_singleton(#[trigger] a[c]) && mask_in_range(
        a[c],
    ) && submask(a[c], s[c]) by {
        lemma_canon_residue(c);
        lemma_mask_of(canon_digit(c) as u16);
    }
    assert forall|i: int, j: int|
        #[trigger] is_peer(i, j) && is_singleton(a[i]) implies a[j] & a[i] == 0 by {
        lemma_canon_residue(i);
        lemma_canon_residue(j);
        lemma_canon_peers_distinct(i, j);
        lemma_mask_of(canon_digit(i) as u16);
        lemma_mask_of(canon_digit(j) as u16);
        crate::masks::lemma_mask_of_injective(canon_digit(i) as u16, canon_digit(j) as u16);
        lemma_singleton_pair(a[i], a[j]);
        lemma_disjoint_shrink(a[i], a[i], a[j]);
    }
    assert(crate::board::solution_of(a, s));
}

/// Validity of solved boards: on a consistent board, two solved peer cells
/// hold different digits.
pub proof fn lemma_peers_differ(s: Seq<u16>, i: int, j: int)
    requires
        wf_tiles(s),
        consistent(s),
        is_peer(i, j),
        is_singleton(s[i]),
        is_singleton(s[j]),
    ensures
        s[i] != s[j],
        s[i] & s[j] == 0,
{
    assert(s[j] & s[i] == 0);
    lemma_disjoint_shrink(s[j], s[j], s[i]);
    lemma_singleton_pair(s[i], s[j]);
}

/// The union of the masks of the first `k` cells of a unit.
spec fn unit_or(s: Seq<u16>, cells: Seq<int>, k: int) -> u16
    decreases k,
{
    if k <= 0 {
        0
    } else {
        unit_or(s, cells, k - 1) | s[cells[k - 1]]
    }
}

/// Nine solved, pairwise disjoint cells have `k` distinct candidates among
/// their first `k` masks, and anything disjoint from all of them is
/// disjoint from their union.
proof fn lemma_unit_or(s: Seq<u16>, cells: Seq<int>, k: int)
    requires
        wf_tiles(s),
        cells.len() == 9,
        0 <= k <= 9,
        forall|t: int| 0 <= t < 9 ==> 0 <= #[trigger] cells[t] < 81,
        forall|t: int| 0 <= t < 9 ==> is_singleton(s[#[trigger] cells[t]]),
        forall|t: int, u: int|
            0 <= t < 9 && 0 <= u < 9 && t != u ==> s[#[trigger] cells[t]] & s[#[trigger] cells[u]]
                == 0,
    ensures
        mask_in_range(unit_or(s, cells, k)),
        bitcount(unit_or(s, cells, k)) == k,
        forall|x: u16|
            (forall|t: int| 0 <= t < k ==> x & s[#[trigger] cells[t]] == 0) ==> x & unit_or(
                s,
                cells,
                k,
            ) == 0,
    decreases k,
{
    lemma_full_mask(0);
    assert forall|x: u16| x & unit_or(s, cells, 0) == 0 by {
        assert(x & 0u16 == 0) by (bit_vector);
    }
    if k > 0 {
        lemma_unit_or(s, cells, k - 1);
        let u1 = unit_or(s, cells, k - 1);
        let last = s[cells[k - 1]];
        assert(forall|t: int| 0 <= t < k - 1 ==> last & s[#[trigger] cells[t]] == 0);
        assert(last & u1 == 0);
        lemma_disjoint_shrink(last, last, u1);
        lemma_or_props(u1, last, 0);
        assert(bitcount(u1 | last) == bitcount(u1) + bitcount(last));
        assert forall|x: u16|
            (forall|t: int| 0 <= t < k ==> x & s[#[trigger] cells[t]] == 0) implies x & unit_or(
            s,
            cells,
            k,
        ) == 0 by {
            if forall|t: int| 0 <= t < k ==> x & s[#[trigger] cells[t]] == 0 {
                assert(x & u1 == 0);
                assert(x & last == 0);
                lemma_or_props(u1, last, x);
            }
        }
    }
}

/// Nine solved, pairwise disjoint cells carry the digit `d` somewhere.
proof fn lemma_unit_has_digit(s: Seq<u16>, cells: Seq<int>, d: u16)
    requires
        wf_tiles(s),
        cells.len() == 9,
        1 <= d <= 9,
        forall|t: int| 0 <= t < 9 ==> 0 <= #[trigger] cells[t] < 81,
        forall|t: int| 0 <= t < 9 ==> is_singleton(s[#[trigger] cells[t]]),
        forall|t: int, u: int|
            0 <= t < 9 && 0 <= u < 9 && t != u ==> s[#[trigger] cells[t]] & s[#[trigger] cells[u]]
                == 0,
    ensures
        exists|t: int| 0 <= t < 9 && s[#[trigger] cells[t]] == mask_of(d),
{
    lemma_unit_or(s, cells, 9);
    let z = unit_or(s, cells, 9);
    lemma_full_mask(z);
    assert(z == 0x1ff);
    lemma_mask_of(d);
    lemma_bitcount_zero(mask_of(d));
    if forall|t: int| 0 <= t < 9 ==> mask_of(d) & s[#[trigger] cells[t]] == 0 {
        assert(mask_of(d) & z == 0);
        assert(mask_of(d) & 0x1ff == mask_of(d));
        assert(false);
    } else {
        let t0 = choose|t: int| 0 <= t < 9 && mask_of(d) & s[cells[t]] != 0;
        lemma_singleton_pair(mask_of(d), s[cells[t0]]);
        assert(s[cells[t0]] == mask_of(d));
    }
}

/// Digit `d` is solved somewhere in row `r`.
pub open spec fn digit_in_row(s: Seq<u16>, r: int, d: u16) -> bool {
    exists|t: int| 0 <= t < 9 && s[row_cell(r, t)] == mask_of(d)
}

/// Digit `d` is solved somewhere in column `c`.
pub open spec fn digit_in_col(s: Seq<u16>, c: int, d: u16) -> bool {
    exists|t: int| 0 <= t < 9 && s[col_cell(c, t)] == mask_of(d)
}

/// Digit `d` is solved somewhere in box `g`.
pub open spec fn digit_in_box(s: Seq<u16>, g: int, d: u16) -> bool {
    exists|t: int| 0 <= t < 9 && s[box_cell(g, t)] == mask_of(d)
}

/// Two distinct entries of a row are peers.
pub proof fn lemma_row_peers(r: int, t: int, u: int)
    requires
        0 <= r < 9,
        0 <= t < 9,
        0 <= u < 9,
        t != u,
    ensures
        is_peer(row_cell(r, t), row_cell(r, u)),
{
    lemma_cell_of(r, t);
    lemma_cell_of(r, u);
}

/// Two distinct entries of a column are peers.
pub proof fn lemma_col_peers(c: int, t: int, u: int)
    requires
        0 <= c < 9,
        0 <= t < 9,
        0 <= u < 9,
        t != u,
    ensures
        is_peer(col_cell(c, t), col_cell(c, u)),
{
    lemma_cell_of(t, c);
    lemma_cell_of(u, c);
}

/// Two distinct entries of a box are peers.
pub proof fn lemma_box_peers(g: int, t: int, u: int)
    requires
        0 <= g < 9,
        0 <= t < 9,
        0 <= u < 9,
        t != u,
    ensures
        is_peer(box_cell(g, t), box_cell(g, u)),
{
    lemma_box_cell_decompose(g, t);
    lemma_box_cell_decompose(g, u);
    lemma_fundamental_div_mod(t, 3);
    lemma_fundamental_div_mod(u, 3);
}

/// A box entry decomposes into its row and column, both inside the box's
/// bands.
proof fn lemma_box_cell_decompose(g: int, t: int)
    requires
        0 <= g < 9,
        0 <= t < 9,
    ensures
        0 <= box_cell(g, t) < 81,
        crate::topology::row_of(box_cell(g, t)) == 3 * (g / 3) + t / 3,
        crate::topology::col_of(box_cell(g, t)) == 3 * (g % 3) + t % 3,
        crate::topology::row_of(box_cell(g, t)) / 3 == g / 3,
        crate::topology::col_of(box_cell(g, t)) / 3 == g % 3,
{
    lemma_fundamental_div_mod(g, 3);
    lemma_fundamental_div_mod(t, 3);
    lemma_cell_of(3 * (g / 3) + t / 3, 3 * (g % 3) + t % 3);
    lemma_band(3 * (g / 3) + t / 3, g / 3);
    lemma_band(3 * (g % 3) + t % 3, g % 3);
}

/// Completeness of solved boards: on a consistent board in which every cell
/// is solved, each row, column, and box holds every digit 1..=9 at least
/// once, and its nine entries are pairwise distinct, so each digit occurs
/// exactly once.
pub proof fn lemma_solved_complete(s: Seq<u16>)
    requires
        wf_tiles(s),
        consistent(s),
        forall|c: int| 0 <= c < 81 ==> is_singleton(#[trigger] s[c]),
    ensures
        forall|r: int, d: u16| 0 <= r < 9 && 1 <= d <= 9 ==> #[trigger] digit_in_row(s, r, d),
        forall|c: int, d: u16| 0 <= c < 9 && 1 <= d <= 9 ==> #[trigger] digit_in_col(s, c, d),
        forall|g: int, d: u16| 0 <= g < 9 && 1 <= d <= 9 ==> #[trigger] digit_in_box(s, g, d),
        forall|r: int, t: int, u: int|
            0 <= r < 9 && 0 <= t < 9 && 0 <= u < 9 && t != u ==> s[#[trigger] row_cell(r, t)] != s[
                #[trigger] row_cell(r, u)],
        forall|c: int, t: int, u: int|
            0 <= c < 9 && 0 <= t < 9 && 0 <= u < 9 && t != u ==> s[#[trigger] col_cell(c, t)] != s[
                #[trigger] col_cell(c, u)],
        forall|g: int, t: int, u: int|
            0 <= g < 9 && 0 <= t < 9 && 0 <= u < 9 && t != u ==> s[#[trigger] box_cell(g, t)] != s[
                #[trigger] box_cell(g, u)],
{
    assert forall|r: int, d: u16| 0 <= r < 9 && 1 <= d <= 9 implies #[trigger] digit_in_row(
        s,
        r,
        d,
    ) by {
        let cells = Seq::new(9, |t: int| row_cell(r, t));
        assert forall|t: int| 0 <= t < 9 implies 0 <= #[trigger] cells[t] < 81 by {
            lemma_cell_of(r, t);
        }
        assert forall|t: int, u: int| 0 <= t < 9 && 0 <= u < 9 && t != u implies s[
            #[trigger] cells[t]] & s[#[trigger] cells[u]] == 0 by {
            lemma_row_peers(r, u, t);
        }
        lemma_unit_has_digit(s, cells, d);
        let t0 = choose|t: int| 0 <= t < 9 && s[cells[t]] == mask_of(d);
        assert(s[row_cell(r, t0)] == mask_of(d));
    }
    assert forall|c: int, d: u16| 0 <= c < 9 && 1 <= d <= 9 implies #[trigger] digit_in_col(
        s,
        c,
        d,
    ) by {
        let cells = Seq::new(9, |t: int| col_cell(c, t));
        assert forall|t: int| 0 <= t < 9 implies 0 <= #[trigger] cells[t] < 81 by {
            lemma_cell_of(t, c);
        }
        assert forall|t: int, u: int| 0 <= t < 9 && 0 <= u < 9 && t != u implies s[
            #[trigger] cells[t]] & s[#[trigger] cells[u]] == 0 by {
            lemma_col_peers(c, u, t);
        }
        lemma_unit_has_digit(s, cells, d);
        let t0 = choose|t: int| 0 <= t < 9 && s[cells[t]] == mask_of(d);
        assert(s[col_cell(c, t0)] == mask_of(d));
    }
    assert forall|g: int, d: u16| 0 <= g < 9 && 1 <= d <= 9 implies #[trigger] digit_in_box(
        s,
        g,
        d,
    ) by {
        let cells = Seq::new(9, |t: int| box_cell(g, t));
        assert forall|t: int| 0 <= t < 9 implies 0 <= #[trigger] cells[t] < 81 by {
            lemma_box_cell_decompose(g, t);
        }
        assert forall|t: int, u: int| 0 <= t < 9 && 0 <= u < 9 && t != u implies s[
            #[trigger] cells[t]] & s[#[trigger] cells[u]] == 0 by {
            lemma_box_peers(g, u, t);
        }
        lemma_unit_has_digit(s, cells, d);
        let t0 = choose|t: int| 0 <= t < 9 && s[cells[t]] == mask_of(d);
        assert(s[box_cell(g, t0)] == mask_of(d));
    }
    assert forall|r: int, t: int, u: int|
        0 <= r < 9 && 0 <= t < 9 && 0 <= u < 9 && t != u implies s[#[trigger] row_cell(r, t)] != s[
        #[trigger] row_cell(r, u)] by {
        lemma_row_peers(r, t, u);
        lemma_peers_differ(s, row_cell(r, t), row_cell(r, u));
    }
    assert forall|c: int, t: int, u: int|
        0 <= c < 9 && 0 <= t < 9 && 0 <= u < 9 && t != u implies s[#[trigger] col_cell(c, t)] != s[
        #[trigger] col_cell(c, u)] by {
        lemma_col_peers(c, t, u);
        lemma_peers_differ(s, col_cell(c, t), col_cell(c, u));
    }
    assert forall|g: int, t: int, u: int|
        0 <= g < 9 && 0 <= t < 9 && 0 <= u < 9 && t != u implies s[#[trigger] box_cell(g, t)] != s[
        #[trigger] box_cell(g, u)] by {
        lemma_box_peers(g, t, u);
        lemma_peers_differ(s, box_cell(g, t), box_cell(g, u));
    }
}

} // verus!
