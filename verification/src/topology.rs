//! Neighbor topology: for each of the 81 cells, the 20 other cells sharing
//! its row, column, or 3x3 box.  The peer relation is a fixed, symmetric,
//! irreflexive relation over cell indices; it never depends on any board.

use vstd::prelude::*;
use vstd::arithmetic::div_mod::lemma_fundamental_div_mod;
use vstd::arithmetic::div_mod::lemma_fundamental_div_mod_converse;

verus! {

/// The row of a cell index (cells are numbered `row * 9 + col`, row-major).
pub open spec fn row_of(i: int) -> int {
    i / 9
}

/// The column of a cell index.
pub open spec fn col_of(i: int) -> int {
    i % 9
}

/// Whether two cells lie in the same 3x3 box.
pub open spec fn same_box(i: int, j: int) -> bool {
    row_of(i) / 3 == row_of(j) / 3 && col_of(i) / 3 == col_of(j) / 3
}

/// Whether two distinct cells share a row, column, or box.
pub open spec fn is_peer(i: int, j: int) -> bool {
    0 <= i < 81 && 0 <= j < 81 && i != j && (row_of(i) == row_of(j) || col_of(i) == col_of(j)
        || same_box(i, j))
}

/// Whether cell index `p` occurs in the list `r`.
pub open spec fn has_cell(r: Seq<usize>, p: int) -> bool {
    exists|u: int| 0 <= u < r.len() && r[u] as int == p
}

/// How many of the columns (or rows) `0..j` fall in band `q`, that is, have
/// index `u` with `u / 3 == q`.
pub open spec fn in_band_below(j: int, q: int) -> int
    decreases j,
{
    if j <= 0 {
        0
    } else {
        in_band_below(j - 1, q) + if (j - 1) / 3 == q {
            1int
        } else {
            0
        }
    }
}

/// A cell index decomposes uniquely into its row and column.
pub proof fn lemma_cell_id(i: int)
    requires
        0 <= i < 81,
    ensures
        i == row_of(i) * 9 + col_of(i),
        0 <= row_of(i) < 9,
        0 <= col_of(i) < 9,
{
    lemma_fundamental_div_mod(i, 9);
}

/// Conversely, a row and column in range determine the cell index.
pub proof fn lemma_cell_of(r: int, c: int)
    requires
        0 <= r < 9,
        0 <= c < 9,
    ensures
        row_of(r * 9 + c) == r,
        col_of(r * 9 + c) == c,
        0 <= r * 9 + c < 81,
{
    lemma_fundamental_div_mod_converse(r * 9 + c, 9, r, c);
}

/// `v` lies in band `q` exactly when it lies between `3q` and `3q + 2`.
pub proof fn lemma_band(v: int, q: int)
    requires
        v >= 0,
        q >= 0,
    ensures
        v / 3 == q <==> 3 * q <= v < 3 * q + 3,
{
    lemma_fundamental_div_mod(v, 3);
    if 3 * q <= v < 3 * q + 3 {
        lemma_fundamental_div_mod_converse(v, 3, q, v - 3 * q);
    }
}

/// Each band holds exactly three of the indices `0..9`.
pub proof fn lemma_full_band(q: int)
    requires
        0 <= q <= 2,
    ensures
        in_band_below(9, q) == 3,
{
    reveal_with_fuel(in_band_below, 10);
}

/// The peer relation is symmetric.
pub proof fn lemma_peer_symmetric(i: int, j: int)
    ensures
        is_peer(i, j) <==> is_peer(j, i),
{
}

/// A cell stays in a list that only grew at the end.
proof fn lemma_has_cell_extend(r1: Seq<usize>, r2: Seq<usize>, p: int)
    requires
        has_cell(r1, p),
        r1.len() <= r2.len(),
        forall|u: int| 0 <= u < r1.len() ==> r1[u] == r2[u],
    ensures
        has_cell(r2, p),
{
    let u0 = choose|u: int| 0 <= u < r1.len() && r1[u] as int == p;
    assert(r2[u0] as int == p);
}

/// The fixed list of the 20 peers of a cell: first the 8 other cells of its
/// 3x3 box, then the 6 row cells and 6 column cells outside that box.
pub fn neighbors_of(index: usize) -> (r: Vec<usize>)
    requires
        index < 81,
    ensures
        r@.len() == 20,
        forall|u: int| 0 <= u < 20 ==> is_peer(index as int, #[trigger] (r@[u] as int)),
        forall|j: int| is_peer(index as int, j) ==> has_cell(r@, j),
{
    let x = index % 9;
    let y = index / 9;
    let lx = (x / 3) * 3;
    let ly = (y / 3) * 3;
    proof {
        lemma_cell_id(index as int);
        lemma_band(x as int, x as int / 3);
        lemma_band(y as int, y as int / 3);
    }
    let mut r: Vec<usize> = Vec::new();

    // The 8 other cells of the 3x3 box.
    let ghost k_self: int = (x as int - lx as int) * 3 + (y as int - ly as int);
    let mut k: usize = 0;
    while k < 9
        invariant
            k <= 9,
            index < 81,
            x == col_of(index as int),
            y == row_of(index as int),
            index as int == y as int * 9 + x as int,
            lx == 3 * (x as int / 3),
            ly == 3 * (y as int / 3),
            k_self == (x as int - lx as int) * 3 + (y as int - ly as int),
            0 <= k_self < 9,
            r@.len() == k as int - (if k_self < k as int {
                1int
            } else {
                0
            }),
            forall|u: int| 0 <= u < r@.len() ==> is_peer(index as int, #[trigger] (r@[u] as int)),
            forall|p: int|
                0 <= p < 81 && same_box(p, index as int) && p != index as int && (col_of(p) - lx)
                    * 3 + (row_of(p) - ly) < k ==> has_cell(r@, p),
        decreases 9 - k,
    {
        let ghost r0 = r@;
        let ax = k / 3;
        let ay = k % 3;
        let rx = lx + ax;
        let ry = ly + ay;
        proof {
            lemma_fundamental_div_mod(k as int, 3);
            lemma_cell_of(ry as int, rx as int);
            lemma_band(rx as int, x as int / 3);
            lemma_band(ry as int, y as int / 3);
        }
        if rx != x || ry != y {
            r.push(ry * 9 + rx);
        }
        proof {
            assert(r0.len() <= r@.len() && forall|u: int| 0 <= u < r0.len() ==> r0[u] == r@[u]);
            assert forall|p: int|
                0 <= p < 81 && same_box(p, index as int) && p != index as int && (col_of(p) - lx)
                    * 3 + (row_of(p) - ly) < k + 1 implies has_cell(r@, p) by {
                lemma_cell_id(p);
                lemma_band(col_of(p), x as int / 3);
                lemma_band(row_of(p), y as int / 3);
                if (col_of(p) - lx) * 3 + (row_of(p) - ly) == k as int {
                    assert(col_of(p) == rx as int && row_of(p) == ry as int);
                    assert(p == ry as int * 9 + rx as int);
                    assert(rx != x || ry != y);
                    assert(r@[r@.len() - 1] as int == p);
                } else {
                    lemma_has_cell_extend(r0, r@, p);
                }
            }
        }
        k += 1;
    }

    // The 6 row cells and 6 column cells outside the box.
    let mut j: usize = 0;
    while j < 9
        invariant
            j <= 9,
            index < 81,
            x == col_of(index as int),
            y == row_of(index as int),
            index as int == y as int * 9 + x as int,
            lx == 3 * (x as int / 3),
            ly == 3 * (y as int / 3),
            r@.len() == 8 + (j as int - in_band_below(j as int, x as int / 3)) + (j as int
                - in_band_below(j as int, y as int / 3)),
            0 <= in_band_below(j as int, x as int / 3) <= j as int,
            0 <= in_band_below(j as int, y as int / 3) <= j as int,
            forall|u: int| 0 <= u < r@.len() ==> is_peer(index as int, #[trigger] (r@[u] as int)),
            forall|p: int|
                0 <= p < 81 && same_box(p, index as int) && p != index as int ==> has_cell(r@, p),
            forall|p: int|
                0 <= p < 81 && row_of(p) == y as int && col_of(p) / 3 != x as int / 3 && col_of(p)
                    < j ==> has_cell(r@, p),
            forall|p: int|
                0 <= p < 81 && col_of(p) == x as int && row_of(p) / 3 != y as int / 3 && row_of(p)
                    < j ==> has_cell(r@, p),
        decreases 9 - j,
    {
        let ghost r0 = r@;
        if j / 3 != x / 3 {
            proof {
                lemma_cell_of(y as int, j as int);
            }
            r.push(y * 9 + j);
        }
        if j / 3 != y / 3 {
            proof {
                lemma_cell_of(j as int, x as int);
            }
            r.push(j * 9 + x);
        }
        proof {
            assert(r0.len() <= r@.len() && forall|u: int| 0 <= u < r0.len() ==> r0[u] == r@[u]);
            assert forall|p: int|
                0 <= p < 81 && same_box(p, index as int) && p != index as int implies has_cell(
                r@,
                p,
            ) by {
                lemma_has_cell_extend(r0, r@, p);
            }
            assert forall|p: int|
                0 <= p < 81 && row_of(p) == y as int && col_of(p) / 3 != x as int / 3 && col_of(p)
                    < j + 1 implies has_cell(r@, p) by {
                lemma_cell_id(p);
                if col_of(p) == j as int {
                    assert(p == y as int * 9 + j as int);
                    if j / 3 != y / 3 {
                        assert(r@[r@.len() - 2] as int == p);
                    } else {
                        assert(r@[r@.len() - 1] as int == p);
                    }
                } else {
                    lemma_has_cell_extend(r0, r@, p);
                }
            }
            assert forall|p: int|
                0 <= p < 81 && col_of(p) == x as int && row_of(p) / 3 != y as int / 3 && row_of(p)
                    < j + 1 implies has_cell(r@, p) by {
                lemma_cell_id(p);
                if row_of(p) == j as int {
                    assert(p == j as int * 9 + x as int);
                    assert(r@[r@.len() - 1] as int == p);
                } else {
                    lemma_has_cell_extend(r0, r@, p);
                }
            }
        }
        j += 1;
    }
    proof {
        lemma_full_band(x as int / 3);
        lemma_full_band(y as int / 3);
        assert(r@.len() == 20);
        assert forall|p: int| is_peer(index as int, p) implies has_cell(r@, p) by {
            lemma_cell_id(p);
            lemma_band(col_of(p), x as int / 3);
            lemma_band(row_of(p), y as int / 3);
            if same_box(index as int, p) {
                assert(same_box(p, index as int));
                assert(has_cell(r@, p));
            } else if row_of(p) == y as int {
                assert(col_of(p) / 3 != x as int / 3);
                assert(has_cell(r@, p));
            } else {
                assert(col_of(p) == x as int);
                assert(row_of(p) / 3 != y as int / 3);
                assert(has_cell(r@, p));
            }
        }
    }
    r
}

} // verus!
