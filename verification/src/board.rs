//! The board engine: 81 candidate masks, the constrained assignment
//! operation with its cascading constraint propagation, and the backtracking
//! search with a minimum-remaining-values heuristic.

use vstd::prelude::*;
use crate::masks::ALL_POSSIBLE;
use crate::masks::bitcount;
use crate::masks::count_candidates;
use crate::masks::is_multi;
use crate::masks::is_singleton;
use crate::masks::lemma_bit_of;
use crate::masks::lemma_bitcount_zero;
use crate::masks::lemma_disjoint_shrink;
use crate::masks::lemma_mask_of;
use crate::masks::lemma_remove;
use crate::masks::lemma_digit_floor;
use crate::masks::lemma_singleton_pair;
use crate::masks::lemma_singleton_remove;
use crate::masks::lemma_submask_andnot;
use crate::masks::low_zero;
use crate::masks::lemma_submask_count;
use crate::masks::lemma_submask_trans;
use crate::masks::mask_in_range;
use crate::masks::mask_of;
use crate::masks::submask;
use vstd::string::StringExecFns;
use crate::topology::has_cell;
use crate::topology::is_peer;
use crate::topology::lemma_peer_symmetric;
use crate::topology::neighbors_of;

verus! {

/// Well-formed board state: 81 masks, each a nonempty set of the nine
/// candidate bits.  The empty mask signals a contradiction and is never
/// stored; propagation fails instead of writing it.
pub open spec fn wf_tiles(s: Seq<u16>) -> bool {
    s.len() == 81 && forall|i: int|
        0 <= i < 81 ==> 1 <= #[trigger] s[i] && mask_in_range(s[i])
}

/// The propagation invariant: the digit of every solved cell has been
/// removed from the candidate masks of all its peers.  Two solved peers
/// therefore always hold distinct digits.
pub open spec fn consistent(s: Seq<u16>) -> bool {
    forall|i: int, j: int|
        #[trigger] is_peer(i, j) && is_singleton(s[i]) ==> s[j] & s[i] == 0
}

/// `consistent`, except that nothing is claimed about pairs touching the
/// cell `e`, which has just been overwritten and not yet propagated.
pub open spec fn consistent_except(s: Seq<u16>, e: int) -> bool {
    forall|i: int, j: int|
        #[trigger] is_peer(i, j) && i != e && j != e && is_singleton(s[i]) ==> s[j] & s[i] == 0
}

/// Whether cell `c` still waits on the propagation worklist `w`.
spec fn pending(w: Seq<(usize, u16)>, c: int) -> bool {
    exists|t: int| 0 <= t < w.len() && w[t].0 as int == c
}

/// Every worklist entry names a cell in range whose current mask is the
/// recorded singleton.
spec fn wlist_ok(s: Seq<u16>, w: Seq<(usize, u16)>) -> bool {
    forall|t: int|
        0 <= t < w.len() ==> (#[trigger] w[t]).0 < 81 && is_singleton(w[t].1) && mask_in_range(
            w[t].1,
        ) && s[w[t].0 as int] == w[t].1
}

/// The propagation invariant restricted to cells that are not pending.
spec fn prop_ok(s: Seq<u16>, w: Seq<(usize, u16)>) -> bool {
    forall|i: int, j: int|
        #[trigger] is_peer(i, j) && is_singleton(s[i]) && !pending(w, i) && !pending(w, j)
            ==> s[j] & s[i] == 0
}

/// `prop_ok`, additionally exempting the cell `c` whose peers are being
/// processed right now.
spec fn prop_ok_except(s: Seq<u16>, w: Seq<(usize, u16)>, c: int) -> bool {
    forall|i: int, j: int|
        #[trigger] is_peer(i, j) && is_singleton(s[i]) && i != c && j != c && !pending(w, i)
            && !pending(w, j) ==> s[j] & s[i] == 0
}

/// Every cell of the assignment `a` is still a candidate set of `s`: no
/// cell of `a` holds a digit that `s` has already eliminated there.
pub open spec fn covers(a: Seq<u16>, s: Seq<u16>) -> bool {
    forall|c: int| 0 <= c < 81 ==> submask(#[trigger] a[c], s[c])
}

/// A complete valid grid: every cell holds a singleton mask and every pair
/// of peers holds distinct digits.
pub open spec fn is_complete_grid(a: Seq<u16>) -> bool {
    a.len() == 81 && (forall|c: int|
        0 <= c < 81 ==> is_singleton(#[trigger] a[c]) && mask_in_range(a[c])) && consistent(a)
}

/// A full valid completion compatible with the board `s`: a complete valid
/// grid each of whose digits is still a candidate of the corresponding cell
/// of `s`.
pub open spec fn solution_of(a: Seq<u16>, s: Seq<u16>) -> bool {
    is_complete_grid(a) && covers(a, s)
}

/// The grid `a` agrees with every given clue (`0` = blank, `1..=9` = digit).
pub open spec fn honors_clues(a: Seq<u16>, clues: Seq<u8>) -> bool {
    forall|i: int| 0 <= i < 81 && 1 <= clues[i] ==> a[i] == mask_of(clues[i] as u16)
}

/// A solved cell covered by a solved cell holds the same digit.
proof fn lemma_singleton_covers(a: u16, b: u16)
    requires
        is_singleton(a),
        mask_in_range(a),
        is_singleton(b),
        mask_in_range(b),
        submask(a, b),
    ensures
        a == b,
{
    lemma_bitcount_zero(a);
    lemma_singleton_pair(a, b);
}

/// How many of the first `n` cells are still undetermined.
pub open spec fn count_multi(s: Seq<u16>, n: int) -> int
    decreases n,
{
    if n <= 0 {
        0
    } else {
        count_multi(s, n - 1) + if is_multi(s[n - 1]) {
            1int
        } else {
            0
        }
    }
}

proof fn lemma_count_multi_nonneg(s: Seq<u16>, n: int)
    ensures
        0 <= count_multi(s, n),
    decreases n,
{
    if n > 0 {
        lemma_count_multi_nonneg(s, n - 1);
    }
}

proof fn lemma_count_multi_agree(s1: Seq<u16>, s2: Seq<u16>, n: int)
    requires
        forall|k: int| 0 <= k < n ==> s1[k] == s2[k],
    ensures
        count_multi(s1, n) == count_multi(s2, n),
    decreases n,
{
    if n > 0 {
        lemma_count_multi_agree(s1, s2, n - 1);
    }
}

proof fn lemma_count_multi_update(s: Seq<u16>, i: int, v: u16, n: int)
    requires
        0 <= i < n <= s.len(),
    ensures
        count_multi(s.update(i, v), n) == count_multi(s, n) + (if is_multi(v) {
            1int
        } else {
            0
        }) - (if is_multi(s[i]) {
            1int
        } else {
            0
        }),
    decreases n,
{
    if i == n - 1 {
        lemma_count_multi_agree(s.update(i, v), s, n - 1);
    } else {
        lemma_count_multi_update(s, i, v, n - 1);
    }
}

proof fn lemma_count_multi_le(s1: Seq<u16>, s2: Seq<u16>, n: int)
    requires
        forall|k: int| 0 <= k < n && is_multi(#[trigger] s2[k]) ==> is_multi(s1[k]),
    ensures
        count_multi(s2, n) <= count_multi(s1, n),
    decreases n,
{
    if n > 0 {
        lemma_count_multi_le(s1, s2, n - 1);
    }
}

proof fn lemma_count_multi_lt(s1: Seq<u16>, s2: Seq<u16>, n: int, p: int)
    requires
        forall|k: int| 0 <= k < n && is_multi(#[trigger] s2[k]) ==> is_multi(s1[k]),
        0 <= p < n,
        is_multi(s1[p]),
        !is_multi(s2[p]),
    ensures
        count_multi(s2, n) < count_multi(s1, n),
    decreases n,
{
    if p == n - 1 {
        lemma_count_multi_le(s1, s2, n - 1);
    } else {
        lemma_count_multi_lt(s1, s2, n - 1, p);
    }
}

proof fn lemma_pending_push(w: Seq<(usize, u16)>, e: (usize, u16), c: int)
    ensures
        pending(w.push(e), c) <==> pending(w, c) || e.0 as int == c,
{
    if pending(w, c) {
        let t0 = choose|t: int| 0 <= t < w.len() && w[t].0 as int == c;
        assert(w.push(e)[t0].0 as int == c);
    }
    if e.0 as int == c {
        assert(w.push(e)[w.len() as int].0 as int == c);
    }
    if pending(w.push(e), c) && e.0 as int != c {
        let t0 = choose|t: int| 0 <= t < w.push(e).len() && w.push(e)[t].0 as int == c;
        assert(w[t0].0 as int == c);
    }
}

/// Whether the exact entry `e` occurs on the worklist `w`.
spec fn has_entry(w: Seq<(usize, u16)>, e: (usize, u16)) -> bool {
    exists|t: int| 0 <= t < w.len() && w[t] == e
}

proof fn lemma_has_entry_push(w: Seq<(usize, u16)>, x: (usize, u16), e: (usize, u16))
    ensures
        has_entry(w.push(x), e) <==> has_entry(w, e) || x == e,
{
    if has_entry(w, e) {
        let t0 = choose|t: int| 0 <= t < w.len() && w[t] == e;
        assert(w.push(x)[t0] == e);
    }
    if x == e {
        assert(w.push(x)[w.len() as int] == e);
    }
    if has_entry(w.push(x), e) && x != e {
        let t0 = choose|t: int| 0 <= t < w.push(x).len() && w.push(x)[t] == e;
        assert(w[t0] == e);
    }
}

proof fn lemma_has_entry_pop(w: Seq<(usize, u16)>, e: (usize, u16))
    requires
        w.len() > 0,
    ensures
        has_entry(w, e) <==> has_entry(w.subrange(0, w.len() - 1), e) || w[w.len() - 1] == e,
{
    let w1 = w.subrange(0, w.len() - 1);
    if has_entry(w, e) && w[w.len() - 1] != e {
        let t0 = choose|t: int| 0 <= t < w.len() && w[t] == e;
        assert(w1[t0] == e);
    }
    if has_entry(w1, e) {
        let t0 = choose|t: int| 0 <= t < w1.len() && w1[t] == e;
        assert(w[t0] == e);
    }
}

proof fn lemma_pending_pop(w: Seq<(usize, u16)>, c: int)
    requires
        w.len() > 0,
    ensures
        pending(w, c) <==> pending(w.subrange(0, w.len() - 1), c) || w[w.len() - 1].0 as int == c,
{
    let w1 = w.subrange(0, w.len() - 1);
    if pending(w, c) && w[w.len() - 1].0 as int != c {
        let t0 = choose|t: int| 0 <= t < w.len() && w[t].0 as int == c;
        assert(w1[t0].0 as int == c);
    }
    if pending(w1, c) {
        let t0 = choose|t: int| 0 <= t < w1.len() && w1[t].0 as int == c;
        assert(w[t0].0 as int == c);
    }
}

/// A 9x9 Sudoku board: one candidate mask per cell, indexed `row * 9 + col`.
#[derive(Clone)]
pub struct Board {
    tiles: Vec<u16>,
}

impl View for Board {
    type V = Seq<u16>;

    closed spec fn view(&self) -> Seq<u16> {
        self.tiles@
    }
}

impl Board {
    /// Well-formed board state.
    pub open spec fn wf(&self) -> bool {
        wf_tiles(self@)
    }

    /// The board on which every digit is still a candidate for every cell.
    pub fn new() -> (b: Board)
        ensures
            b.wf(),
            forall|i: int| 0 <= i < 81 ==> b@[i] == ALL_POSSIBLE,
            consistent(b@),
    {
        let mut t: Vec<u16> = Vec::new();
        let mut i: usize = 0;
        while i < 81
            invariant
                i <= 81,
                t@.len() == i,
                forall|k: int| 0 <= k < i ==> t@[k] == ALL_POSSIBLE,
            decreases 81 - i,
        {
            t.push(ALL_POSSIBLE);
            i += 1;
        }
        proof {
            assert(bitcount(ALL_POSSIBLE) == 9 && mask_in_range(ALL_POSSIBLE) && 1
                <= ALL_POSSIBLE) by (bit_vector);
        }
        Board { tiles: t }
    }

    /// Read-only access to the 81 candidate masks.
    pub fn tiles(&self) -> (t: &Vec<u16>)
        ensures
            t@ == self@,
    {
        &self.tiles
    }

    /// Removes the candidates of `mask` from every peer of `index`,
    /// cascading with a worklist whenever an elimination leaves a peer with
    /// exactly one candidate (a naked single).  Returns `false` as soon as
    /// some cell would lose its last candidate; the board is then left
    /// partially propagated and the caller must roll back.  Masks only ever
    /// shrink, cells that were already solved keep their mask exactly, and
    /// every cell that changed lost precisely the digit of a solved peer.
    /// On success, two solved peers sharing a digit can only be a pair that
    /// already shared it on entry: propagation never manufactures a
    /// conflict, it only uncovers one.
    #[verifier::loop_isolation(false)]
    pub fn set_neighbors_mask(&mut self, index: usize, mask: u16) -> (r: bool)
        requires
            old(self).wf(),
            index < 81,
            is_singleton(mask),
            old(self)@[index as int] == mask,
        ensures
            final(self).wf(),
            forall|c: int| 0 <= c < 81 ==> submask(#[trigger] final(self)@[c], old(self)@[c]),
            forall|c: int|
                0 <= c < 81 && is_singleton(old(self)@[c]) ==> final(self)@[c] == old(self)@[c],
            r ==> forall|j: int| is_peer(index as int, j) ==> final(self)@[j] & mask == 0,
            r && consistent_except(old(self)@, index as int) ==> consistent(final(self)@),
            (forall|j: int| is_peer(index as int, j) ==> old(self)@[j] & mask == 0) ==> r
                && final(self)@ == old(self)@,
            forall|a: Seq<u16>|
                #[trigger] solution_of(a, old(self)@) && a[index as int] == mask ==> covers(
                    a,
                    final(self)@,
                ),
            (exists|a: Seq<u16>|
                #[trigger] solution_of(a, old(self)@) && a[index as int] == mask) ==> r,
            r ==> forall|i: int, j: int|
                #[trigger] is_peer(i, j) && is_singleton(final(self)@[i]) && is_singleton(
                    final(self)@[j],
                ) && final(self)@[i] & final(self)@[j] != 0 ==> final(self)@[i] == old(self)@[i]
                    && final(self)@[j] == old(self)@[j],
            forall|c: int|
                0 <= c < 81 && final(self)@[c] != old(self)@[c] ==> exists|w: int|
                    is_peer(w, c) && is_singleton(final(self)@[w]) && old(self)@[c]
                        & final(self)@[w] != 0 && final(self)@[c] & final(self)@[w] == 0,
    {
        let ghost s0 = old(self)@;
        let ghost calm = forall|j: int| is_peer(index as int, j) ==> s0[j] & mask == 0;
        let mut work: Vec<(usize, u16)> = Vec::new();
        work.push((index, mask));
        proof {
            assert(mask_in_range(mask));
            assert(work@ =~= seq![(index, mask)]);
            assert forall|c: int| 0 <= c < 81 implies submask(#[trigger] self@[c], s0[c]) by {
                lemma_submask_trans(self@[c], self@[c], self@[c]);
            }
            if consistent_except(s0, index as int) {
                assert forall|i: int, j: int|
                    #[trigger] is_peer(i, j) && is_singleton(self@[i]) && !pending(work@, i)
                        && !pending(work@, j) implies self@[j] & self@[i] == 0 by {
                    assert(work@[0].0 as int == index as int);
                    assert(i != index as int && j != index as int);
                }
            }
        }
        while work.len() != 0
            invariant
                wf_tiles(self@),
                forall|c: int| 0 <= c < 81 ==> submask(#[trigger] self@[c], s0[c]),
                forall|c: int| 0 <= c < 81 && is_singleton(s0[c]) ==> self@[c] == s0[c],
                wlist_ok(self@, work@),
                consistent_except(s0, index as int) ==> prop_ok(self@, work@),
                (forall|j: int| is_peer(index as int, j) ==> self@[j] & mask == 0) || has_entry(
                    work@,
                    (index, mask),
                ),
                calm ==> self@ == s0 && (work@ =~= seq![(index, mask)] || work@.len() == 0),
                forall|a: Seq<u16>|
                    #[trigger] solution_of(a, s0) && a[index as int] == mask ==> covers(a, self@),
                forall|i: int, k: int|
                    #[trigger] is_peer(i, k) && is_singleton(self@[i]) && !is_singleton(s0[i])
                        && !pending(work@, i) ==> self@[k] & self@[i] == 0,
                forall|cc: int|
                    0 <= cc < 81 && self@[cc] != s0[cc] ==> exists|w: int|
                        is_peer(w, cc) && is_singleton(self@[w]) && s0[cc] & self@[w] != 0
                            && self@[cc] & self@[w] == 0,
            decreases work@.len() + count_multi(self@, 81),
        {
            let ghost w_full = work@;
            let e = work.pop().unwrap();
            let c = e.0;
            let s = e.1;
            let ghost w1 = work@;
            let ghost m0 = w1.len() + count_multi(self@, 81);
            proof {
                lemma_count_multi_nonneg(self@, 81);
                assert(c < 81 && is_singleton(s) && mask_in_range(s) && self@[c as int] == s);
                // entering the inner loop: pairs touching c lose their
                // exemption only once all of c's peers are processed
                lemma_has_entry_pop(w_full, (index, mask));
                if consistent_except(s0, index as int) {
                    assert forall|i: int, j: int|
                        #[trigger] is_peer(i, j) && is_singleton(self@[i]) && i != c as int && j
                            != c as int && !pending(w1, i) && !pending(w1, j) implies self@[j]
                        & self@[i] == 0 by {
                        lemma_pending_pop(w_full, i);
                        lemma_pending_pop(w_full, j);
                    }
                }
                assert forall|i: int, k: int|
                    #[trigger] is_peer(i, k) && is_singleton(self@[i]) && !is_singleton(s0[i])
                        && !pending(w1, i) && i != c as int implies self@[k] & self@[i] == 0 by {
                    lemma_pending_pop(w_full, i);
                }
            }
            let nbrs = neighbors_of(c);
            let mut t: usize = 0;
            while t < 20
                invariant
                    t <= 20,
                    wf_tiles(self@),
                    forall|cc: int| 0 <= cc < 81 ==> submask(#[trigger] self@[cc], s0[cc]),
                    forall|cc: int|
                        0 <= cc < 81 && is_singleton(s0[cc]) ==> self@[cc] == s0[cc],
                    wlist_ok(self@, work@),
                    self@[c as int] == s,
                    forall|u: int| 0 <= u < t ==> self@[#[trigger] (nbrs@[u] as int)] & s == 0,
                    consistent_except(s0, index as int) ==> prop_ok_except(
                        self@,
                        work@,
                        c as int,
                    ),
                    work@.len() + count_multi(self@, 81) == m0,
                    (forall|j: int| is_peer(index as int, j) ==> self@[j] & mask == 0)
                        || has_entry(work@, (index, mask)) || (c == index && s == mask),
                    calm ==> self@ == s0 && work@.len() == 0 && c == index && s == mask,
                    forall|a: Seq<u16>|
                        #[trigger] solution_of(a, s0) && a[index as int] == mask ==> covers(
                            a,
                            self@,
                        ),
                    forall|i: int, k: int|
                        #[trigger] is_peer(i, k) && is_singleton(self@[i]) && !is_singleton(
                            s0[i],
                        ) && !pending(work@, i) && i != c as int ==> self@[k] & self@[i] == 0,
                    forall|cc: int|
                        0 <= cc < 81 && self@[cc] != s0[cc] ==> exists|w: int|
                            is_peer(w, cc) && is_singleton(self@[w]) && s0[cc] & self@[w] != 0
                                && self@[cc] & self@[w] == 0,
                decreases 20 - t,
            {
                let p = nbrs[t];
                proof {
                    assert(is_peer(c as int, p as int));
                }
                let old_p = self.tiles[p];
                let new = old_p & !s;
                proof {
                    lemma_remove(old_p, s);
                    lemma_singleton_remove(old_p, s);
                    lemma_bitcount_zero(old_p);
                    lemma_bitcount_zero(new);
                }
                if new == 0 {
                    proof {
                        if calm {
                            assert(s0[p as int] & mask == 0);
                            assert(false);
                        }
                        // a solution would have to keep its digit for `p`
                        // inside the emptied mask
                        if exists|a: Seq<u16>|
                            #[trigger] solution_of(a, s0) && a[index as int] == mask {
                            let a = choose|a: Seq<u16>|
                                #[trigger] solution_of(a, s0) && a[index as int] == mask;
                            lemma_singleton_covers(a[c as int], s);
                            lemma_submask_andnot(a[p as int], old_p, s);
                            lemma_submask_andnot(a[p as int], 0, 0);
                            lemma_bitcount_zero(a[p as int]);
                            assert(false);
                        }
                    }
                    return false;
                }
                let ghost s_pre = self@;
                let ghost w_pre = work@;
                self.tiles[p] = new;
                let cnt_new = count_candidates(new);
                let cnt_old = count_candidates(old_p);
                let pushed = cnt_new == 1 && cnt_old == 2;
                if pushed {
                    work.push((p, new));
                }
                proof {
                    lemma_submask_trans(new, old_p, s0[p as int]);
                    lemma_count_multi_update(s_pre, p as int, new, 81);
                    if !pushed {
                        assert(work@ == w_pre);
                        if new == old_p {
                            assert(self@ =~= s_pre);
                        } else {
                            // a changed mask lost exactly the one candidate
                            // of `s`; had it become solved, it would have
                            // been pushed
                            assert(bitcount(new) == bitcount(old_p) - 1);
                            assert(is_multi(new) && is_multi(old_p));
                        }
                    } else {
                        assert(work@ == w_pre.push((p, new)));
                        assert(!is_multi(new) && is_multi(old_p));
                    }
                    assert(work@.len() + count_multi(self@, 81) == m0);
                    // the worklist still records current masks: only cell
                    // `p` changed, and if it sat on the list it was solved,
                    // hence unchanged
                    assert forall|tt: int| 0 <= tt < work@.len() implies (#[trigger] work@[tt]).0
                        < 81 && is_singleton(work@[tt].1) && mask_in_range(work@[tt].1)
                        && self@[work@[tt].0 as int] == work@[tt].1 by {
                        if tt < w_pre.len() {
                            assert(w_pre[tt] == work@[tt]);
                            if w_pre[tt].0 as int == p as int {
                                assert(is_singleton(s_pre[p as int]));
                                assert(new == old_p);
                            }
                        }
                    }
                    // processed peers of c stay cleared of s
                    assert forall|u: int| 0 <= u < t + 1 implies self@[
                        #[trigger] (nbrs@[u] as int)] & s == 0 by {
                        if u < t {
                            if nbrs@[u] as int == p as int {
                                assert(self@[p as int] == new);
                            } else {
                                assert(self@[nbrs@[u] as int] == s_pre[nbrs@[u] as int]);
                            }
                        } else {
                            assert(nbrs@[u] as int == p as int);
                        }
                    }
                    // the safety invariant survives the write and the push
                    if consistent_except(s0, index as int) {
                        assert forall|i: int, j: int|
                            #[trigger] is_peer(i, j) && is_singleton(self@[i]) && i != c as int
                                && j != c as int && !pending(work@, i) && !pending(work@, j)
                            implies self@[j] & self@[i] == 0 by {
                            if pushed {
                                lemma_pending_push(w_pre, (p, new), i);
                                lemma_pending_push(w_pre, (p, new), j);
                            }
                            assert(!pending(w_pre, i) && !pending(w_pre, j));
                            if i == p as int {
                                // a newly solved cell is pushed, so `i` can
                                // only be `p` if its mask did not change
                                assert(is_singleton(new));
                                if new != old_p {
                                    assert(bitcount(old_p) == 2);
                                    assert(pushed);
                                    assert(pending(work@, i));
                                } else {
                                    assert(is_singleton(s_pre[i]));
                                    assert(s_pre[j] & s_pre[i] == 0);
                                    assert(self@[j] == if j == p as int {
                                        new
                                    } else {
                                        s_pre[j]
                                    });
                                }
                            } else {
                                assert(is_singleton(s_pre[i]));
                                assert(s_pre[j] & s_pre[i] == 0);
                                if j == p as int {
                                    lemma_disjoint_shrink(new, old_p, s_pre[i]);
                                }
                            }
                        }
                    }
                    // the pending-or-cleared disjunct for `index`
                    if forall|j: int| is_peer(index as int, j) ==> s_pre[j] & mask == 0 {
                        assert forall|j: int| is_peer(index as int, j) implies self@[j] & mask
                            == 0 by {
                            if j == p as int {
                                lemma_disjoint_shrink(new, old_p, mask);
                            }
                        }
                    } else if has_entry(w_pre, (index, mask)) {
                        if pushed {
                            lemma_has_entry_push(w_pre, (p, new), (index, mask));
                        }
                        assert(has_entry(work@, (index, mask)));
                    }
                    // a cell solved before this call, or newly solved and
                    // fully propagated, keeps its peers cleared
                    assert forall|i: int, k: int|
                        #[trigger] is_peer(i, k) && is_singleton(self@[i]) && !is_singleton(
                            s0[i],
                        ) && !pending(work@, i) && i != c as int implies self@[k] & self@[i]
                        == 0 by {
                        if pushed {
                            lemma_pending_push(w_pre, (p, new), i);
                        }
                        if i == p as int {
                            if new != old_p {
                                assert(pushed);
                                assert(pending(work@, i));
                            } else {
                                assert(self@[i] == s_pre[i]);
                                assert(s_pre[k] & s_pre[i] == 0);
                                assert(self@[k] == s_pre[k]);
                            }
                        } else {
                            assert(self@[i] == s_pre[i]);
                            assert(s_pre[k] & s_pre[i] == 0);
                            if k == p as int {
                                lemma_disjoint_shrink(new, old_p, s_pre[i]);
                            }
                        }
                    }
                    // every changed cell lost exactly the digit of a solved
                    // peer: the popped cell for this write, or the witness
                    // it already had
                    assert forall|cc: int|
                        0 <= cc < 81 && self@[cc] != s0[cc] implies exists|w: int|
                        is_peer(w, cc) && is_singleton(self@[w]) && s0[cc] & self@[w] != 0
                            && self@[cc] & self@[w] == 0 by {
                        if cc == p as int && new != old_p {
                            lemma_disjoint_shrink(old_p, s0[p as int], s);
                            assert(is_peer(c as int, cc) && is_singleton(self@[c as int])
                                && s0[cc] & self@[c as int] != 0 && self@[cc] & self@[c as int]
                                == 0);
                        } else {
                            assert(self@[cc] == s_pre[cc] && s_pre[cc] != s0[cc]);
                            let w0 = choose|w: int|
                                is_peer(w, cc) && is_singleton(s_pre[w]) && s0[cc] & s_pre[w]
                                    != 0 && s_pre[cc] & s_pre[w] == 0;
                            assert(self@[w0] == s_pre[w0]);
                            assert(is_peer(w0, cc) && is_singleton(self@[w0]) && s0[cc]
                                & self@[w0] != 0 && self@[cc] & self@[w0] == 0);
                        }
                    }
                    // a solution keeps covering the board: the digit
                    // removed from `p` is held by its peer `c`
                    assert forall|a: Seq<u16>|
                        #[trigger] solution_of(a, s0) && a[index as int] == mask implies covers(
                        a,
                        self@,
                    ) by {
                        lemma_singleton_covers(a[c as int], s);
                        lemma_submask_andnot(a[p as int], old_p, s);
                        assert forall|cc: int| 0 <= cc < 81 implies submask(
                            #[trigger] a[cc],
                            self@[cc],
                        ) by {
                            if cc != p as int {
                                assert(self@[cc] == s_pre[cc]);
                            }
                        }
                    }
                    // under a fully propagated assignment nothing changes
                    if calm {
                        assert(is_peer(index as int, p as int));
                        assert(s0[p as int] & mask == 0);
                        assert(new == old_p);
                        assert(self@ =~= s0);
                        assert(bitcount(new) == bitcount(old_p));
                        assert(!pushed);
                    }
                }
                t += 1;
            }
            proof {
                // all 20 peers of c processed: pairs touching c are now
                // discharged
                if consistent_except(s0, index as int) {
                    assert forall|i: int, j: int|
                        #[trigger] is_peer(i, j) && is_singleton(self@[i]) && !pending(work@, i)
                            && !pending(work@, j) implies self@[j] & self@[i] == 0 by {
                        if i == c as int {
                            assert(has_cell(nbrs@, j));
                            let u0 = choose|u: int| 0 <= u < 20 && nbrs@[u] as int == j;
                            assert(self@[j] & s == 0);
                        } else if j == c as int {
                            lemma_peer_symmetric(i, j);
                            assert(has_cell(nbrs@, i));
                            let u0 = choose|u: int| 0 <= u < 20 && nbrs@[u] as int == i;
                            assert(self@[i] & s == 0);
                            lemma_disjoint_shrink(self@[i], self@[i], s);
                        }
                    }
                }
                if c == index && s == mask {
                    assert forall|j: int| is_peer(index as int, j) implies self@[j] & mask
                        == 0 by {
                        assert(has_cell(nbrs@, j));
                        let u0 = choose|u: int| 0 <= u < 20 && nbrs@[u] as int == j;
                    }
                }
                assert forall|i: int, k: int|
                    #[trigger] is_peer(i, k) && is_singleton(self@[i]) && !is_singleton(s0[i])
                        && !pending(work@, i) implies self@[k] & self@[i] == 0 by {
                    if i == c as int {
                        assert(has_cell(nbrs@, k));
                        let u0 = choose|u: int| 0 <= u < 20 && nbrs@[u] as int == k;
                        assert(self@[k] & s == 0);
                    }
                }
            }
        }
        proof {
            assert(!has_entry(work@, (index, mask)));
            assert forall|i: int| !pending(work@, i) by {}
            if calm {
                assert(self@ =~= s0);
            }
            // a conflicting pair of solved peers cannot involve a newly
            // solved cell, whose peers were all cleared; both cells were
            // already solved, with these masks, on entry
            assert forall|i: int, j: int|
                #[trigger] is_peer(i, j) && is_singleton(self@[i]) && is_singleton(self@[j])
                    && self@[i] & self@[j] != 0 implies self@[i] == s0[i] && self@[j]
                == s0[j] by {
                lemma_peer_symmetric(i, j);
                if !is_singleton(s0[i]) {
                    assert(self@[j] & self@[i] == 0);
                    lemma_disjoint_shrink(self@[j], self@[j], self@[i]);
                    assert(false);
                }
                if !is_singleton(s0[j]) {
                    assert(self@[i] & self@[j] == 0);
                    assert(false);
                }
            }
        }
        true
    }

    /// Overwrites `tiles[index]` with the given singleton mask and cascades
    /// the elimination to all peers.  Returns `true` exactly when no cell
    /// ran out of candidates; on `false` the caller must restore a snapshot.
    /// Assigning the mask a cell already holds, when every peer already
    /// excludes it, changes nothing and succeeds; on a consistent board
    /// that condition is automatic.  A successful assignment keeps every
    /// solution covering the board that agrees with it, succeeds whenever
    /// such a solution exists, and traces any conflicting solved pair of
    /// the result back to the same conflict on entry.
    pub fn set_mask(&mut self, index: usize, mask: u16) -> (r: bool)
        requires
            old(self).wf(),
            index < 81,
            is_singleton(mask),
            mask_in_range(mask),
        ensures
            final(self).wf(),
            final(self)@[index as int] == mask,
            forall|c: int|
                0 <= c < 81 && c != index as int ==> submask(
                    #[trigger] final(self)@[c],
                    old(self)@[c],
                ),
            forall|c: int|
                0 <= c < 81 && c != index as int && is_singleton(old(self)@[c]) ==> final(self)@[c] == old(self)@[c],
            r ==> forall|j: int| is_peer(index as int, j) ==> final(self)@[j] & mask == 0,
            r && consistent(old(self)@) ==> consistent(final(self)@),
            consistent(old(self)@) && old(self)@[index as int] == mask ==> r && final(self)@
                == old(self)@,
            forall|a: Seq<u16>|
                #[trigger] solution_of(a, old(self)@) && a[index as int] == mask ==> covers(
                    a,
                    final(self)@,
                ),
            (exists|a: Seq<u16>|
                #[trigger] solution_of(a, old(self)@) && a[index as int] == mask) ==> r,
            r ==> forall|i: int, j: int|
                #[trigger] is_peer(i, j) && is_singleton(final(self)@[i]) && is_singleton(
                    final(self)@[j],
                ) && final(self)@[i] & final(self)@[j] != 0 ==> final(self)@[i] == old(self)@[i]
                    && final(self)@[j] == old(self)@[j],
            (old(self)@[index as int] == mask && (forall|j: int|
                is_peer(index as int, j) ==> old(self)@[j] & mask == 0)) ==> r && final(self)@
                == old(self)@,
    {
        proof {
            lemma_bitcount_zero(mask);
        }
        let ghost s_before = self@;
        self.tiles[index] = mask;
        let ghost s_mid = self@;
        proof {
            if s_before[index as int] == mask {
                assert(s_mid =~= s_before);
            }
            if consistent(s_before) {
                assert forall|i: int, j: int|
                    #[trigger] is_peer(i, j) && i != index as int && j != index as int
                        && is_singleton(s_mid[i]) implies s_mid[j] & s_mid[i] == 0 by {
                    assert(s_mid[i] == s_before[i] && s_mid[j] == s_before[j]);
                }
            }
            // a solution assigning `mask` here still covers the rewritten
            // board: only the cell at `index` changed, to the very mask the
            // solution holds
            assert forall|a: Seq<u16>|
                #[trigger] solution_of(a, s_before) && a[index as int] == mask implies solution_of(
                a,
                s_mid,
            ) by {
                assert forall|cc: int| 0 <= cc < 81 implies submask(
                    #[trigger] a[cc],
                    s_mid[cc],
                ) by {
                    lemma_submask_trans(a[cc], a[cc], a[cc]);
                }
            }
        }
        let r = self.set_neighbors_mask(index, mask);
        proof {
            if consistent(s_before) && s_before[index as int] == mask {
                assert forall|j: int| is_peer(index as int, j) implies s_mid[j] & mask == 0 by {
                    assert(is_singleton(s_before[index as int]));
                }
            }
            if r {
                // a conflicting pair of solved peers cannot involve the
                // assigned cell, whose peers were all cleared of its mask
                assert forall|i: int, j: int|
                    #[trigger] is_peer(i, j) && is_singleton(self@[i]) && is_singleton(self@[j])
                        && self@[i] & self@[j] != 0 implies self@[i] == s_before[i] && self@[j]
                    == s_before[j] by {
                    lemma_peer_symmetric(i, j);
                    if i == index as int {
                        assert(self@[j] & mask == 0);
                        lemma_disjoint_shrink(self@[j], self@[j], self@[i]);
                        assert(false);
                    }
                    if j == index as int {
                        assert(self@[i] & mask == 0);
                        assert(false);
                    }
                    assert(self@[i] == s_mid[i] && self@[j] == s_mid[j]);
                }
            }
        }
        r
    }

    /// Assigns digit `tile` (in `1..=9`) to the cell at `index` and
    /// propagates the assignment, as [`Board::set_mask`] does for its
    /// singleton mask.
    pub fn set(&mut self, index: usize, tile: u8) -> (r: bool)
        requires
            old(self).wf(),
            index < 81,
            1 <= tile <= 9,
        ensures
            final(self).wf(),
            final(self)@[index as int] == mask_of(tile as u16),
            forall|c: int|
                0 <= c < 81 && c != index as int ==> submask(
                    #[trigger] final(self)@[c],
                    old(self)@[c],
                ),
            forall|c: int|
                0 <= c < 81 && c != index as int && is_singleton(old(self)@[c]) ==> final(self)@[c] == old(self)@[c],
            r ==> forall|j: int|
                is_peer(index as int, j) ==> final(self)@[j] & mask_of(tile as u16) == 0,
            r && consistent(old(self)@) ==> consistent(final(self)@),
            consistent(old(self)@) && old(self)@[index as int] == mask_of(tile as u16) ==> r
                && final(self)@ == old(self)@,
            forall|a: Seq<u16>|
                #[trigger] solution_of(a, old(self)@) && a[index as int] == mask_of(tile as u16)
                    ==> covers(a, final(self)@),
            (exists|a: Seq<u16>|
                #[trigger] solution_of(a, old(self)@) && a[index as int] == mask_of(
                    tile as u16,
                )) ==> r,
            r ==> forall|i: int, j: int|
                #[trigger] is_peer(i, j) && is_singleton(final(self)@[i]) && is_singleton(
                    final(self)@[j],
                ) && final(self)@[i] & final(self)@[j] != 0 ==> final(self)@[i] == old(self)@[i]
                    && final(self)@[j] == old(self)@[j],
            (old(self)@[index as int] == mask_of(tile as u16) && (forall|j: int|
                is_peer(index as int, j) ==> old(self)@[j] & mask_of(tile as u16) == 0)) ==> r
                && final(self)@ == old(self)@,
    {
        let mask = 1u16 << ((tile - 1) as u16);
        proof {
            lemma_mask_of(tile as u16);
            assert(mask == mask_of(tile as u16));
        }
        self.set_mask(index, mask)
    }

    /// Builds a board from 81 initial clues (`0` = blank, `1..=9` = given
    /// digit) by assigning each nonzero clue in turn.  A contradiction
    /// detected while propagating a clue is deliberately swallowed: the
    /// conflicting clue stays on the board and its cascade stops, so
    /// malformed puzzles are not rejected up front but discovered through
    /// the outcome of `solve`.  Every clue cell ends up holding exactly its
    /// clue's singleton mask, a blank puzzle builds the fresh board, every
    /// complete valid grid honoring the clues still covers the built board,
    /// and when such a grid exists every clue applies cleanly, leaving the
    /// board consistent.
    #[verifier::loop_isolation(false)]
    pub fn from_tiles(tiles: Vec<u8>) -> (b: Board)
        requires
            tiles@.len() == 81,
            forall|i: int| 0 <= i < 81 ==> tiles@[i] <= 9,
        ensures
            b.wf(),
            forall|i: int|
                0 <= i < 81 && 1 <= tiles@[i] ==> b@[i] == mask_of(tiles@[i] as u16),
            (forall|i: int| 0 <= i < 81 ==> tiles@[i] == 0) ==> forall|i: int|
                0 <= i < 81 ==> b@[i] == ALL_POSSIBLE,
            forall|a: Seq<u16>|
                #[trigger] is_complete_grid(a) && honors_clues(a, tiles@) ==> covers(a, b@),
            (exists|a: Seq<u16>| #[trigger] is_complete_grid(a) && honors_clues(a, tiles@))
                ==> consistent(b@),
    {
        let mut board = Board::new();
        let mut index: usize = 0;
        while index < 81
            invariant
                index <= 81,
                board.wf(),
                forall|i: int|
                    0 <= i < index && 1 <= tiles@[i] ==> board@[i] == mask_of(tiles@[i] as u16),
                (forall|i: int| 0 <= i < 81 ==> tiles@[i] == 0) ==> forall|i: int|
                    0 <= i < 81 ==> board@[i] == ALL_POSSIBLE,
                forall|a: Seq<u16>|
                    #[trigger] is_complete_grid(a) && honors_clues(a, tiles@) ==> covers(
                        a,
                        board@,
                    ),
                (exists|a: Seq<u16>| #[trigger] is_complete_grid(a) && honors_clues(a, tiles@))
                    ==> consistent(board@),
            decreases 81 - index,
        {
            let tile = tiles[index];
            if tile != 0 {
                let ghost b_pre = board@;
                let _applied = board.set(index, tile);
                proof {
                    assert forall|i: int|
                        0 <= i < index + 1 && 1 <= tiles@[i] implies board@[i] == mask_of(
                        tiles@[i] as u16,
                    ) by {
                        if i < index as int {
                            lemma_mask_of(tiles@[i] as u16);
                        }
                    }
                    // a grid honoring all clues was a solution of the board
                    // before this clue, so the assignment keeps covering it
                    assert forall|a: Seq<u16>|
                        #[trigger] is_complete_grid(a) && honors_clues(a, tiles@) implies covers(
                        a,
                        board@,
                    ) by {
                        assert(a[index as int] == mask_of(tile as u16));
                        assert(solution_of(a, b_pre));
                    }
                    // and its existence means the clue applied cleanly,
                    // preserving consistency
                    if exists|a: Seq<u16>|
                        #[trigger] is_complete_grid(a) && honors_clues(a, tiles@) {
                        let a = choose|a: Seq<u16>|
                            #[trigger] is_complete_grid(a) && honors_clues(a, tiles@);
                        assert(solution_of(a, b_pre) && a[index as int] == mask_of(
                            tile as u16,
                        ));
                        assert(_applied);
                        assert(consistent(board@));
                    }
                }
            }
            index += 1;
        }
        board
    }

    /// Backtracking search.  Picks an undetermined cell with the fewest
    /// remaining candidates, tries each of its candidate digits in
    /// increasing order, and recurses; a failed branch restores the saved
    /// snapshot before the next digit is tried.  On success every cell is
    /// solved, each cell kept one of the candidates it had on entry, and a
    /// consistent board stays consistent; on failure the board is exactly
    /// as it was on entry.  The search is also complete: whenever some
    /// valid fully solved assignment is still covered by the current
    /// candidate masks, it finds one and returns `true`.  Success leaves
    /// every cell that was already solved untouched, and any two solved
    /// peers sharing a digit afterwards already shared it on entry: the
    /// search solves boards, it never repairs or worsens an inconsistent
    /// one.
    #[verifier::loop_isolation(false)]
    pub fn solve(&mut self) -> (r: bool)
        requires
            old(self).wf(),
        ensures
            final(self).wf(),
            !r ==> final(self)@ == old(self)@,
            r ==> forall|c: int| 0 <= c < 81 ==> is_singleton(#[trigger] final(self)@[c]),
            r ==> forall|c: int|
                0 <= c < 81 ==> submask(#[trigger] final(self)@[c], old(self)@[c]),
            r && consistent(old(self)@) ==> consistent(final(self)@),
            (forall|c: int| 0 <= c < 81 ==> !is_multi(old(self)@[c])) ==> r,
            (exists|a: Seq<u16>| #[trigger] solution_of(a, old(self)@)) ==> r,
            r ==> forall|c: int|
                0 <= c < 81 && is_singleton(old(self)@[c]) ==> final(self)@[c] == old(self)@[c],
            r ==> forall|i: int, j: int|
                #[trigger] is_peer(i, j) && final(self)@[i] & final(self)@[j] != 0
                    ==> final(self)@[i] == old(self)@[i] && final(self)@[j] == old(self)@[j],
        decreases count_multi(self@, 81),
    {
        let mut best: usize = 81;
        let mut best_count: u16 = 10;
        let mut i: usize = 0;
        while i < 81
            invariant
                i <= 81,
                best <= 81,
                best == 81 ==> best_count == 10,
                best == 81 ==> forall|k: int| 0 <= k < i ==> !is_multi(#[trigger] self@[k]),
                best < 81 ==> is_multi(self@[best as int]),
            decreases 81 - i,
        {
            let ones = count_candidates(self.tiles[i]);
            if ones > 1 && ones < best_count {
                best = i;
                best_count = ones;
            }
            i += 1;
        }
        if best == 81 {
            proof {
                assert forall|c: int| 0 <= c < 81 implies is_singleton(#[trigger] self@[c]) by {
                    lemma_bitcount_zero(self@[c]);
                }
                assert forall|c: int| 0 <= c < 81 implies submask(
                    #[trigger] self@[c],
                    old(self)@[c],
                ) by {
                    lemma_submask_trans(self@[c], self@[c], self@[c]);
                }
            }
            return true;
        }
        let snapshot = copy_masks(&self.tiles);
        let cell_mask = self.tiles[best];
        let mut d: u16 = 0;
        proof {
            assert forall|a: Seq<u16>| #[trigger] solution_of(a, old(self)@) implies low_zero(
                a[best as int],
                0,
            ) by {
                lemma_digit_floor(a[best as int], 0);
            }
        }
        while d < 9
            invariant
                d <= 9,
                best < 81,
                self@ == old(self)@,
                forall|a: Seq<u16>|
                    #[trigger] solution_of(a, old(self)@) ==> low_zero(a[best as int], d),
            decreases 9 - d,
        {
            let m = 1u16 << d;
            if cell_mask & m != 0 {
                proof {
                    lemma_bit_of(cell_mask, d);
                }
                let success = self.set_mask(best, m);
                let ghost s_mid = self@;
                if success {
                    proof {
                        assert forall|k: int|
                            0 <= k < 81 && is_multi(#[trigger] self@[k]) implies is_multi(
                            old(self)@[k],
                        ) by {
                            if k != best as int {
                                lemma_submask_count(self@[k], old(self)@[k]);
                            }
                        }
                        lemma_count_multi_lt(old(self)@, self@, 81, best as int);
                        lemma_count_multi_nonneg(self@, 81);
                    }
                    if self.solve() {
                        proof {
                            assert forall|c: int| 0 <= c < 81 implies submask(
                                #[trigger] self@[c],
                                old(self)@[c],
                            ) by {
                                if c != best as int {
                                    lemma_submask_trans(self@[c], s_mid[c], old(self)@[c]);
                                } else {
                                    lemma_submask_trans(self@[c], m, old(self)@[c]);
                                }
                            }
                            // cells solved on entry pass unchanged through the
                            // assignment and the recursive search
                            assert forall|c: int|
                                0 <= c < 81 && is_singleton(old(self)@[c]) implies self@[c]
                                == old(self)@[c] by {
                                if c != best as int {
                                    assert(s_mid[c] == old(self)@[c]);
                                }
                            }
                            // a conflicting solved pair traces back through
                            // both steps to the entry state
                            assert forall|i: int, j: int|
                                #[trigger] is_peer(i, j) && self@[i] & self@[j] != 0 implies
                                self@[i] == old(self)@[i] && self@[j] == old(self)@[j] by {
                                assert(self@[i] == s_mid[i] && self@[j] == s_mid[j]);
                                assert(is_singleton(s_mid[i]) && is_singleton(s_mid[j]));
                            }
                        }
                        return true;
                    }
                }
                self.tiles = copy_masks(&snapshot);
                proof {
                    assert(self@ =~= old(self)@);
                    // this digit led to a contradiction or a failed search,
                    // so no completion assigns it here either
                    assert forall|a: Seq<u16>| #[trigger] solution_of(a, old(self)@) implies
                        low_zero(a[best as int], (d + 1) as u16) by {
                        if a[best as int] == m {
                            assert(solution_of(a, old(self)@) && a[best as int] == m);
                            assert(success);
                            assert(solution_of(a, s_mid));
                            assert(false);
                        }
                        lemma_digit_floor(a[best as int], d);
                    }
                }
            } else {
                proof {
                    // the digit is not even a candidate of the chosen cell,
                    // so no completion assigns it here
                    assert forall|a: Seq<u16>| #[trigger] solution_of(a, old(self)@) implies
                        low_zero(a[best as int], (d + 1) as u16) by {
                        if a[best as int] == m {
                            lemma_disjoint_shrink(cell_mask, cell_mask, m);
                            lemma_bit_of(cell_mask, d);
                            lemma_bitcount_zero(m);
                            assert(false);
                        }
                        lemma_digit_floor(a[best as int], d);
                    }
                }
            }
            d += 1;
        }
        proof {
            // every candidate digit of the chosen cell has been refuted, so
            // no completion of this board exists at all
            if exists|a: Seq<u16>| #[trigger] solution_of(a, old(self)@) {
                let a = choose|a: Seq<u16>| #[trigger] solution_of(a, old(self)@);
                lemma_digit_floor(a[best as int], 9);
                assert(false);
            }
        }
        false
    }
}

/// The text of digit `d`, for `d` in `1..=9`.
pub open spec fn digit_text(d: int) -> Seq<char> {
    if d == 1 {
        "1"@
    } else if d == 2 {
        "2"@
    } else if d == 3 {
        "3"@
    } else if d == 4 {
        "4"@
    } else if d == 5 {
        "5"@
    } else if d == 6 {
        "6"@
    } else if d == 7 {
        "7"@
    } else if d == 8 {
        "8"@
    } else {
        "9"@
    }
}

/// `n` spaces of padding.
pub open spec fn pad_text(n: int) -> Seq<char>
    decreases n,
{
    if n <= 0 {
        Seq::empty()
    } else {
        pad_text(n - 1) + " "@
    }
}

/// The candidate digits of `m` that are smaller than `d`, ascending.
pub open spec fn digits_below(m: u16, d: int) -> Seq<char>
    decreases d,
{
    if d <= 1 {
        Seq::empty()
    } else {
        digits_below(m, d - 1) + if m & (1u16 << ((d - 2) as u16)) != 0 {
            digit_text(d - 1)
        } else {
            Seq::empty()
        }
    }
}

/// One rendered cell: its candidate digits in ascending order,
/// right-aligned to width `align`, followed by a space.
pub open spec fn cell_text(m: u16, align: int) -> Seq<char> {
    pad_text(align - bitcount(m)) + digits_below(m, 10) + " "@
}

/// The first `x` cells of row `y`, with a `| ` before each column band.
pub open spec fn row_text_below(s: Seq<u16>, y: int, x: int, align: int) -> Seq<char>
    decreases x,
{
    if x <= 0 {
        Seq::empty()
    } else {
        row_text_below(s, y, x - 1, align) + (if (x - 1) % 3 == 0 {
            "| "@
        } else {
            Seq::empty()
        }) + cell_text(s[y * 9 + (x - 1)], align)
    }
}

/// The first `y` rendered rows, with a dashed rule before each row band and
/// a newline after each row.
pub open spec fn grid_text_below(s: Seq<u16>, y: int, align: int) -> Seq<char>
    decreases y,
{
    if y <= 0 {
        Seq::empty()
    } else {
        grid_text_below(s, y - 1, align) + (if (y - 1) % 3 == 0 {
            "------------------------------\n"@
        } else {
            Seq::empty()
        }) + row_text_below(s, y - 1, 9, align) + "\n"@
    }
}

/// The widest candidate count among the first `n` cells, at least 1.
pub open spec fn max_candidates(s: Seq<u16>, n: int) -> int
    decreases n,
{
    if n <= 0 {
        1
    } else if bitcount(s[n - 1]) > max_candidates(s, n - 1) {
        bitcount(s[n - 1])
    } else {
        max_candidates(s, n - 1)
    }
}

/// The full rendered grid of a board.
pub open spec fn render_text(s: Seq<u16>) -> Seq<char> {
    grid_text_below(s, 9, max_candidates(s, 81))
}

/// The decimal digit `d` as text, for `d` in `1..=9`.
fn digit_str(d: u16) -> (r: &'static str)
    requires
        1 <= d <= 9,
    ensures
        r@ == digit_text(d as int),
{
    match d {
        1 => "1",
        2 => "2",
        3 => "3",
        4 => "4",
        5 => "5",
        6 => "6",
        7 => "7",
        8 => "8",
        _ => "9",
    }
}

impl Board {
    /// A human-readable 9x9 grid: per cell the remaining candidate digits
    /// in ascending order, right-aligned to the widest cell, with a dashed
    /// rule before each band of three rows and a `| ` before each band of
    /// three columns.  The returned text is exactly `render_text` of the
    /// board.
    #[verifier::rlimit(80)]
    pub fn render(&self) -> (r: String)
        requires
            self.wf(),
        ensures
            r@ == render_text(self@),
    {
        let mut align: u16 = 1;
        let mut i: usize = 0;
        while i < 81
            invariant
                i <= 81,
                self.wf(),
                1 <= align <= 9,
                align as int == max_candidates(self@, i as int),
            decreases 81 - i,
        {
            let c = count_candidates(self.tiles[i]);
            if c > align {
                align = c;
            }
            i += 1;
        }
        let mut out = String::new();
        let mut y: usize = 0;
        while y < 9
            invariant
                self.wf(),
                y <= 9,
                1 <= align <= 9,
                align as int == max_candidates(self@, 81),
                out@ == grid_text_below(self@, y as int, align as int),
            decreases 9 - y,
        {
            let ghost g0 = out@;
            let ghost rule = if y as int % 3 == 0 {
                "------------------------------\n"@
            } else {
                Seq::<char>::empty()
            };
            if y % 3 == 0 {
                out.append("------------------------------\n");
            }
            proof {
                assert(out@ =~= g0 + rule + row_text_below(self@, y as int, 0, align as int));
            }
            let mut x: usize = 0;
            while x < 9
                invariant
                    self.wf(),
                    x <= 9,
                    y < 9,
                    1 <= align <= 9,
                    g0 == grid_text_below(self@, y as int, align as int),
                    rule == (if y as int % 3 == 0 {
                        "------------------------------\n"@
                    } else {
                        Seq::<char>::empty()
                    }),
                    out@ == g0 + rule + row_text_below(self@, y as int, x as int, align as int),
                decreases 9 - x,
            {
                let ghost r0 = out@;
                let ghost sep = if x as int % 3 == 0 {
                    "| "@
                } else {
                    Seq::<char>::empty()
                };
                if x % 3 == 0 {
                    out.append("| ");
                }
                proof {
                    assert(out@ =~= r0 + sep);
                }
                let m = self.tiles[x + y * 9];
                let ghost c0 = out@;
                let width = count_candidates(m);
                let mut pad = width;
                while pad < align
                    invariant
                        width <= pad <= 9,
                        width == bitcount(m),
                        align <= 9,
                        width <= align ==> pad <= align,
                        width > align ==> pad == width,
                        c0 == r0 + sep,
                        out@ == c0 + pad_text(pad as int - width as int),
                    decreases align - pad,
                {
                    let ghost p0 = out@;
                    out.append(" ");
                    proof {
                        assert(out@ =~= c0 + pad_text(pad as int + 1 - width as int));
                    }
                    pad += 1;
                }
                proof {
                    assert(out@ =~= c0 + pad_text(align as int - bitcount(m)));
                }
                let ghost d0 = c0 + pad_text(align as int - bitcount(m));
                let mut d: u16 = 1;
                while d <= 9
                    invariant
                        1 <= d <= 10,
                        d0 == r0 + sep + pad_text(align as int - bitcount(m)),
                        out@ == d0 + digits_below(m, d as int),
                    decreases 10 - d,
                {
                    let ghost q0 = out@;
                    if m & (1u16 << (d - 1)) != 0 {
                        out.append(digit_str(d));
                    }
                    proof {
                        assert(out@ =~= d0 + digits_below(m, d as int + 1));
                    }
                    d += 1;
                }
                out.append(" ");
                proof {
                    assert(out@ =~= r0 + sep + cell_text(m, align as int));
                    assert(out@ =~= g0 + rule + row_text_below(
                        self@,
                        y as int,
                        x as int + 1,
                        align as int,
                    ));
                }
                x += 1;
            }
            out.append("\n");
            proof {
                assert(out@ =~= grid_text_below(self@, y as int + 1, align as int));
            }
            y += 1;
        }
        out
    }
}

/// An exact copy of a mask array, used to snapshot the board before a
/// speculative assignment and to restore it afterwards.
fn copy_masks(src: &Vec<u16>) -> (r: Vec<u16>)
    ensures
        r@ == src@,
{
    let mut r: Vec<u16> = Vec::new();
    let mut i: usize = 0;
    while i < src.len()
        invariant
            i <= src@.len(),
            r@.len() == i,
            forall|k: int| 0 <= k < i ==> r@[k] == src@[k],
        decreases src@.len() - i,
    {
        r.push(src[i]);
        i += 1;
    }
    proof {
        assert(r@ =~= src@);
    }
    r
}

} // verus!
