//! The collision model of the board and its fitness value: which rows hold
//! mutually attacking queens, and how many rows participate in a collision.

use vstd::prelude::*;

use crate::board::QueensBoard;

verus! {

/// Rows `i` and `j` hold mutually attacking queens: distinct rows that share
/// a column, a `(column - row)` diagonal, or a `(column + row)` anti-diagonal
/// (the `(n - 1 - column - row)` axis with the constant `n - 1` dropped).
pub open spec fn attacks(s: Seq<u8>, i: int, j: int) -> bool {
    i != j && (s[i] == s[j] || s[i] - i == s[j] - j || s[i] + i == s[j] + j)
}

/// The queen of row `i` attacks a queen of some row below `r`.
pub open spec fn colliding_among(s: Seq<u8>, i: int, r: int) -> bool {
    exists|j: int| 0 <= j < r && attacks(s, i, j)
}

/// Row `i` participates in at least one collision.
pub open spec fn is_colliding(s: Seq<u8>, i: int) -> bool {
    colliding_among(s, i, s.len() as int)
}

/// How many of the first `k` rows participate in a collision.
pub open spec fn num_colliding_upto(s: Seq<u8>, k: int) -> int
    decreases k,
{
    if k <= 0 {
        0
    } else {
        num_colliding_upto(s, k - 1) + if is_colliding(s, k - 1) {
            1int
        } else {
            0int
        }
    }
}

/// How many rows of the board participate in a collision.
pub open spec fn num_colliding(s: Seq<u8>) -> int {
    num_colliding_upto(s, s.len() as int)
}

/// The fitness of a board: its length minus the number of rows that
/// participate in at least one collision.
pub open spec fn fitness_of(s: Seq<u8>) -> int {
    s.len() - num_colliding(s)
}

pub proof fn lemma_num_colliding_upto_bounds(s: Seq<u8>, k: int)
    ensures
        0 <= num_colliding_upto(s, k),
        k >= 0 ==> num_colliding_upto(s, k) <= k,
    decreases k,
{
    if k > 0 {
        lemma_num_colliding_upto_bounds(s, k - 1);
    }
}

/// Fitness always lies between `0` and the board length.
pub proof fn lemma_fitness_range(s: Seq<u8>)
    ensures
        0 <= fitness_of(s) <= s.len(),
{
    lemma_num_colliding_upto_bounds(s, s.len() as int);
}

proof fn lemma_num_colliding_upto_zero_iff(s: Seq<u8>, k: int)
    ensures
        num_colliding_upto(s, k) == 0 <==> (forall|i: int| 0 <= i < k ==> !is_colliding(s, i)),
    decreases k,
{
    if k > 0 {
        lemma_num_colliding_upto_zero_iff(s, k - 1);
        lemma_num_colliding_upto_bounds(s, k - 1);
    }
}

/// A board reaches the maximal fitness — its own length — exactly when no two
/// rows share a column, a diagonal, or an anti-diagonal.
pub proof fn lemma_max_fitness_iff_no_attacks(s: Seq<u8>)
    ensures
        fitness_of(s) == s.len() <==> (forall|i: int, j: int|
            0 <= i < s.len() && 0 <= j < s.len() ==> !attacks(s, i, j)),
{
    lemma_num_colliding_upto_zero_iff(s, s.len() as int);
    if forall|i: int| 0 <= i < s.len() ==> !is_colliding(s, i) {
        assert forall|i: int, j: int|
            0 <= i < s.len() && 0 <= j < s.len() implies !attacks(s, i, j) by {
            assert(!is_colliding(s, i));
        }
    }
    if forall|i: int, j: int| 0 <= i < s.len() && 0 <= j < s.len() ==> !attacks(s, i, j) {
        assert forall|i: int| 0 <= i < s.len() implies !is_colliding(s, i) by {
            assert forall|j: int| 0 <= j < s.len() implies !attacks(s, i, j) by {}
        }
    }
}

/// The column axis: two rows collide vertically when these agree.
spec fn vbucket(s: Seq<u8>, i: int) -> int {
    s[i] as int
}

/// The diagonal axis `(column - row)`, shifted by `n - 1` to be non-negative.
spec fn dbucket(s: Seq<u8>, i: int) -> int {
    s[i] + s.len() - 1 - i
}

/// The anti-diagonal axis `(n - 1 - column - row)`, shifted by `n - 1`.
spec fn abucket(s: Seq<u8>, i: int) -> int {
    2 * (s.len() - 1) - s[i] - i
}

proof fn lemma_bucket_attacks(s: Seq<u8>, i: int, j: int)
    requires
        0 <= i < s.len(),
        0 <= j < s.len(),
        i != j,
    ensures
        attacks(s, i, j) <==> (vbucket(s, i) == vbucket(s, j) || dbucket(s, i) == dbucket(s, j)
            || abucket(s, i) == abucket(s, j)),
{
}

/// The marker `v` records the most recent row below `row` whose queen sits in
/// bucket `b` of an axis, or `-1` when no such row exists yet.
spec fn last_seen_v(s: Seq<u8>, v: isize, row: int, b: int) -> bool {
    if v == -1isize {
        forall|j: int| 0 <= j < row ==> #[trigger] vbucket(s, j) != b
    } else {
        0 <= v < row && vbucket(s, v as int) == b && (forall|j: int|
            v < j < row ==> #[trigger] vbucket(s, j) != b)
    }
}

spec fn last_seen_d(s: Seq<u8>, v: isize, row: int, b: int) -> bool {
    if v == -1isize {
        forall|j: int| 0 <= j < row ==> #[trigger] dbucket(s, j) != b
    } else {
        0 <= v < row && dbucket(s, v as int) == b && (forall|j: int|
            v < j < row ==> #[trigger] dbucket(s, j) != b)
    }
}

spec fn last_seen_a(s: Seq<u8>, v: isize, row: int, b: int) -> bool {
    if v == -1isize {
        forall|j: int| 0 <= j < row ==> #[trigger] abucket(s, j) != b
    } else {
        0 <= v < row && abucket(s, v as int) == b && (forall|j: int|
            v < j < row ==> #[trigger] abucket(s, j) != b)
    }
}

fn filled_neg(len: usize) -> (r: Vec<isize>)
    ensures
        r@.len() == len,
        forall|k: int| 0 <= k < len ==> r@[k] == -1isize,
{
    let mut v: Vec<isize> = Vec::new();
    let mut i: usize = 0;
    while i < len
        invariant
            i <= len,
            v@.len() == i,
            forall|k: int| 0 <= k < i ==> v@[k] == -1isize,
        decreases len - i,
    {
        v.push(-1);
        i += 1;
    }
    v
}

fn filled_false(len: usize) -> (r: Vec<bool>)
    ensures
        r@.len() == len,
        forall|k: int| 0 <= k < len ==> !r@[k],
    {
    let mut v: Vec<bool> = Vec::new();
    let mut i: usize = 0;
    while i < len
        invariant
            i <= len,
            v@.len() == i,
            forall|k: int| 0 <= k < i ==> !v@[k],
        decreases len - i,
    {
        v.push(false);
        i += 1;
    }
    v
}

impl QueensBoard {
    /// Scores the board in linear time: its length minus the number of rows
    /// whose queen attacks, or is attacked by, another queen. One pass records
    /// the most recent row seen on every column, diagonal and anti-diagonal;
    /// a repeat along any axis marks both participating rows as colliding.
    pub fn fitness(&self) -> (r: usize)
        requires
            self.wf(),
            self@.len() < usize::MAX / 2,
        ensures
            r == fitness_of(self@),
            r <= self@.len(),
    {
        let ghost s = self@;
        let g = self.genes();
        let n = g.len();
        if n == 0 {
            return 0;
        }
        let mut verticals = filled_neg(n);
        let mut diagonals = filled_neg(2 * n - 1);
        let mut inv_diags = filled_neg(2 * n - 1);
        let mut collisions = filled_false(n);

        let mut row: usize = 0;
        while row < n
            invariant
                g@ == s,
                n == s.len(),
                1 <= n < usize::MAX / 2,
                forall|i: int| 0 <= i < n ==> s[i] < n,
                row <= n,
                verticals@.len() == n,
                diagonals@.len() == 2 * n - 1,
                inv_diags@.len() == 2 * n - 1,
                collisions@.len() == n,
                forall|b: int| 0 <= b < n ==> last_seen_v(s, #[trigger] verticals@[b], row as int, b),
                forall|b: int|
                    0 <= b < 2 * n - 1 ==> last_seen_d(s, #[trigger] diagonals@[b], row as int, b),
                forall|b: int|
                    0 <= b < 2 * n - 1 ==> last_seen_a(s, #[trigger] inv_diags@[b], row as int, b),
                forall|i: int|
                    0 <= i < n ==> (#[trigger] collisions@[i] <==> (i < row
                        && colliding_among(s, i, row as int))),
            decreases n - row,
        {
            let ghost r0 = row as int;
            let ghost cols0 = collisions@;
            let ghost verts0 = verticals@;
            let ghost diags0 = diagonals@;
            let ghost invds0 = inv_diags@;

            let queen = g[row] as usize;
            let ghost q = queen as int;
            assert(vbucket(s, r0) == q);

            let pv = verticals[queen];
            if pv > -1 {
                collisions.set(row, true);
                collisions.set(pv as usize, true);
            }
            verticals.set(queen, row as isize);

            let d = queen + (n - 1 - row);
            let ghost dd = d as int;
            assert(dbucket(s, r0) == dd);
            let pd = diagonals[d];
            if pd > -1 {
                collisions.set(row, true);
                collisions.set(pd as usize, true);
            }
            diagonals.set(d, row as isize);

            let a = (n - 1 - queen) + (n - 1 - row);
            let ghost aa = a as int;
            assert(abucket(s, r0) == aa);
            let pa = inv_diags[a];
            if pa > -1 {
                collisions.set(row, true);
                collisions.set(pa as usize, true);
            }
            inv_diags.set(a, row as isize);

            proof {
                // The three last-seen tables keep their meaning for one more row.
                assert forall|b: int| 0 <= b < n implies last_seen_v(
                    s,
                    #[trigger] verticals@[b],
                    r0 + 1,
                    b,
                ) by {
                    if b != q {
                        assert(verticals@[b] == verts0[b]);
                        assert(last_seen_v(s, verts0[b], r0, b));
                    }
                }
                assert forall|b: int| 0 <= b < 2 * n - 1 implies last_seen_d(
                    s,
                    #[trigger] diagonals@[b],
                    r0 + 1,
                    b,
                ) by {
                    if b != dd {
                        assert(diagonals@[b] == diags0[b]);
                        assert(last_seen_d(s, diags0[b], r0, b));
                    }
                }
                assert forall|b: int| 0 <= b < 2 * n - 1 implies last_seen_a(
                    s,
                    #[trigger] inv_diags@[b],
                    r0 + 1,
                    b,
                ) by {
                    if b != aa {
                        assert(inv_diags@[b] == invds0[b]);
                        assert(last_seen_a(s, invds0[b], r0, b));
                    }
                }

                // Exactly the rows marked so far, the current row when an axis
                // repeated, and the recorded partners are set in `collisions`.
                assert forall|i: int| 0 <= i < n implies (#[trigger] collisions@[i] == (cols0[i] || (
                i == r0 && (pv > -1 || pd > -1 || pa > -1)) || (pv > -1 && i == pv as int) || (pd
                    > -1 && i == pd as int) || (pa > -1 && i == pa as int))) by {}

                // Every marked row indeed participates in a collision.
                assert forall|i: int| 0 <= i < n && collisions@[i] implies (i < r0 + 1
                    && colliding_among(s, i, r0 + 1)) by {
                    if cols0[i] {
                        let w = choose|w: int| 0 <= w < r0 && attacks(s, i, w);
                        assert(0 <= w < r0 + 1 && attacks(s, i, w));
                    } else {
                        if i == r0 && (pv > -1 || pd > -1 || pa > -1) {
                            if pv > -1 {
                                assert(last_seen_v(s, verts0[q], r0, q));
                                lemma_bucket_attacks(s, r0, pv as int);
                                assert(0 <= (pv as int) < r0 + 1 && attacks(s, i, pv as int));
                            } else if pd > -1 {
                                assert(last_seen_d(s, diags0[dd], r0, dd));
                                lemma_bucket_attacks(s, r0, pd as int);
                                assert(0 <= (pd as int) < r0 + 1 && attacks(s, i, pd as int));
                            } else {
                                assert(last_seen_a(s, invds0[aa], r0, aa));
                                lemma_bucket_attacks(s, r0, pa as int);
                                assert(0 <= (pa as int) < r0 + 1 && attacks(s, i, pa as int));
                            }
                        } else if pv > -1 && i == pv as int {
                            assert(last_seen_v(s, verts0[q], r0, q));
                            lemma_bucket_attacks(s, i, r0);
                            assert(0 <= r0 < r0 + 1 && attacks(s, i, r0));
                        } else if pd > -1 && i == pd as int {
                            assert(last_seen_d(s, diags0[dd], r0, dd));
                            lemma_bucket_attacks(s, i, r0);
                            assert(0 <= r0 < r0 + 1 && attacks(s, i, r0));
                        } else {
                            assert(pa > -1 && i == pa as int);
                            assert(last_seen_a(s, invds0[aa], r0, aa));
                            lemma_bucket_attacks(s, i, r0);
                            assert(0 <= r0 < r0 + 1 && attacks(s, i, r0));
                        }
                    }
                }

                // Every row that participates in a collision is marked.
                assert forall|i: int| 0 <= i < r0 + 1 && colliding_among(s, i, r0 + 1) implies
                    collisions@[i] by {
                    let w = choose|w: int| 0 <= w < r0 + 1 && attacks(s, i, w);
                    if i < r0 && w < r0 {
                        assert(colliding_among(s, i, r0));
                        assert(cols0[i]);
                    } else if i == r0 {
                        assert(w < r0);
                        lemma_bucket_attacks(s, i, w);
                        if vbucket(s, w) == q {
                            assert(last_seen_v(s, verts0[q], r0, q));
                            assert(verts0[q] != -1isize);
                            assert(pv > -1);
                        } else if dbucket(s, w) == dd {
                            assert(0 <= dd < 2 * n - 1);
                            assert(last_seen_d(s, diags0[dd], r0, dd));
                            assert(diags0[dd] != -1isize);
                            assert(pd > -1);
                        } else {
                            assert(abucket(s, w) == aa);
                            assert(0 <= aa < 2 * n - 1);
                            assert(last_seen_a(s, invds0[aa], r0, aa));
                            assert(invds0[aa] != -1isize);
                            assert(pa > -1);
                        }
                    } else {
                        // i < r0 and the witness is the current row itself
                        assert(w == r0);
                        lemma_bucket_attacks(s, i, r0);
                        if vbucket(s, i) == q {
                            assert(last_seen_v(s, verts0[q], r0, q));
                            assert(verts0[q] != -1isize);
                            let p = verts0[q] as int;
                            if i != p {
                                assert(i < p);
                                lemma_bucket_attacks(s, i, p);
                                assert(0 <= p < r0 && attacks(s, i, p));
                                assert(colliding_among(s, i, r0));
                                assert(cols0[i]);
                            }
                        } else if dbucket(s, i) == dd {
                            assert(0 <= dd < 2 * n - 1);
                            assert(last_seen_d(s, diags0[dd], r0, dd));
                            assert(diags0[dd] != -1isize);
                            let p = diags0[dd] as int;
                            if i != p {
                                assert(i < p);
                                lemma_bucket_attacks(s, i, p);
                                assert(0 <= p < r0 && attacks(s, i, p));
                                assert(colliding_among(s, i, r0));
                                assert(cols0[i]);
                            }
                        } else {
                            assert(abucket(s, i) == aa);
                            assert(0 <= aa < 2 * n - 1);
                            assert(last_seen_a(s, invds0[aa], r0, aa));
                            assert(invds0[aa] != -1isize);
                            let p = invds0[aa] as int;
                            if i != p {
                                assert(i < p);
                                lemma_bucket_attacks(s, i, p);
                                assert(0 <= p < r0 && attacks(s, i, p));
                                assert(colliding_among(s, i, r0));
                                assert(cols0[i]);
                            }
                        }
                    }
                }
            }
            row += 1;
        }

        let mut count: usize = 0;
        let mut i: usize = 0;
        while i < n
            invariant
                n == s.len(),
                collisions@.len() == n,
                forall|k: int|
                    0 <= k < n ==> (#[trigger] collisions@[k] <==> colliding_among(s, k, n as int)),
                i <= n,
                count <= i,
                count == num_colliding_upto(s, i as int),
            decreases n - i,
        {
            if collisions[i] {
                count = count + 1;
            }
            i += 1;
        }
        n - count
    }

    /// Exhaustive reference scoring: compares every pair of rows directly.
    /// Quadratic time; returns the same value as `fitness`, as both carry the
    /// same postcondition over `fitness_of`.
    pub fn fitness_pairwise(&self) -> (r: usize)
        requires
            self@.len() + 255 <= usize::MAX,
        ensures
            r == fitness_of(self@),
            r <= self@.len(),
    {
        let g = self.genes();
        let n = g.len();
        let mut count: usize = 0;
        let mut i: usize = 0;
        while i < n
            invariant
                g@ == self@,
                n == self@.len(),
                n + 255 <= usize::MAX,
                i <= n,
                count <= i,
                count == num_colliding_upto(self@, i as int),
            decreases n - i,
        {
            let gi = g[i];
            let mut hit = false;
            let mut j: usize = 0;
            while j < n
                invariant
                    g@ == self@,
                    n == self@.len(),
                    n + 255 <= usize::MAX,
                    i < n,
                    j <= n,
                    gi == self@[i as int],
                    hit <==> colliding_among(self@, i as int, j as int),
                decreases n - j,
            {
                let gj = g[j];
                if j != i && (gj == gi || gi as usize + j == gj as usize + i
                    || gi as usize + i == gj as usize + j) {
                    hit = true;
                }
                proof {
                    let ii = i as int;
                    let jj = j as int;
                    assert(colliding_among(self@, ii, jj + 1) <==> (colliding_among(
                        self@,
                        ii,
                        jj,
                    ) || attacks(self@, ii, jj))) by {
                        if colliding_among(self@, ii, jj + 1) {
                            let w = choose|w: int| 0 <= w < jj + 1 && attacks(self@, ii, w);
                            if w < jj {
                                assert(colliding_among(self@, ii, jj));
                            }
                        }
                        if colliding_among(self@, ii, jj) {
                            let w = choose|w: int| 0 <= w < jj && attacks(self@, ii, w);
                            assert(0 <= w < jj + 1 && attacks(self@, ii, w));
                        }
                    }
                }
                j += 1;
            }
            if hit {
                count += 1;
            }
            i += 1;
        }
        n - count
    }
}

} // verus!
