//! Bubble sampling: partitioning a point set into nearest-seed cells.
//!
//! A large set of equal-length binary fingerprints is reduced before density
//! clustering by drawing `k` distinct seed points at random and assigning
//! every point (seeds included) to the bubble of its nearest seed under
//! Euclidean distance, ties resolved by seed-selection order. Squared
//! Euclidean distance between binary fingerprints equals their Hamming
//! distance, so the assignment is computed exactly in the integers.
//!
//! Floating-point derivatives of a bubble (mean representative, extent,
//! expected nearest-neighbour distance) are exposed through their exact
//! integer or rational parts: coordinate sums, and the squared extent.

use vstd::prelude::*;

use crate::measures::hamming;
use crate::measures::hamming_spec;
use crate::ratio::Ratio;
use crate::ratio::ratio_opt_is;
use vstd::multiset::Multiset;

verus! {

broadcast use vstd::seq_lib::group_seq_properties;

/// The views of a sequence of points.
pub open spec fn point_views(x: Seq<Vec<u8>>) -> Seq<Seq<u8>> {
    x.map_values(|p: Vec<u8>| p@)
}

/// A bubble: the list of points assigned to one seed during sampling.
#[derive(Clone)]
pub struct Bubble {
    pub objects: Vec<Vec<u8>>,
}

/// The points a bubble holds, as sequences.
pub open spec fn points_of(b: Bubble) -> Seq<Seq<u8>> {
    point_views(b.objects@)
}

/// All points held by a sequence of bubbles, as a multiset: the order of the
/// bubbles and of the points within them does not matter for ownership.
pub open spec fn points_multiset(bs: Seq<Bubble>) -> Multiset<Seq<u8>>
    decreases bs.len(),
{
    if bs.len() == 0 {
        Multiset::empty()
    } else {
        points_multiset(bs.drop_last()).add(points_of(bs.last()).to_multiset())
    }
}

/// All points of `x` have the same length `d`.
pub open spec fn uniform_points(x: Seq<Vec<u8>>, d: int) -> bool {
    forall|i: int| 0 <= i < x.len() ==> #[trigger] x[i]@.len() == d
}

/// `sel` selects `k` distinct seed positions inside `x`.
pub open spec fn seed_selection(x: Seq<Vec<u8>>, sel: Seq<usize>, k: int) -> bool {
    &&& sel.len() == k
    &&& forall|i: int| 0 <= i < sel.len() ==> (#[trigger] sel[i]) < x.len()
    &&& forall|i: int, j: int| 0 <= i < j < sel.len() ==> sel[i] != sel[j]
}

/// Point `p` belongs to the bubble of seed `m`: no seed of `sel` is strictly
/// nearer under (squared) Euclidean distance, and every earlier-selected seed
/// is strictly farther, so that ties resolve to the first seed.
pub open spec fn nearest_seed(x: Seq<Vec<u8>>, sel: Seq<usize>, p: Seq<u8>, m: int) -> bool {
    &&& 0 <= m < sel.len()
    &&& forall|j: int|
        0 <= j < sel.len() ==> #[trigger] hamming_spec(p, x[sel[j] as int]@) >= hamming_spec(
            p,
            x[sel[m] as int]@,
        )
    &&& forall|j: int|
        0 <= j < m ==> #[trigger] hamming_spec(p, x[sel[j] as int]@) > hamming_spec(
            p,
            x[sel[m] as int]@,
        )
}

/// Every point of every bubble is assigned to its nearest seed.
pub open spec fn bubbles_follow_seeds(x: Seq<Vec<u8>>, sel: Seq<usize>, bs: Seq<Bubble>) -> bool {
    forall|m: int, t: int|
        0 <= m < bs.len() && 0 <= t < points_of(bs[m]).len() ==> nearest_seed(
            x,
            sel,
            #[trigger] points_of(bs[m])[t],
            m,
        )
}

/// Sum of the `j`th coordinate over all points.
pub open spec fn coord_sum(ps: Seq<Seq<u8>>, j: int) -> int
    decreases ps.len(),
{
    if ps.len() == 0 {
        0
    } else {
        coord_sum(ps.drop_last(), j) + ps.last()[j]
    }
}

proof fn lemma_coord_sum_bound(ps: Seq<Seq<u8>>, j: int)
    ensures
        0 <= coord_sum(ps, j) <= 255 * ps.len(),
    decreases ps.len(),
{
    if ps.len() > 0 {
        lemma_coord_sum_bound(ps.drop_last(), j);
    }
}

proof fn lemma_coord_sum_push(ps: Seq<Seq<u8>>, p: Seq<u8>, j: int)
    ensures
        coord_sum(ps.push(p), j) == coord_sum(ps, j) + p[j],
{
    assert(ps.push(p).drop_last() =~= ps);
}

/// Squared Euclidean distance between two points over the first `j`
/// coordinates: the sum of squared coordinate differences.
pub open spec fn sqdist_upto(a: Seq<u8>, b: Seq<u8>, j: int) -> int
    decreases j,
{
    if j <= 0 {
        0
    } else {
        sqdist_upto(a, b, j - 1) + (a[j - 1] - b[j - 1]) * (a[j - 1] - b[j - 1])
    }
}

/// Squared Euclidean distance between two equal-length points.
pub open spec fn sqdist(a: Seq<u8>, b: Seq<u8>) -> int {
    sqdist_upto(a, b, a.len() as int)
}

/// Sum of the squared distances from point `i` to the first `r` points.
pub open spec fn row_sq_upto(ps: Seq<Seq<u8>>, i: int, r: int) -> int
    decreases r,
{
    if r <= 0 {
        0
    } else {
        row_sq_upto(ps, i, r - 1) + sqdist(ps[i], ps[r - 1])
    }
}

/// Sum of the squared distances over all ordered pairs drawn from the first
/// `n` points (self-pairs contribute zero).
pub open spec fn pair_sq_upto(ps: Seq<Seq<u8>>, n: int) -> int
    decreases n,
{
    if n <= 0 {
        0
    } else {
        pair_sq_upto(ps, n - 1) + row_sq_upto(ps, n - 1, ps.len() as int)
    }
}

/// Sum of the squared distances over all ordered point pairs.
pub open spec fn pair_sq_sum(ps: Seq<Seq<u8>>) -> int {
    pair_sq_upto(ps, ps.len() as int)
}

/// Exact value of the squared extent: the mean squared pairwise distance
/// over ordered non-self pairs, `pair_sq_sum / (n * (n - 1))`; `None` for a
/// bubble of fewer than two points, where the mean is undefined.
pub open spec fn extent_sq_spec(ps: Seq<Seq<u8>>) -> Option<(int, int)> {
    if ps.len() < 2 {
        Option::None
    } else {
        Option::Some((pair_sq_sum(ps), ps.len() * (ps.len() - 1)))
    }
}

proof fn lemma_sqdist_bound(a: Seq<u8>, b: Seq<u8>, j: int)
    requires
        j >= 0,
    ensures
        0 <= sqdist_upto(a, b, j) <= 65025 * j,
    decreases j,
{
    if j > 0 {
        lemma_sqdist_bound(a, b, j - 1);
        let d = a[j - 1] - b[j - 1];
        assert(0 <= d * d <= 65025) by (nonlinear_arith)
            requires
                -255 <= d <= 255,
        ;
    }
}

proof fn lemma_row_sq_bound(ps: Seq<Seq<u8>>, i: int, r: int, d: int)
    requires
        r >= 0,
        d >= 0,
        0 <= i < ps.len(),
        forall|t: int| 0 <= t < ps.len() ==> (#[trigger] ps[t]).len() == d,
    ensures
        0 <= row_sq_upto(ps, i, r) <= 65025 * d * r,
    decreases r,
{
    if r > 0 {
        lemma_row_sq_bound(ps, i, r - 1, d);
        lemma_sqdist_bound(ps[i], ps[r - 1], d);
        assert(65025 * d * (r - 1) + 65025 * d == 65025 * d * r) by (nonlinear_arith);
    }
}

proof fn lemma_pair_sq_bound(ps: Seq<Seq<u8>>, n: int, d: int)
    requires
        0 <= n <= ps.len(),
        d >= 0,
        forall|t: int| 0 <= t < ps.len() ==> (#[trigger] ps[t]).len() == d,
    ensures
        0 <= pair_sq_upto(ps, n) <= 65025 * d * ps.len() * n,
    decreases n,
{
    if n > 0 {
        lemma_pair_sq_bound(ps, n - 1, d);
        lemma_row_sq_bound(ps, n - 1, ps.len() as int, d);
        assert(65025 * d * ps.len() * (n - 1) + 65025 * d * ps.len() == 65025 * d * ps.len()
            * n) by (nonlinear_arith);
    }
}

impl Bubble {
    /// Number of points assigned to this bubble.
    pub fn n(&self) -> (r: usize)
        ensures
            r == self.objects@.len(),
    {
        self.objects.len()
    }

    /// Dimension of the bubble's points: the length of its first point.
    pub fn d(&self) -> (r: usize)
        requires
            self.objects@.len() > 0,
        ensures
            r == self.objects@[0]@.len(),
    {
        self.objects[0].len()
    }

    /// Exact squared extent: the sum of squared coordinate differences over
    /// all ordered point pairs divided by `n * (n - 1)`; the extent itself
    /// is the square root of this fraction, left to the caller. `None` for
    /// a bubble of fewer than two points, where the mean is undefined.
    pub fn extent_sq(&self) -> (r: Option<Ratio>)
        requires
            self.objects@.len() > 0,
            self.objects@.len() <= 0x1_0000_0000,
            self.objects@[0]@.len() <= 0x1_0000_0000,
            uniform_points(self.objects@, self.objects@[0]@.len() as int),
        ensures
            ratio_opt_is(r, extent_sq_spec(points_of(*self))),
    {
        let n = self.objects.len();
        if n < 2 {
            return Option::None;
        }
        let d = self.objects[0].len();
        let ghost ps = points_of(*self);
        proof {
            assert(forall|t: int| 0 <= t < ps.len() ==> (#[trigger] ps[t]).len() == d);
        }
        let mut total: u128 = 0;
        let mut i: usize = 0;
        while i < n
            invariant
                i <= n,
                2 <= n == self.objects@.len() <= 0x1_0000_0000,
                d == self.objects@[0]@.len() <= 0x1_0000_0000,
                uniform_points(self.objects@, d as int),
                ps == points_of(*self),
                ps.len() == n,
                forall|t: int| 0 <= t < ps.len() ==> (#[trigger] ps[t]).len() == d,
                total as int == pair_sq_upto(ps, i as int),
            decreases n - i,
        {
            let mut row: u128 = 0;
            let mut k: usize = 0;
            while k < n
                invariant
                    k <= n,
                    i < n,
                    2 <= n == self.objects@.len() <= 0x1_0000_0000,
                    d == self.objects@[0]@.len() <= 0x1_0000_0000,
                    uniform_points(self.objects@, d as int),
                    ps == points_of(*self),
                    ps.len() == n,
                    forall|t: int| 0 <= t < ps.len() ==> (#[trigger] ps[t]).len() == d,
                    row as int == row_sq_upto(ps, i as int, k as int),
                decreases n - k,
            {
                let mut sq: u128 = 0;
                let mut j: usize = 0;
                while j < d
                    invariant
                        j <= d,
                        i < n,
                        k < n,
                        n == self.objects@.len(),
                        d == self.objects@[0]@.len() <= 0x1_0000_0000,
                        uniform_points(self.objects@, d as int),
                        ps == points_of(*self),
                        ps.len() == n,
                        ps[i as int].len() == d,
                        ps[k as int].len() == d,
                        sq as int == sqdist_upto(ps[i as int], ps[k as int], j as int),
                    decreases d - j,
                {
                    proof {
                        lemma_sqdist_bound(ps[i as int], ps[k as int], j as int);
                    }
                    let ai = self.objects[i][j] as i64;
                    let bk = self.objects[k][j] as i64;
                    let diff = ai - bk;
                    proof {
                        assert(0 <= diff * diff <= 65025) by (nonlinear_arith)
                            requires
                                -255 <= diff <= 255,
                        ;
                    }
                    sq = sq + (diff * diff) as u128;
                    j = j + 1;
                }
                proof {
                    lemma_row_sq_bound(ps, i as int, k as int, d as int);
                    lemma_sqdist_bound(ps[i as int], ps[k as int], d as int);
                    assert(65025 * (d as int) * (k as int) + 65025 * (d as int)
                        < 0x1_0000_0000_0000_0000_0000_0000) by (nonlinear_arith)
                        requires
                            0 <= d as int <= 0x1_0000_0000,
                            0 <= k as int <= 0x1_0000_0000,
                    ;
                }
                row = row + sq;
                k = k + 1;
            }
            proof {
                lemma_pair_sq_bound(ps, i as int, d as int);
                lemma_row_sq_bound(ps, i as int, n as int, d as int);
                assert(65025 * (d as int) * (n as int) * (i as int) + 65025 * (d as int) * (
                n as int) < 0x1_0000_0000_0000_0000_0000_0000_0000_0000) by (nonlinear_arith)
                    requires
                        0 <= d as int <= 0x1_0000_0000,
                        0 <= n as int <= 0x1_0000_0000,
                        0 <= i as int <= n as int,
                ;
            }
            total = total + row;
            i = i + 1;
        }
        proof {
            assert(2 <= (n as int) * ((n - 1) as int) <= 0x1_0000_0000_0000_0000) by (
            nonlinear_arith)
                requires
                    2 <= n as int <= 0x1_0000_0000,
            ;
        }
        let den = (n as u128) * ((n - 1) as u128);
        Option::Some(Ratio { num: total, den })
    }

    /// Coordinate-wise sums of the bubble's points. The representative (the
    /// coordinate-wise mean) is each sum divided by the point count `n`; the
    /// division is left to the caller so that the sums stay exact.
    pub fn rep_sums(&self) -> (r: Vec<u64>)
        requires
            self.objects@.len() > 0,
            self.objects@.len() <= 0x0100_0000_0000_0000,
            uniform_points(self.objects@, self.objects@[0]@.len() as int),
        ensures
            r@.len() == self.objects@[0]@.len(),
            forall|j: int| 0 <= j < r@.len() ==> r@[j] == coord_sum(points_of(*self), j),
    {
        let n = self.objects.len();
        let d = self.objects[0].len();
        let mut sums: Vec<u64> = Vec::new();
        let mut j: usize = 0;
        while j < d
            invariant
                j <= d,
                sums@.len() == j,
                forall|jj: int| 0 <= jj < j ==> sums@[jj] == 0,
            decreases d - j,
        {
            sums.push(0);
            j = j + 1;
        }
        proof {
            assert(points_of(*self).subrange(0, 0) =~= Seq::empty());
        }
        let mut i: usize = 0;
        while i < n
            invariant
                i <= n,
                n == self.objects@.len(),
                0 < n <= 0x0100_0000_0000_0000,
                d == self.objects@[0]@.len(),
                uniform_points(self.objects@, d as int),
                sums@.len() == d,
                forall|jj: int|
                    0 <= jj < d ==> sums@[jj] == coord_sum(
                        points_of(*self).subrange(0, i as int),
                        jj,
                    ),
            decreases n - i,
        {
            let ghost prefix = points_of(*self).subrange(0, i as int);
            let ghost pv = points_of(*self)[i as int];
            let mut j: usize = 0;
            while j < d
                invariant
                    j <= d,
                    i < n,
                    n == self.objects@.len(),
                    d == self.objects@[0]@.len(),
                    uniform_points(self.objects@, d as int),
                    sums@.len() == d,
                    prefix == points_of(*self).subrange(0, i as int),
                    prefix.len() == i <= 0x0100_0000_0000_0000,
                    pv == points_of(*self)[i as int],
                    forall|jj: int| j <= jj < d ==> sums@[jj] == coord_sum(prefix, jj),
                    forall|jj: int| 0 <= jj < j ==> sums@[jj] == coord_sum(prefix, jj) + pv[jj],
                decreases d - j,
            {
                proof {
                    lemma_coord_sum_bound(prefix, j as int);
                }
                let v = self.objects[i][j];
                let updated = sums[j] + (v as u64);
                sums[j] = updated;
                j = j + 1;
            }
            proof {
                assert(points_of(*self).subrange(0, i + 1) =~= prefix.push(pv));
                assert forall|jj: int| 0 <= jj < d implies sums@[jj] == coord_sum(
                    points_of(*self).subrange(0, i + 1),
                    jj,
                ) by {
                    lemma_coord_sum_push(prefix, pv, jj);
                }
            }
            i = i + 1;
        }
        proof {
            assert(points_of(*self).subrange(0, n as int) =~= points_of(*self));
        }
        sums
    }
}

/// Relies on rand::seq::index::sample: it draws exactly `amount` distinct
/// indices from `0..length`, uniformly at random without replacement, and
/// panics only when `amount > length`, which the precondition rules out.
/// Nothing is assumed about which indices come back or in what order.
#[verifier::external_body]
fn sample_indices(length: usize, amount: usize) -> (r: Vec<usize>)
    requires
        amount <= length,
    ensures
        r@.len() == amount,
        forall|i: int| 0 <= i < r@.len() ==> (#[trigger] r@[i]) < length,
        forall|i: int, j: int| 0 <= i < j < r@.len() ==> r@[i] != r@[j],
{
    rand::seq::index::sample(&mut rand::rng(), length, amount).into_vec()
}

proof fn lemma_points_multiset_all_empty(bs: Seq<Bubble>)
    requires
        forall|m: int| 0 <= m < bs.len() ==> points_of(#[trigger] bs[m]).len() == 0,
    ensures
        points_multiset(bs) =~= Multiset::empty(),
    decreases bs.len(),
{
    if bs.len() > 0 {
        lemma_points_multiset_all_empty(bs.drop_last());
        points_of(bs.last()).to_multiset_ensures();
    }
}

proof fn lemma_points_multiset_update(bs: Seq<Bubble>, m: int, b: Bubble, p: Seq<u8>)
    requires
        0 <= m < bs.len(),
        points_of(b) == points_of(bs[m]).push(p),
    ensures
        points_multiset(bs.update(m, b)) =~= points_multiset(bs).insert(p),
    decreases bs.len(),
{
    points_of(bs[m]).to_multiset_ensures();
    let updated = bs.update(m, b);
    if m == bs.len() - 1 {
        assert(updated.drop_last() =~= bs.drop_last());
    } else {
        assert(updated.drop_last() =~= bs.drop_last().update(m, b));
        assert(updated.last() == bs.last());
        lemma_points_multiset_update(bs.drop_last(), m, b, p);
    }
}

/// Partition `x` into the cells of `k` randomly selected distinct seeds:
/// every point, seeds included, joins the bubble of its nearest seed, ties
/// resolved in favour of the earliest-selected seed. The `k` bubbles
/// returned hold every point of `x` exactly once; with `k == 1` the single
/// bubble lists the whole input in order.
pub fn compute_bubbles(x: &Vec<Vec<u8>>, k: usize) -> (r: Vec<Bubble>)
    requires
        0 < k <= x@.len(),
        uniform_points(x@, x@[0]@.len() as int),
    ensures
        r@.len() == k,
        points_multiset(r@) == point_views(x@).to_multiset(),
        exists|sel: Seq<usize>|
            #[trigger] seed_selection(x@, sel, k as int) && bubbles_follow_seeds(x@, sel, r@),
        k == 1 ==> points_of(r@[0]) == point_views(x@),
{
    let n = x.len();
    let sel = sample_indices(n, k);
    let mut bubbles: Vec<Bubble> = Vec::new();
    let mut m: usize = 0;
    while m < k
        invariant
            m <= k,
            bubbles@.len() == m,
            forall|i: int| 0 <= i < m ==> points_of(#[trigger] bubbles@[i]).len() == 0,
        decreases k - m,
    {
        bubbles.push(Bubble { objects: Vec::new() });
        m = m + 1;
    }
    proof {
        lemma_points_multiset_all_empty(bubbles@);
        assert(point_views(x@).subrange(0, 0) =~= Seq::empty());
        point_views(x@).subrange(0, 0).to_multiset_ensures();
        assert(point_views(x@).subrange(0, 0).to_multiset() =~= Multiset::empty());
    }
    let mut t: usize = 0;
    while t < n
        invariant
            t <= n,
            n == x@.len(),
            0 < k <= n,
            uniform_points(x@, x@[0]@.len() as int),
            seed_selection(x@, sel@, k as int),
            bubbles@.len() == k,
            points_multiset(bubbles@) == point_views(x@).subrange(0, t as int).to_multiset(),
            bubbles_follow_seeds(x@, sel@, bubbles@),
            k == 1 ==> points_of(bubbles@[0]) == point_views(x@).subrange(0, t as int),
        decreases n - t,
    {
        let p = &x[t];
        let mut best: usize = 0;
        let mut best_d = hamming(p.as_slice(), x[sel[0]].as_slice());
        let mut j: usize = 1;
        while j < k
            invariant
                1 <= j <= k,
                best < j,
                n == x@.len(),
                0 < k <= n,
                t < n,
                p == x@[t as int],
                uniform_points(x@, x@[0]@.len() as int),
                seed_selection(x@, sel@, k as int),
                best_d == hamming_spec(p@, x@[sel@[best as int] as int]@),
                forall|jj: int|
                    0 <= jj < j ==> #[trigger] hamming_spec(p@, x@[sel@[jj] as int]@) >= best_d,
                forall|jj: int|
                    0 <= jj < best ==> #[trigger] hamming_spec(p@, x@[sel@[jj] as int]@) > best_d,
            decreases k - j,
        {
            let d = hamming(p.as_slice(), x[sel[j]].as_slice());
            if d < best_d {
                best = j;
                best_d = d;
            }
            j = j + 1;
        }
        let ghost old_bubbles = bubbles@;
        let point = x[t].clone();
        assert(point@ == x@[t as int]@);
        bubbles[best].objects.push(point);
        proof {
            let pv = x@[t as int]@;
            let nb = bubbles@[best as int];
            assert(points_of(nb) =~= points_of(old_bubbles[best as int]).push(pv));
            assert(bubbles@ =~= old_bubbles.update(best as int, nb));
            lemma_points_multiset_update(old_bubbles, best as int, nb, pv);
            let prefix = point_views(x@).subrange(0, t as int);
            prefix.to_multiset_ensures();
            assert(point_views(x@).subrange(0, t + 1) =~= prefix.push(pv));
            assert(points_multiset(bubbles@) =~= point_views(x@).subrange(
                0,
                t + 1,
            ).to_multiset());
            assert(nearest_seed(x@, sel@, pv, best as int));
            assert forall|m2: int, t2: int|
                0 <= m2 < bubbles@.len() && 0 <= t2 < points_of(bubbles@[m2]).len() implies nearest_seed(
                x@,
                sel@,
                points_of(bubbles@[m2])[t2],
                m2,
            ) by {
                if m2 == best as int && t2 == points_of(bubbles@[m2]).len() - 1 {
                } else {
                    assert(points_of(bubbles@[m2])[t2] == points_of(old_bubbles[m2])[t2]);
                }
            }
            if k == 1 {
                assert(points_of(bubbles@[0]) =~= point_views(x@).subrange(0, t + 1));
            }
        }
        t = t + 1;
    }
    proof {
        assert(point_views(x@).subrange(0, n as int) =~= point_views(x@));
        assert(seed_selection(x@, sel@, k as int) && bubbles_follow_seeds(x@, sel@, bubbles@));
    }
    bubbles
}

/// Sum of the bubble sizes.
pub open spec fn total_points(bs: Seq<Bubble>) -> int
    decreases bs.len(),
{
    if bs.len() == 0 {
        0
    } else {
        total_points(bs.drop_last()) + points_of(bs.last()).len()
    }
}

/// The size of the bubbles' point multiset is the sum of the bubble sizes;
/// with the partition equality of `compute_bubbles`, the bubble sizes
/// therefore add up to the number of input points, before and after empty
/// bubbles are dropped.
pub proof fn lemma_points_multiset_len(bs: Seq<Bubble>)
    ensures
        points_multiset(bs).len() == total_points(bs),
    decreases bs.len(),
{
    broadcast use vstd::multiset::axiom_len_add;

    if bs.len() > 0 {
        lemma_points_multiset_len(bs.drop_last());
        points_of(bs.last()).to_multiset_ensures();
    }
}

/// When the bubbles partition the input — as `compute_bubbles` ensures —
/// the sizes of the surviving (non-empty) bubbles add up to the number of
/// input points.
pub proof fn lemma_surviving_sizes(bs: Seq<Bubble>, x: Seq<Vec<u8>>)
    requires
        points_multiset(bs) == point_views(x).to_multiset(),
    ensures
        total_points(nonempty_of(bs)) == x.len(),
{
    lemma_nonempty_preserves_points(bs);
    lemma_points_multiset_len(nonempty_of(bs));
    point_views(x).to_multiset_ensures();
}

/// The bubbles that survive sampling: those with at least one point.
pub open spec fn nonempty_of(bs: Seq<Bubble>) -> Seq<Bubble>
    decreases bs.len(),
{
    if bs.len() == 0 {
        Seq::empty()
    } else if points_of(bs.last()).len() > 0 {
        nonempty_of(bs.drop_last()).push(bs.last())
    } else {
        nonempty_of(bs.drop_last())
    }
}

/// Dropping empty bubbles loses no point: the surviving bubbles hold exactly
/// the points the full bubble list held.
pub proof fn lemma_nonempty_preserves_points(bs: Seq<Bubble>)
    ensures
        points_multiset(nonempty_of(bs)) =~= points_multiset(bs),
    decreases bs.len(),
{
    if bs.len() > 0 {
        lemma_nonempty_preserves_points(bs.drop_last());
        if points_of(bs.last()).len() > 0 {
            assert(nonempty_of(bs.drop_last()).push(bs.last()).drop_last() =~= nonempty_of(
                bs.drop_last(),
            ));
        } else {
            points_of(bs.last()).to_multiset_ensures();
            assert(points_of(bs.last()) =~= Seq::empty());
            assert(points_of(bs.last()).to_multiset() =~= Multiset::empty());
        }
    }
}

/// Keep only the bubbles that own at least one point, in order. Empty
/// bubbles are filtered out before any downstream use; no point is lost.
pub fn nonempty_bubbles(bs: Vec<Bubble>) -> (r: Vec<Bubble>)
    ensures
        r@ == nonempty_of(bs@),
        points_multiset(r@) == points_multiset(bs@),
        forall|m: int| 0 <= m < r@.len() ==> points_of(#[trigger] r@[m]).len() > 0,
{
    let ghost orig = bs@;
    let n = bs.len();
    let mut rest = bs;
    let mut r: Vec<Bubble> = Vec::new();
    let mut i: usize = 0;
    proof {
        assert(orig.subrange(0, 0) =~= Seq::empty());
        assert(rest@ =~= orig.subrange(0, orig.len() as int));
    }
    while rest.len() > 0
        invariant
            i <= orig.len() == n,
            rest@ == orig.subrange(i as int, orig.len() as int),
            r@ == nonempty_of(orig.subrange(0, i as int)),
            forall|m: int| 0 <= m < r@.len() ==> points_of(#[trigger] r@[m]).len() > 0,
        decreases rest@.len(),
    {
        let ghost prefix = orig.subrange(0, i as int);
        let b = rest.remove(0);
        assert(b == orig[i as int]);
        if b.objects.len() > 0 {
            r.push(b);
        }
        proof {
            assert(orig.subrange(0, i + 1) =~= prefix.push(orig[i as int]));
            assert(orig.subrange(0, i + 1).drop_last() =~= prefix);
            assert(r@ =~= nonempty_of(orig.subrange(0, i + 1)));
            assert(rest@ =~= orig.subrange(i + 1, orig.len() as int));
        }
        i = i + 1;
    }
    proof {
        assert(i == orig.len());
        assert(orig.subrange(0, orig.len() as int) =~= orig);
        lemma_nonempty_preserves_points(orig);
    }
    r
}

/// The points of the bubbles picked out by `idxs`, concatenated in order.
pub open spec fn expanded_points(bs: Seq<Bubble>, idxs: Seq<usize>) -> Seq<Seq<u8>>
    decreases idxs.len(),
{
    if idxs.len() == 0 {
        Seq::empty()
    } else {
        expanded_points(bs, idxs.drop_last()) + points_of(bs[idxs.last() as int])
    }
}

/// Expand clusters of bubble indices back to the original points: each
/// cluster becomes the union (concatenation) of the points owned by its
/// bubbles. Bubbles referenced by no cluster contribute no points.
pub fn expand_clusters(bubbles: &Vec<Bubble>, clusters: &Vec<Vec<usize>>) -> (r: Vec<Vec<Vec<u8>>>)
    requires
        forall|ci: int, t: int|
            0 <= ci < clusters@.len() && 0 <= t < clusters@[ci]@.len() ==> (#[trigger] clusters@[ci]@[t])
                < bubbles@.len(),
    ensures
        r@.len() == clusters@.len(),
        forall|ci: int|
            0 <= ci < r@.len() ==> point_views(#[trigger] r@[ci]@) == expanded_points(
                bubbles@,
                clusters@[ci]@,
            ),
{
    let nc = clusters.len();
    let mut r: Vec<Vec<Vec<u8>>> = Vec::new();
    let mut ci: usize = 0;
    while ci < nc
        invariant
            ci <= nc,
            nc == clusters@.len(),
            forall|c: int, t: int|
                0 <= c < clusters@.len() && 0 <= t < clusters@[c]@.len() ==> (
                #[trigger] clusters@[c]@[t]) < bubbles@.len(),
            r@.len() == ci,
            forall|c: int|
                0 <= c < ci ==> point_views(#[trigger] r@[c]@) == expanded_points(
                    bubbles@,
                    clusters@[c]@,
                ),
        decreases nc - ci,
    {
        let idxs = &clusters[ci];
        let ni = idxs.len();
        let mut group: Vec<Vec<u8>> = Vec::new();
        proof {
            assert(idxs@.subrange(0, 0) =~= Seq::empty());
            assert(point_views(group@) =~= Seq::empty());
        }
        let mut t: usize = 0;
        while t < ni
            invariant
                t <= ni,
                ni == idxs@.len(),
                idxs == clusters@[ci as int],
                ci < clusters@.len(),
                nc == clusters@.len(),
                forall|c: int, tt: int|
                    0 <= c < clusters@.len() && 0 <= tt < clusters@[c]@.len() ==> (
                    #[trigger] clusters@[c]@[tt]) < bubbles@.len(),
                point_views(group@) == expanded_points(bubbles@, idxs@.subrange(0, t as int)),
            decreases ni - t,
        {
            let ghost old_group = group@;
            let ghost prefix = idxs@.subrange(0, t as int);
            let b = &bubbles[idxs[t]];
            group.extend_from_slice(b.objects.as_slice());
            proof {
                assert(idxs@.subrange(0, t + 1) =~= prefix.push(idxs@[t as int]));
                assert(idxs@.subrange(0, t + 1).drop_last() =~= prefix);
                assert(point_views(group@) =~= point_views(old_group) + points_of(
                    bubbles@[idxs@[t as int] as int],
                ));
            }
            t = t + 1;
        }
        r.push(group);
        proof {
            assert(idxs@.subrange(0, ni as int) =~= idxs@);
        }
        ci = ci + 1;
    }
    r
}

} // verus!
