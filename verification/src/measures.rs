//! Sufficient statistics and fingerprint measures.
//!
//! Two equal-length binary fingerprints are summarised in one linear pass by
//! the counts `(a, b, c)` of positions whose bit is set only in the first,
//! only in the second, and in both. Every measure is a closed-form function
//! of these counts and the common length `n`; none revisits the raw vectors.
//!
//! Zero-denominator policy: a measure whose denominator is zero on the given
//! input (for example Tanimoto on two all-zero fingerprints) returns `None`;
//! degenerate inputs are never silently clamped.

use vstd::prelude::*;

use crate::ratio::Ratio;
use crate::ratio::ratio_opt_is;

verus! {

/// Positions `i < n` whose bit is set in `f1` only.
pub open spec fn count_only_first_upto(f1: Seq<u8>, f2: Seq<u8>, n: int) -> int
    decreases n,
{
    if n <= 0 {
        0
    } else {
        count_only_first_upto(f1, f2, n - 1) + (if f1[n - 1] == 1 && f2[n - 1] != 1 {
            1int
        } else {
            0int
        })
    }
}

/// Positions `i < n` whose bit is set in `f2` only.
pub open spec fn count_only_second_upto(f1: Seq<u8>, f2: Seq<u8>, n: int) -> int
    decreases n,
{
    if n <= 0 {
        0
    } else {
        count_only_second_upto(f1, f2, n - 1) + (if f1[n - 1] != 1 && f2[n - 1] == 1 {
            1int
        } else {
            0int
        })
    }
}

/// Positions `i < n` whose bit is set in both fingerprints.
pub open spec fn count_both_upto(f1: Seq<u8>, f2: Seq<u8>, n: int) -> int
    decreases n,
{
    if n <= 0 {
        0
    } else {
        count_both_upto(f1, f2, n - 1) + (if f1[n - 1] == 1 && f2[n - 1] == 1 {
            1int
        } else {
            0int
        })
    }
}

/// The count `a`: bits set only in the first fingerprint.
pub open spec fn count_only_first(f1: Seq<u8>, f2: Seq<u8>) -> int {
    count_only_first_upto(f1, f2, f1.len() as int)
}

/// The count `b`: bits set only in the second fingerprint.
pub open spec fn count_only_second(f1: Seq<u8>, f2: Seq<u8>) -> int {
    count_only_second_upto(f1, f2, f1.len() as int)
}

/// The count `c`: bits set in both fingerprints.
pub open spec fn count_both(f1: Seq<u8>, f2: Seq<u8>) -> int {
    count_both_upto(f1, f2, f1.len() as int)
}

/// Sufficient statistics of two equal-length binary fingerprints: one linear
/// pass classifies each position pair into both-set, first-only, second-only
/// or neither, and returns the counts `(a, b, c)` of the first three classes.
pub fn abc(f1: &[u8], f2: &[u8]) -> (r: (usize, usize, usize))
    requires
        f1@.len() == f2@.len(),
    ensures
        r.0 == count_only_first(f1@, f2@),
        r.1 == count_only_second(f1@, f2@),
        r.2 == count_both(f1@, f2@),
        r.0 + r.1 + r.2 <= f1@.len() <= usize::MAX,
{
    let n = f1.len();
    let mut a: usize = 0;
    let mut b: usize = 0;
    let mut c: usize = 0;
    let mut i: usize = 0;
    while i < n
        invariant
            i <= n,
            n == f1@.len() == f2@.len(),
            a == count_only_first_upto(f1@, f2@, i as int),
            b == count_only_second_upto(f1@, f2@, i as int),
            c == count_both_upto(f1@, f2@, i as int),
            a + b + c <= i,
        decreases n - i,
    {
        let x = f1[i];
        let y = f2[i];
        if x == 1 && y == 1 {
            c = c + 1;
        } else if x == 1 {
            a = a + 1;
        } else if y == 1 {
            b = b + 1;
        }
        i = i + 1;
    }
    (a, b, c)
}

/// Exact value of the Tanimoto similarity `c / (a + b + c)` over the
/// exclusive counts, i.e. `c / (|f1| + |f2| - c)` over set-bit totals;
/// `None` when the union of set bits is empty.
pub open spec fn tanimoto_spec(f1: Seq<u8>, f2: Seq<u8>) -> Option<(int, int)> {
    let a = count_only_first(f1, f2);
    let b = count_only_second(f1, f2);
    let c = count_both(f1, f2);
    if a + b + c == 0 {
        Option::None
    } else {
        Option::Some((c, a + b + c))
    }
}

/// Exact value of the Dice similarity `2c / (|f1| + |f2|)` over set-bit
/// totals, i.e. `2c / (a + b + 2c)`; `None` when both fingerprints are
/// all-zero.
pub open spec fn dice_spec(f1: Seq<u8>, f2: Seq<u8>) -> Option<(int, int)> {
    let a = count_only_first(f1, f2);
    let b = count_only_second(f1, f2);
    let c = count_both(f1, f2);
    if a + b + 2 * c == 0 {
        Option::None
    } else {
        Option::Some((2 * c, a + b + 2 * c))
    }
}

/// Exact value of the square of the cosine similarity `c / sqrt(ta * tb)`,
/// with `ta`, `tb` the set-bit totals of the two fingerprints: the square is
/// the rational `c^2 / (ta * tb)`; `None` when either fingerprint is
/// all-zero.
pub open spec fn cosine_sq_spec(f1: Seq<u8>, f2: Seq<u8>) -> Option<(int, int)> {
    let c = count_both(f1, f2);
    let ta = count_only_first(f1, f2) + c;
    let tb = count_only_second(f1, f2) + c;
    if ta == 0 || tb == 0 {
        Option::None
    } else {
        Option::Some((c * c, ta * tb))
    }
}

/// Exact value of the Russell-Rao similarity `c / n`; `None` when the
/// fingerprints are empty.
pub open spec fn russell_rao_spec(f1: Seq<u8>, f2: Seq<u8>) -> Option<(int, int)> {
    if f1.len() == 0 {
        Option::None
    } else {
        Option::Some((count_both(f1, f2), f1.len() as int))
    }
}

/// Exact value of the Forbes similarity `c * n / (ta * tb)` over set-bit
/// totals; `None` when either fingerprint is all-zero.
pub open spec fn forbes_spec(f1: Seq<u8>, f2: Seq<u8>) -> Option<(int, int)> {
    let c = count_both(f1, f2);
    let ta = count_only_first(f1, f2) + c;
    let tb = count_only_second(f1, f2) + c;
    if ta == 0 || tb == 0 {
        Option::None
    } else {
        Option::Some((c * f1.len() as int, ta * tb))
    }
}

/// Exact value of the Soergel distance `(a + b) / (a + b + c)`, i.e.
/// `(ta + tb - 2c) / (ta + tb - c)` over set-bit totals; `None` when the
/// union of set bits is empty.
pub open spec fn soergel_spec(f1: Seq<u8>, f2: Seq<u8>) -> Option<(int, int)> {
    let a = count_only_first(f1, f2);
    let b = count_only_second(f1, f2);
    let c = count_both(f1, f2);
    if a + b + c == 0 {
        Option::None
    } else {
        Option::Some((a + b, a + b + c))
    }
}

/// The Hamming distance `a + b`: positions whose bits differ.
pub open spec fn hamming_spec(f1: Seq<u8>, f2: Seq<u8>) -> int {
    count_only_first(f1, f2) + count_only_second(f1, f2)
}

/// Tanimoto similarity as an exact fraction; `None` on two all-zero
/// fingerprints, where the measure is undefined.
pub fn tanimoto(f1: &[u8], f2: &[u8]) -> (r: Option<Ratio>)
    requires
        f1@.len() == f2@.len(),
    ensures
        ratio_opt_is(r, tanimoto_spec(f1@, f2@)),
{
    let (a, b, c) = abc(f1, f2);
    if a + b + c == 0 {
        Option::None
    } else {
        Option::Some(Ratio { num: c as u128, den: (a + b + c) as u128 })
    }
}

/// Dice similarity as an exact fraction; `None` on two all-zero
/// fingerprints, where the measure is undefined.
pub fn dice(f1: &[u8], f2: &[u8]) -> (r: Option<Ratio>)
    requires
        f1@.len() == f2@.len(),
    ensures
        ratio_opt_is(r, dice_spec(f1@, f2@)),
{
    let (a, b, c) = abc(f1, f2);
    let den = a as u128 + b as u128 + 2 * (c as u128);
    if den == 0 {
        Option::None
    } else {
        Option::Some(Ratio { num: 2 * (c as u128), den })
    }
}

/// Square of the cosine similarity as an exact fraction; the cosine itself
/// is its square root. `None` when either fingerprint is all-zero, where the
/// measure is undefined.
pub fn cosine_sq(f1: &[u8], f2: &[u8]) -> (r: Option<Ratio>)
    requires
        f1@.len() == f2@.len(),
    ensures
        ratio_opt_is(r, cosine_sq_spec(f1@, f2@)),
{
    let (a, b, c) = abc(f1, f2);
    let ta = a + c;
    let tb = b + c;
    if ta == 0 || tb == 0 {
        Option::None
    } else {
        proof {
            lemma_u128_product_in_range(c as u128, c as u128);
            lemma_u128_product_in_range(ta as u128, tb as u128);
        }
        Option::Some(Ratio { num: (c as u128) * (c as u128), den: (ta as u128) * (tb as u128) })
    }
}

/// Two factors that fit in 64 bits have a product that fits in 128 bits.
proof fn lemma_u128_product_in_range(x: u128, y: u128)
    requires
        x <= u64::MAX,
        y <= u64::MAX,
    ensures
        x * y <= u128::MAX,
{
    assert(x * y <= (u64::MAX as u128) * (u64::MAX as u128)) by (nonlinear_arith)
        requires
            0 <= x <= u64::MAX,
            0 <= y <= u64::MAX,
    ;
}

/// Russell-Rao similarity as an exact fraction; `None` on empty
/// fingerprints, where the measure is undefined.
pub fn russell_rao(f1: &[u8], f2: &[u8]) -> (r: Option<Ratio>)
    requires
        f1@.len() == f2@.len(),
    ensures
        ratio_opt_is(r, russell_rao_spec(f1@, f2@)),
{
    let n = f1.len();
    let (_, _, c) = abc(f1, f2);
    if n == 0 {
        Option::None
    } else {
        Option::Some(Ratio { num: c as u128, den: n as u128 })
    }
}

/// Forbes similarity as an exact fraction; `None` when either fingerprint is
/// all-zero, where the measure is undefined.
pub fn forbes(f1: &[u8], f2: &[u8]) -> (r: Option<Ratio>)
    requires
        f1@.len() == f2@.len(),
    ensures
        ratio_opt_is(r, forbes_spec(f1@, f2@)),
{
    let n = f1.len();
    let (a, b, c) = abc(f1, f2);
    let ta = a + c;
    let tb = b + c;
    if ta == 0 || tb == 0 {
        Option::None
    } else {
        proof {
            lemma_u128_product_in_range(c as u128, n as u128);
            lemma_u128_product_in_range(ta as u128, tb as u128);
        }
        Option::Some(
            Ratio { num: (c as u128) * (n as u128), den: (ta as u128) * (tb as u128) },
        )
    }
}

/// Soergel distance as an exact fraction; `None` on two all-zero
/// fingerprints, where the measure is undefined.
pub fn soergel(f1: &[u8], f2: &[u8]) -> (r: Option<Ratio>)
    requires
        f1@.len() == f2@.len(),
    ensures
        ratio_opt_is(r, soergel_spec(f1@, f2@)),
{
    let (a, b, c) = abc(f1, f2);
    if a + b + c == 0 {
        Option::None
    } else {
        Option::Some(Ratio { num: (a + b) as u128, den: (a + b + c) as u128 })
    }
}

/// Hamming distance: the number of positions whose bits differ.
pub fn hamming(f1: &[u8], f2: &[u8]) -> (r: usize)
    requires
        f1@.len() == f2@.len(),
    ensures
        r == hamming_spec(f1@, f2@),
{
    let (a, b, _) = abc(f1, f2);
    a + b
}

/// Square of the Euclidean distance `sqrt(a + b)`: the radicand `a + b`,
/// an exact integer equal to the Hamming distance.
pub fn euclidean_sq(f1: &[u8], f2: &[u8]) -> (r: usize)
    requires
        f1@.len() == f2@.len(),
    ensures
        r == hamming_spec(f1@, f2@),
{
    let (a, b, _) = abc(f1, f2);
    a + b
}

proof fn lemma_counts_swap_upto(f1: Seq<u8>, f2: Seq<u8>, n: int)
    ensures
        count_only_first_upto(f1, f2, n) == count_only_second_upto(f2, f1, n),
        count_both_upto(f1, f2, n) == count_both_upto(f2, f1, n),
    decreases n,
{
    if n > 0 {
        lemma_counts_swap_upto(f1, f2, n - 1);
    }
}

proof fn lemma_counts_self_upto(f: Seq<u8>, n: int)
    ensures
        count_only_first_upto(f, f, n) == 0,
        count_only_second_upto(f, f, n) == 0,
    decreases n,
{
    if n > 0 {
        lemma_counts_self_upto(f, n - 1);
    }
}

proof fn lemma_count_both_set_bit(f: Seq<u8>, i: int, n: int)
    requires
        0 <= i < n,
        f[i] == 1,
    ensures
        count_both_upto(f, f, n) >= 1,
    decreases n,
{
    if i < n - 1 {
        lemma_count_both_set_bit(f, i, n - 1);
    } else {
        lemma_counts_nonneg_bounded(f, f, n - 1);
    }
}

proof fn lemma_counts_nonneg_bounded(f1: Seq<u8>, f2: Seq<u8>, n: int)
    ensures
        0 <= count_only_first_upto(f1, f2, n),
        0 <= count_only_second_upto(f1, f2, n),
        0 <= count_both_upto(f1, f2, n),
        n >= 0 ==> count_only_first_upto(f1, f2, n) + count_only_second_upto(f1, f2, n)
            + count_both_upto(f1, f2, n) <= n,
    decreases n,
{
    if n > 0 {
        lemma_counts_nonneg_bounded(f1, f2, n - 1);
    }
}

/// The sufficient statistics are well formed: each of the counts `(a, b, c)`
/// is non-negative, and together they never exceed the fingerprint length.
pub proof fn lemma_stats_invariant(f1: Seq<u8>, f2: Seq<u8>)
    requires
        f1.len() == f2.len(),
    ensures
        0 <= count_only_first(f1, f2),
        0 <= count_only_second(f1, f2),
        0 <= count_both(f1, f2),
        count_only_first(f1, f2) + count_only_second(f1, f2) + count_both(f1, f2) <= f1.len(),
{
    lemma_counts_nonneg_bounded(f1, f2, f1.len() as int);
}

/// Symmetry: swapping the two fingerprints leaves Tanimoto, Dice, the cosine
/// square, Soergel, the Euclidean square and Hamming unchanged.
pub proof fn lemma_measures_symmetric(f1: Seq<u8>, f2: Seq<u8>)
    requires
        f1.len() == f2.len(),
    ensures
        tanimoto_spec(f1, f2) == tanimoto_spec(f2, f1),
        dice_spec(f1, f2) == dice_spec(f2, f1),
        cosine_sq_spec(f1, f2) == cosine_sq_spec(f2, f1),
        soergel_spec(f1, f2) == soergel_spec(f2, f1),
        hamming_spec(f1, f2) == hamming_spec(f2, f1),
{
    lemma_counts_swap_upto(f1, f2, f1.len() as int);
    lemma_counts_swap_upto(f2, f1, f1.len() as int);
}

/// Identity: comparing a fingerprint with at least one set bit to itself
/// gives similarity one (Tanimoto, Dice, cosine square) and distance zero
/// (Soergel, Hamming, and with it the Euclidean square).
pub proof fn lemma_measures_identity(f: Seq<u8>)
    requires
        exists|i: int| 0 <= i < f.len() && f[i] == 1,
    ensures
        tanimoto_spec(f, f) matches Some(r) && r.0 == r.1 && r.1 > 0,
        dice_spec(f, f) matches Some(r) && r.0 == r.1 && r.1 > 0,
        cosine_sq_spec(f, f) matches Some(r) && r.0 == r.1 && r.1 > 0,
        soergel_spec(f, f) matches Some(r) && r.0 == 0 && r.1 > 0,
        hamming_spec(f, f) == 0,
{
    let i = choose|i: int| 0 <= i < f.len() && f[i] == 1;
    lemma_counts_self_upto(f, f.len() as int);
    lemma_count_both_set_bit(f, i, f.len() as int);
    let c = count_both(f, f);
    assert(c * c > 0) by (nonlinear_arith)
        requires
            c >= 1,
    ;
}

} // verus!
