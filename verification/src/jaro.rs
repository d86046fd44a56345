//! The Jaro and Jaro-Winkler engine.
//!
//! The two strings are ordered into a long and a short one; each position of
//! the short string searches a bounded window of the long string for the
//! first unclaimed matching character, retrying past claimed positions with
//! an accumulated offset. The matched positions are re-ranked into a
//! permutation, and the transposition count is estimated from the best
//! alignment among all left-padded forward shifts and right-truncated
//! reverse shifts of that permutation: the minimal number of out-of-place
//! entries, halved and rounded up. The estimate is a deliberate
//! approximation of canonical swap counting and is preserved exactly.
//!
//! Similarities are returned as exact fractions, not floating point. Inputs
//! are bounded to about a million characters so that every product inside
//! the exact fractions provably fits the machine integers.

use vstd::prelude::*;

use crate::dist::max2;
use crate::dist::min2;
use crate::dist::str_chars;
use crate::ratio::Ratio;

verus! {

/// Jaro matching radius: half the longer length, less one, at least zero.
pub open spec fn radius_val(a: Seq<char>, b: Seq<char>) -> int {
    max2(max2(a.len() as int, b.len() as int) / 2 - 1, 0)
}

/// First position in `lo..=hi` at which `b` holds the character `c`;
/// positions outside `b` never match.
pub open spec fn first_match_from(c: char, b: Seq<char>, lo: int, hi: int) -> Option<int>
    decreases hi + 1 - lo,
{
    if lo > hi {
        Option::None
    } else if 0 <= lo < b.len() && b[lo] == c {
        Option::Some(lo)
    } else {
        first_match_from(c, b, lo + 1, hi)
    }
}

/// First match for `c` in the window of radius `r` around position `i`,
/// clipped to the bounds of `b`.
pub open spec fn window_match(c: char, b: Seq<char>, i: int, r: int) -> Option<int> {
    first_match_from(c, b, max2(i - r, 0), min2(i + r, b.len() as int))
}

/// First match for `c` around position `i` of `b` that is not already
/// claimed in `acc`: when the naive candidate `j` is claimed, the search
/// retries on the suffix of `b` past `j`, shifting the position by `j + 1`
/// and growing `offset` so returned positions stay relative to the original
/// string. (A window match is always inside `b`; the `j < 0` test below only
/// settles termination.)
pub open spec fn unique_match(
    c: char,
    b: Seq<char>,
    i: int,
    r: int,
    acc: Seq<int>,
    offset: int,
) -> Option<int>
    decreases b.len(),
{
    match window_match(c, b, i, r) {
        Option::None => Option::None,
        Option::Some(j) => {
            if !acc.contains(j + offset) {
                Option::Some(j + offset)
            } else if j < 0 || b.len() - j - 1 <= 0 {
                Option::None
            } else {
                unique_match(
                    c,
                    b.subrange(j + 1, b.len() as int),
                    i - j - 1,
                    r,
                    acc,
                    j + offset + 1,
                )
            }
        },
    }
}

/// Matched positions of the long string, in short-position order, for the
/// first `n` positions of the short string.
pub open spec fn match_locations_upto(
    short: Seq<char>,
    long: Seq<char>,
    r: int,
    n: int,
) -> Seq<int>
    decreases n,
{
    if n <= 0 {
        Seq::empty()
    } else {
        let acc = match_locations_upto(short, long, r, n - 1);
        match unique_match(short[n - 1], long, n - 1, r, acc, 0) {
            Option::Some(j) => acc.push(j),
            Option::None => acc,
        }
    }
}

/// The long member of the pair: the longer string, the second on a tie.
pub open spec fn long_of(a: Seq<char>, b: Seq<char>) -> Seq<char> {
    if a.len() > b.len() {
        a
    } else {
        b
    }
}

/// The short member of the pair.
pub open spec fn short_of(a: Seq<char>, b: Seq<char>) -> Seq<char> {
    if a.len() > b.len() {
        b
    } else {
        a
    }
}

/// The match-location sequence of the pair.
pub open spec fn match_locations(a: Seq<char>, b: Seq<char>) -> Seq<int> {
    match_locations_upto(
        short_of(a, b),
        long_of(a, b),
        radius_val(a, b),
        short_of(a, b).len() as int,
    )
}

/// How many of the first `n` entries of `locs` are smaller than `k`.
pub open spec fn count_lt_upto(locs: Seq<int>, k: int, n: int) -> int
    decreases n,
{
    if n <= 0 {
        0
    } else {
        count_lt_upto(locs, k, n - 1) + (if locs[n - 1] < k {
            1int
        } else {
            0int
        })
    }
}

/// Re-rank each location to the number of entries smaller than it.
pub open spec fn rank_seq(locs: Seq<int>) -> Seq<int> {
    Seq::new(locs.len(), |t: int| count_lt_upto(locs, locs[t], locs.len() as int))
}

/// How many of the first `n` entries of `s` sit at their own index.
pub open spec fn matched_upto(s: Seq<int>, n: int) -> int
    decreases n,
{
    if n <= 0 {
        0
    } else {
        matched_upto(s, n - 1) + (if s[n - 1] == n - 1 {
            1int
        } else {
            0int
        })
    }
}

/// Entries of `s` that are out of place.
pub open spec fn unmatched(s: Seq<int>) -> int {
    s.len() - matched_upto(s, s.len() as int)
}

/// A run of `k` zeros.
pub open spec fn zeros(k: int) -> Seq<int> {
    Seq::new(k as nat, |t: int| 0int)
}

/// Forward shift by `k`: pad the front with zeros, keeping the overflow.
pub open spec fn left_shift(s: Seq<int>, k: int) -> Seq<int> {
    zeros(k) + s
}

/// Reverse shift by `k`: drop the first `k` entries, pad the tail with
/// zeros.
pub open spec fn right_shift(s: Seq<int>, k: int) -> Seq<int> {
    s.subrange(k, s.len() as int) + zeros(k)
}

/// Least unmatched count over the forward shifts `0..=k`.
pub open spec fn min_unmatched_left(s: Seq<int>, k: int) -> int
    decreases k,
{
    if k <= 0 {
        unmatched(left_shift(s, 0))
    } else {
        min2(min_unmatched_left(s, k - 1), unmatched(left_shift(s, k)))
    }
}

/// Least unmatched count over the reverse shifts `1..=k`.
pub open spec fn min_unmatched_right(s: Seq<int>, k: int) -> int
    decreases k,
{
    if k <= 1 {
        unmatched(right_shift(s, 1))
    } else {
        min2(min_unmatched_right(s, k - 1), unmatched(right_shift(s, k)))
    }
}

/// Halve, rounding up.
pub open spec fn round_half(x: int) -> int {
    x / 2 + x % 2
}

/// Transposition estimate of a permutation: the least unmatched count over
/// all forward shifts (by `0..len`) and reverse shifts (by `1..len`), halved
/// and rounded up; zero for the empty permutation.
pub open spec fn transpositions_of(s: Seq<int>) -> int {
    if s.len() == 0 {
        0
    } else if s.len() == 1 {
        round_half(min_unmatched_left(s, 0))
    } else {
        round_half(min2(min_unmatched_left(s, s.len() - 1), min_unmatched_right(s, s.len() - 1)))
    }
}

/// The number of matching characters of the pair.
pub open spec fn jaro_matches(a: Seq<char>, b: Seq<char>) -> int {
    match_locations(a, b).len() as int
}

/// The transposition estimate of the pair.
pub open spec fn jaro_transpositions(a: Seq<char>, b: Seq<char>) -> int {
    transpositions_of(rank_seq(match_locations(a, b)))
}

/// Exact Jaro similarity as a fraction: zero when nothing matches, else
/// one third of `m/|a| + m/|b| + (m - t)/m` over the common denominator
/// `3 * |a| * |b| * m`.
pub open spec fn jaro_spec(a: Seq<char>, b: Seq<char>) -> (int, int) {
    let m = jaro_matches(a, b);
    let t = jaro_transpositions(a, b);
    if m == 0 {
        (0, 1)
    } else {
        (
            m * m * (a.len() + b.len()) + (m - t) * (a.len() as int) * (b.len() as int),
            3 * (a.len() as int) * (b.len() as int) * m,
        )
    }
}

/// A sequence of machine-size values, as mathematical integers.
pub open spec fn int_view(v: Seq<usize>) -> Seq<int> {
    v.map_values(|x: usize| x as int)
}

proof fn lemma_int_view_contains(v: Seq<usize>, x: usize)
    ensures
        int_view(v).contains(x as int) <==> v.contains(x),
{
    if v.contains(x) {
        let i = choose|i: int| 0 <= i < v.len() && v[i] == x;
        assert(int_view(v)[i] == x as int);
    }
    if int_view(v).contains(x as int) {
        let i = choose|i: int| 0 <= i < int_view(v).len() && int_view(v)[i] == x as int;
        assert(v[i] == x);
    }
}

proof fn lemma_first_match_out_of_range(c: char, b: Seq<char>, lo: int, hi: int)
    requires
        lo >= b.len(),
    ensures
        first_match_from(c, b, lo, hi) is None,
    decreases hi + 1 - lo,
{
    if lo <= hi {
        lemma_first_match_out_of_range(c, b, lo + 1, hi);
    }
}

/// Does the vector hold the value?
fn contains_usize(v: &Vec<usize>, x: usize) -> (r: bool)
    ensures
        r == v@.contains(x),
{
    let n = v.len();
    let mut i: usize = 0;
    while i < n
        invariant
            i <= n,
            n == v@.len(),
            forall|t: int| 0 <= t < i ==> v@[t] != x,
        decreases n - i,
    {
        if v[i] == x {
            return true;
        }
        i = i + 1;
    }
    false
}

/// The first match for `c` around short-position `i0` of `long` that is not
/// yet claimed in `acc`: the recursive retry over ever shorter suffixes runs
/// as a loop over a shrinking window with an accumulated offset.
fn unique_match_search(c: char, long: &Vec<char>, i0: usize, r: usize, acc: &Vec<usize>) -> (res:
    Option<usize>)
    requires
        i0 <= 0x0010_0000,
        r <= 0x0010_0000,
        long@.len() <= 0x0010_0000,
    ensures
        match res {
            Option::Some(j) => unique_match(c, long@, i0 as int, r as int, int_view(acc@), 0)
                == Option::Some(j as int),
            Option::None => unique_match(c, long@, i0 as int, r as int, int_view(acc@), 0)
                is None,
        },
{
    let len = long.len();
    let ghost target = unique_match(c, long@, i0 as int, r as int, int_view(acc@), 0);
    proof {
        assert(long@.subrange(0, len as int) =~= long@);
    }
    let mut off: usize = 0;
    loop
        invariant
            off <= len,
            len == long@.len() <= 0x0010_0000,
            i0 <= 0x0010_0000,
            r <= 0x0010_0000,
            target == unique_match(c, long@, i0 as int, r as int, int_view(acc@), 0),
            unique_match(
                c,
                long@.subrange(off as int, len as int),
                i0 - off,
                r as int,
                int_view(acc@),
                off as int,
            ) == target,
        decreases len - off,
    {
        let ghost suffix = long@.subrange(off as int, len as int);
        let slen = len - off;
        let ipos: i128 = i0 as i128 - off as i128;
        let lo128: i128 = if ipos - r as i128 > 0 {
            ipos - r as i128
        } else {
            0
        };
        let hi128: i128 = if ipos + r as i128 <= slen as i128 {
            ipos + r as i128
        } else {
            slen as i128
        };
        let ghost ip: int = i0 as int - off as int;
        proof {
            assert(lo128 as int == max2(ip - r as int, 0));
            assert(hi128 as int == min2(ip + r as int, suffix.len() as int));
        }
        if lo128 > hi128 {
            proof {
                assert(window_match(c, suffix, ip, r as int) is None);
            }
            return Option::None;
        }
        let lo = lo128 as usize;
        let hi = hi128 as usize;
        proof {
            assert(lo as int == lo128 as int && hi as int == hi128 as int);
        }
        let mut j: usize = lo;
        let mut found: bool = false;
        while j <= hi && j < slen && !found
            invariant
                lo <= j,
                j <= hi + 1,
                hi <= slen,
                slen == suffix.len(),
                suffix == long@.subrange(off as int, len as int),
                off + slen == len,
                len == long@.len(),
                first_match_from(c, suffix, lo as int, hi as int) == first_match_from(
                    c,
                    suffix,
                    j as int,
                    hi as int,
                ),
                found ==> j <= hi && j < slen && suffix[j as int] == c,
            decreases slen - j, (if found { 0int } else { 1int }),
        {
            if long[off + j] == c {
                found = true;
            } else {
                j = j + 1;
            }
        }
        if !found {
            proof {
                if j <= hi {
                    lemma_first_match_out_of_range(c, suffix, j as int, hi as int);
                }
                assert(window_match(c, suffix, ip, r as int) is None);
            }
            return Option::None;
        }
        let cand = off + j;
        proof {
            assert(first_match_from(c, suffix, j as int, hi as int) == Option::Some(j as int));
            assert(window_match(c, suffix, ip, r as int) == Option::Some(j as int));
        }
        if !contains_usize(acc, cand) {
            proof {
                lemma_int_view_contains(acc@, cand);
                assert(!int_view(acc@).contains(j as int + off as int));
            }
            return Option::Some(cand);
        }
        proof {
            lemma_int_view_contains(acc@, cand);
            assert(int_view(acc@).contains(j as int + off as int));
        }
        if slen - j <= 1 {
            proof {
                assert(suffix.len() - j - 1 <= 0);
            }
            return Option::None;
        }
        proof {
            assert(suffix.subrange(j + 1, slen as int) =~= long@.subrange(
                off + j + 1,
                len as int,
            ));
        }
        off = off + j + 1;
    }
}

/// Length of the common leading-character prefix.
pub open spec fn common_prefix_len(a: Seq<char>, b: Seq<char>) -> int
    decreases a.len(),
{
    if a.len() == 0 || b.len() == 0 || a[0] != b[0] {
        0
    } else {
        1 + common_prefix_len(a.subrange(1, a.len() as int), b.subrange(1, b.len() as int))
    }
}

/// The match locations for every position of the short string against the
/// long one, with matching radius `r`.
fn match_locations_exec(short: &Vec<char>, long: &Vec<char>, r: usize) -> (locs: Vec<usize>)
    requires
        short@.len() <= 0x0010_0000,
        long@.len() <= 0x0010_0000,
        r <= 0x0010_0000,
    ensures
        int_view(locs@) == match_locations_upto(short@, long@, r as int, short@.len() as int),
        locs@.len() <= short@.len(),
{
    let n = short.len();
    let mut locs: Vec<usize> = Vec::new();
    proof {
        assert(int_view(locs@) =~= match_locations_upto(short@, long@, r as int, 0));
    }
    let mut i: usize = 0;
    while i < n
        invariant
            i <= n,
            n == short@.len() <= 0x0010_0000,
            long@.len() <= 0x0010_0000,
            r <= 0x0010_0000,
            int_view(locs@) == match_locations_upto(short@, long@, r as int, i as int),
            locs@.len() <= i,
        decreases n - i,
    {
        let res = unique_match_search(short[i], long, i, r, &locs);
        match res {
            Option::Some(j) => {
                locs.push(j);
                proof {
                    assert(int_view(locs@) =~= int_view(locs@.drop_last()).push(j as int));
                }
            },
            Option::None => {},
        }
        i = i + 1;
    }
    locs
}

/// Replace each location by its rank: the number of locations smaller than
/// it.
pub fn sequence_ranks(locs: &Vec<usize>) -> (r: Vec<usize>)
    ensures
        int_view(r@) == rank_seq(int_view(locs@)),
        r@.len() == locs@.len(),
{
    let n = locs.len();
    let mut r: Vec<usize> = Vec::new();
    let mut t: usize = 0;
    while t < n
        invariant
            t <= n,
            n == locs@.len(),
            r@.len() == t,
            forall|tt: int|
                0 <= tt < t ==> r@[tt] as int == count_lt_upto(
                    int_view(locs@),
                    int_view(locs@)[tt],
                    n as int,
                ),
        decreases n - t,
    {
        let cur = locs[t];
        let mut count: usize = 0;
        let mut k: usize = 0;
        while k < n
            invariant
                k <= n,
                n == locs@.len(),
                t < n,
                cur == locs@[t as int],
                count <= k,
                count as int == count_lt_upto(int_view(locs@), cur as int, k as int),
            decreases n - k,
        {
            if locs[k] < cur {
                count = count + 1;
            }
            k = k + 1;
        }
        r.push(count);
        t = t + 1;
    }
    proof {
        assert(int_view(r@) =~= rank_seq(int_view(locs@)));
    }
    r
}

/// Entries of `v` that do not sit at their own index.
fn unmatched_exec(v: &Vec<usize>) -> (r: usize)
    ensures
        r as int == unmatched(int_view(v@)),
{
    let n = v.len();
    let mut m: usize = 0;
    let mut t: usize = 0;
    while t < n
        invariant
            t <= n,
            n == v@.len(),
            m <= t,
            m as int == matched_upto(int_view(v@), t as int),
        decreases n - t,
    {
        if v[t] == t {
            m = m + 1;
        }
        t = t + 1;
    }
    n - m
}

proof fn lemma_matched_upto_range(s: Seq<int>, n: int)
    requires
        n >= 0,
    ensures
        0 <= matched_upto(s, n) <= n,
    decreases n,
{
    if n > 0 {
        lemma_matched_upto_range(s, n - 1);
    }
}

/// Pad the front of `s` with `k` zeros.
fn left_shift_vec(s: &Vec<usize>, k: usize) -> (r: Vec<usize>)
    requires
        k <= 0x0010_0000,
    ensures
        int_view(r@) == left_shift(int_view(s@), k as int),
{
    let mut r: Vec<usize> = Vec::new();
    let mut t: usize = 0;
    while t < k
        invariant
            t <= k,
            r@.len() == t,
            forall|tt: int| 0 <= tt < t ==> r@[tt] == 0,
        decreases k - t,
    {
        r.push(0);
        t = t + 1;
    }
    r.extend_from_slice(s.as_slice());
    proof {
        assert(int_view(r@) =~= left_shift(int_view(s@), k as int));
    }
    r
}

/// Drop the first `k` entries of `s` and pad the tail with `k` zeros.
fn right_shift_vec(s: &Vec<usize>, k: usize) -> (r: Vec<usize>)
    requires
        k <= s@.len(),
    ensures
        int_view(r@) == right_shift(int_view(s@), k as int),
{
    let n = s.len();
    let mut r: Vec<usize> = Vec::new();
    let mut t: usize = k;
    while t < n
        invariant
            k <= t <= n,
            n == s@.len(),
            r@.len() == t - k,
            forall|tt: int| 0 <= tt < t - k ==> r@[tt] == s@[k + tt],
        decreases n - t,
    {
        r.push(s[t]);
        t = t + 1;
    }
    let mut z: usize = 0;
    while z < k
        invariant
            z <= k <= n,
            n == s@.len(),
            r@.len() == n - k + z,
            forall|tt: int| 0 <= tt < n - k ==> r@[tt] == s@[k + tt],
            forall|tt: int| n - k <= tt < n - k + z ==> r@[tt] == 0,
        decreases k - z,
    {
        r.push(0);
        z = z + 1;
    }
    proof {
        assert(int_view(r@) =~= right_shift(int_view(s@), k as int));
    }
    r
}

/// Transposition estimate of a rank permutation: the least out-of-place
/// count over all forward and reverse shifts, halved and rounded up. This is
/// the deliberate approximation of swap counting that the Jaro engine uses.
pub fn transpositions_estimate(s: &Vec<usize>) -> (r: usize)
    requires
        s@.len() <= 0x0010_0000,
    ensures
        r as int == transpositions_of(int_view(s@)),
        r <= s@.len(),
{
    let n = s.len();
    if n == 0 {
        return 0;
    }
    let first = left_shift_vec(s, 0);
    let mut best = unmatched_exec(&first);
    proof {
        assert(left_shift(int_view(s@), 0) =~= int_view(s@));
        lemma_matched_upto_range(int_view(s@), n as int);
    }
    let mut k: usize = 1;
    while k < n
        invariant
            1 <= k <= n,
            n == s@.len() <= 0x0010_0000,
            best as int == min_unmatched_left(int_view(s@), k - 1),
            best <= n,
        decreases n - k,
    {
        let shifted = left_shift_vec(s, k);
        let u = unmatched_exec(&shifted);
        if u < best {
            best = u;
        }
        k = k + 1;
    }
    if n >= 2 {
        let mut k: usize = 1;
        while k < n
            invariant
                1 <= k <= n,
                n == s@.len() <= 0x0010_0000,
                best <= n,
                k == 1 ==> best as int == min_unmatched_left(int_view(s@), n - 1),
                k >= 2 ==> best as int == min2(
                    min_unmatched_left(int_view(s@), n - 1),
                    min_unmatched_right(int_view(s@), k - 1),
                ),
            decreases n - k,
        {
            let shifted = right_shift_vec(s, k);
            let u = unmatched_exec(&shifted);
            if u < best {
                best = u;
            }
            k = k + 1;
        }
    }
    best / 2 + best % 2
}

/// The number of characters of the two strings that the Jaro window search
/// considers matching, and the estimated transpositions among them.
pub fn matching(a: &str, b: &str) -> (r: (usize, usize))
    requires
        a@.len() <= 0x0010_0000,
        b@.len() <= 0x0010_0000,
    ensures
        r.0 == jaro_matches(a@, b@),
        r.1 == jaro_transpositions(a@, b@),
        r.1 <= r.0 <= min2(a@.len() as int, b@.len() as int),
{
    let ca = str_chars(a);
    let cb = str_chars(b);
    let (long, short) = if ca.len() > cb.len() {
        (ca, cb)
    } else {
        (cb, ca)
    };
    let mx = long.len();
    let rad = if mx / 2 >= 1 {
        mx / 2 - 1
    } else {
        0
    };
    proof {
        assert(long@ == long_of(a@, b@) && short@ == short_of(a@, b@));
        assert(rad as int == radius_val(a@, b@));
    }
    let locs = match_locations_exec(&short, &long, rad);
    let ranks = sequence_ranks(&locs);
    let t = transpositions_estimate(&ranks);
    proof {
        assert(rank_seq(int_view(locs@)).len() == int_view(locs@).len());
    }
    (locs.len(), t)
}

proof fn lemma_jaro_fraction_bounds(m: int, t: int, la: int, lb: int)
    requires
        1 <= m,
        m <= la <= 0x0010_0000,
        m <= lb <= 0x0010_0000,
        0 <= t <= m,
    ensures
        0 <= m * m * (la + lb) + (m - t) * la * lb <= 3 * la * lb * m,
        3 <= 3 * la * lb * m <= 0x4000_0000_0000_0000,
        m * m <= 0x100_0000_0000,
        m * m * (la + lb) <= 0x4000_0000_0000_0000,
        0 <= (m - t) * la <= 0x100_0000_0000,
        0 <= (m - t) * la * lb <= 0x4000_0000_0000_0000,
        3 * la * lb <= 0x3000_0000_0000,
{
    assert(0 <= m * m * (la + lb) + (m - t) * la * lb <= 3 * la * lb * m) by (nonlinear_arith)
        requires
            1 <= m,
            m <= la,
            m <= lb,
            0 <= t <= m,
    ;
    assert(3 <= 3 * la * lb * m <= 0x4000_0000_0000_0000 && m * m <= 0x100_0000_0000 && m * m * (la
        + lb) <= 0x4000_0000_0000_0000 && 0 <= (m - t) * la <= 0x100_0000_0000 && 0 <= (m - t) * la
        * lb <= 0x4000_0000_0000_0000 && 3 * la * lb <= 0x3000_0000_0000) by (nonlinear_arith)
        requires
            1 <= m <= la <= 0x0010_0000,
            m <= lb <= 0x0010_0000,
            0 <= t <= m,
    ;
}

/// Exact Jaro similarity of the two strings, in `[0, 1]`: zero when no
/// character matches, else one third of `m/|a| + m/|b| + (m - t)/m` for
/// `m` matching characters and `t` estimated transpositions.
pub fn jaro(a: &str, b: &str) -> (r: Ratio)
    requires
        a@.len() <= 0x0010_0000,
        b@.len() <= 0x0010_0000,
    ensures
        (r.num as int, r.den as int) == jaro_spec(a@, b@),
        0 < r.den <= 0x4000_0000_0000_0000,
        r.num <= r.den,
{
    let (m, t) = matching(a, b);
    if m == 0 {
        return Ratio { num: 0, den: 1 };
    }
    let la = a.unicode_len();
    let lb = b.unicode_len();
    proof {
        lemma_jaro_fraction_bounds(m as int, t as int, la as int, lb as int);
    }
    let m128 = m as u128;
    let t128 = t as u128;
    let la128 = la as u128;
    let lb128 = lb as u128;
    let num = m128 * m128 * (la128 + lb128) + (m128 - t128) * la128 * lb128;
    let den = 3 * la128 * lb128 * m128;
    Ratio { num, den }
}

proof fn lemma_common_prefix_at(a: Seq<char>, b: Seq<char>, i: int)
    requires
        0 <= i <= a.len(),
        i <= b.len(),
        forall|t: int| 0 <= t < i ==> a[t] == b[t],
        i == a.len() || i == b.len() || a[i] != b[i],
    ensures
        common_prefix_len(a, b) == i,
    decreases i,
{
    if i == 0 {
    } else {
        let a1 = a.subrange(1, a.len() as int);
        let b1 = b.subrange(1, b.len() as int);
        lemma_common_prefix_at(a1, b1, i - 1);
    }
}

/// The prefix bound never exceeds either length.
proof fn lemma_common_prefix_range(a: Seq<char>, b: Seq<char>)
    ensures
        0 <= common_prefix_len(a, b),
        common_prefix_len(a, b) <= a.len(),
        common_prefix_len(a, b) <= b.len(),
    decreases a.len(),
{
    if a.len() > 0 && b.len() > 0 && a[0] == b[0] {
        lemma_common_prefix_range(a.subrange(1, a.len() as int), b.subrange(1, b.len() as int));
    }
}

/// Length of the common leading-character prefix of the two strings.
pub fn len_common_prefix(a: &str, b: &str) -> (r: usize)
    ensures
        r as int == common_prefix_len(a@, b@),
        r <= a@.len(),
        r <= b@.len(),
{
    let ca = str_chars(a);
    let cb = str_chars(b);
    let la = ca.len();
    let lb = cb.len();
    let n = if la <= lb {
        la
    } else {
        lb
    };
    let mut i: usize = 0;
    while i < n && ca[i] == cb[i]
        invariant
            i <= n,
            n == min2(la as int, lb as int),
            la == ca@.len(),
            lb == cb@.len(),
            ca@ == a@,
            cb@ == b@,
            forall|t: int| 0 <= t < i ==> a@[t] == b@[t],
        decreases n - i,
    {
        i = i + 1;
    }
    proof {
        lemma_common_prefix_at(a@, b@, i as int);
    }
    i
}

/// The fraction a caller passed, if any, as a pair of integers.
pub open spec fn ratio_opt_view(p: Option<Ratio>) -> Option<(int, int)> {
    match p {
        Option::Some(q) => Option::Some((q.num as int, q.den as int)),
        Option::None => Option::None,
    }
}

/// Exact Jaro-Winkler similarity: the Jaro value boosted by the common
/// prefix, `jaro + l * p * (1 - jaro)`, with `l` the prefix length capped at
/// four and `p` the prefix weight, one tenth by default and capped at one
/// quarter.
pub open spec fn jaro_winkler_spec(a: Seq<char>, b: Seq<char>, p: Option<(int, int)>) -> (
    int,
    int,
) {
    let jn = jaro_spec(a, b).0;
    let jd = jaro_spec(a, b).1;
    let pn0 = match p {
        Option::Some(q) => q.0,
        Option::None => 1,
    };
    let pd0 = match p {
        Option::Some(q) => q.1,
        Option::None => 10,
    };
    let pn = if 4 * pn0 <= pd0 {
        pn0
    } else {
        1
    };
    let pd = if 4 * pn0 <= pd0 {
        pd0
    } else {
        4
    };
    let l = min2(common_prefix_len(a, b), 4);
    (jn * pd + l * pn * (jd - jn), jd * pd)
}

/// Jaro-Winkler similarity as an exact fraction, in `[0, 1]`. The prefix
/// weight `p` defaults to one tenth and is capped at one quarter.
pub fn jaro_winkler(a: &str, b: &str, p: Option<Ratio>) -> (r: Ratio)
    requires
        a@.len() <= 0x0010_0000,
        b@.len() <= 0x0010_0000,
        p matches Some(q) ==> 0 < q.den <= 0x1_0000_0000 && q.num <= 0x1_0000_0000,
    ensures
        (r.num as int, r.den as int) == jaro_winkler_spec(a@, b@, ratio_opt_view(p)),
        r.den > 0,
        r.num <= r.den,
{
    let j = jaro(a, b);
    let (pn0, pd0): (u128, u128) = match p {
        Option::Some(q) => (q.num, q.den),
        Option::None => (1, 10),
    };
    let (pn, pd): (u128, u128) = if 4 * pn0 <= pd0 {
        (pn0, pd0)
    } else {
        (1, 4)
    };
    let lraw = len_common_prefix(a, b);
    let l: u128 = if lraw <= 4 {
        lraw as u128
    } else {
        4
    };
    proof {
        lemma_common_prefix_range(a@, b@);
        assert(l as int == min2(common_prefix_len(a@, b@), 4));
        assert(l * pn <= pd) by (nonlinear_arith)
            requires
                0 <= l <= 4,
                0 <= pn,
                0 < pd,
                4 * pn <= pd,
        ;
        assert(j.num * pd + l * pn * (j.den - j.num) <= j.den * pd) by (nonlinear_arith)
            requires
                0 <= j.num <= j.den,
                0 < pd,
                0 <= l * pn <= pd,
        ;
        assert(0 < j.den * pd <= 0x4000_0000_0000_0000 * 0x1_0000_0000 && j.num * pd <= j.den * pd
            && l * pn * (j.den - j.num) <= j.den * pd) by (nonlinear_arith)
            requires
                0 <= j.num <= j.den,
                0 < j.den <= 0x4000_0000_0000_0000,
                0 < pd <= 0x1_0000_0000,
                0 <= l * pn <= pd,
        ;
    }
    let num = j.num * pd + l * pn * (j.den - j.num);
    let den = j.den * pd;
    Ratio { num, den }
}

/// Exact extended-prefix Jaro-Winkler similarity: the prefix length may
/// exceed four up to `max_l` (by default the shorter string's length), and
/// the weight `p` is capped so that `max_l * p` never exceeds one.
pub open spec fn jaro_winkler_ext_spec(
    a: Seq<char>,
    b: Seq<char>,
    p: Option<(int, int)>,
    max_l: Option<int>,
) -> (int, int) {
    let jn = jaro_spec(a, b).0;
    let jd = jaro_spec(a, b).1;
    let pn0 = match p {
        Option::Some(q) => q.0,
        Option::None => 1,
    };
    let pd0 = match p {
        Option::Some(q) => q.1,
        Option::None => 10,
    };
    let ml = match max_l {
        Option::Some(v) => v,
        Option::None => min2(a.len() as int, b.len() as int),
    };
    let pn = if ml * pn0 <= pd0 {
        pn0
    } else {
        1
    };
    let pd = if ml * pn0 <= pd0 {
        pd0
    } else {
        ml
    };
    let l = min2(common_prefix_len(a, b), ml);
    (jn * pd + l * pn * (jd - jn), jd * pd)
}

/// Extended-prefix Jaro-Winkler similarity as an exact fraction, in
/// `[0, 1]`. `p` defaults to one tenth; `max_l` defaults to the shorter
/// string's length; `p` is clamped to `1 / max_l` where `max_l * p` would
/// exceed one.
pub fn jaro_winkler_ext(a: &str, b: &str, p: Option<Ratio>, max_l: Option<usize>) -> (r: Ratio)
    requires
        a@.len() <= 0x0010_0000,
        b@.len() <= 0x0010_0000,
        p matches Some(q) ==> 0 < q.den <= 0x1_0000_0000 && q.num <= 0x1_0000_0000,
        max_l matches Some(v) ==> v <= 0x1_0000_0000,
    ensures
        (r.num as int, r.den as int) == jaro_winkler_ext_spec(
            a@,
            b@,
            ratio_opt_view(p),
            match max_l {
                Option::Some(v) => Option::Some(v as int),
                Option::None => Option::None,
            },
        ),
        r.den > 0,
        r.num <= r.den,
{
    let j = jaro(a, b);
    let (pn0, pd0): (u128, u128) = match p {
        Option::Some(q) => (q.num, q.den),
        Option::None => (1, 10),
    };
    let ml128: u128 = match max_l {
        Option::Some(v) => v as u128,
        Option::None => {
            let la = a.unicode_len();
            let lb = b.unicode_len();
            if la <= lb {
                la as u128
            } else {
                lb as u128
            }
        },
    };
    proof {
        assert(ml128 * pn0 <= 0x1_0000_0000 * 0x1_0000_0000) by (nonlinear_arith)
            requires
                0 <= ml128 <= 0x1_0000_0000,
                0 <= pn0 <= 0x1_0000_0000,
        ;
    }
    let (pn, pd): (u128, u128) = if ml128 * pn0 <= pd0 {
        (pn0, pd0)
    } else {
        (1, ml128)
    };
    let lraw = len_common_prefix(a, b);
    let l: u128 = if lraw as u128 <= ml128 {
        lraw as u128
    } else {
        ml128
    };
    proof {
        lemma_common_prefix_range(a@, b@);
        assert(pd > 0) by (nonlinear_arith)
            requires
                pd0 > 0,
                ml128 * pn0 <= pd0 ==> pd == pd0,
                !(ml128 * pn0 <= pd0) ==> pd == ml128,
                pn0 >= 0,
        ;
        assert(l * pn <= pd) by (nonlinear_arith)
            requires
                0 <= l <= ml128,
                0 <= pn,
                0 < pd,
                ml128 * pn0 <= pd0 ==> pn == pn0 && pd == pd0,
                !(ml128 * pn0 <= pd0) ==> pn == 1 && pd == ml128,
        ;
        assert(j.num * pd + l * pn * (j.den - j.num) <= j.den * pd) by (nonlinear_arith)
            requires
                0 <= j.num <= j.den,
                0 < pd,
                0 <= l * pn <= pd,
        ;
        assert(0 < j.den * pd <= 0x4000_0000_0000_0000 * 0x1_0000_0000 && j.num * pd <= j.den * pd
            && l * pn * (j.den - j.num) <= j.den * pd) by (nonlinear_arith)
            requires
                0 <= j.num <= j.den,
                0 < j.den <= 0x4000_0000_0000_0000,
                0 < pd <= 0x1_0000_0000,
                0 <= l * pn <= pd,
        ;
    }
    let num = j.num * pd + l * pn * (j.den - j.num);
    let den = j.den * pd;
    Ratio { num, den }
}

} // verus!
