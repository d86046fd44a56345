//! String alignment measures: Levenshtein distance and the length of the
//! longest common subsequence, both computed by dynamic programming over two
//! rolling rows and proved against their classical recursive definitions.

use vstd::prelude::*;
use vstd::string::StrSliceExecFns;

verus! {

/// The smaller of two integers.
pub open spec fn min2(a: int, b: int) -> int {
    if a <= b {
        a
    } else {
        b
    }
}

/// The smallest of three integers.
pub open spec fn min3(a: int, b: int, c: int) -> int {
    min2(min2(a, b), c)
}

/// The larger of two integers.
pub open spec fn max2(a: int, b: int) -> int {
    if a >= b {
        a
    } else {
        b
    }
}

/// Levenshtein distance between two character sequences: the least number of
/// single-character insertions, deletions and substitutions taking one to
/// the other. Matching final characters carry the diagonal value forward
/// unchanged; a mismatch costs one plus the best of delete, insert and
/// substitute.
pub open spec fn levenshtein(s: Seq<char>, t: Seq<char>) -> int
    decreases s.len() + t.len(),
{
    if s.len() == 0 {
        t.len() as int
    } else if t.len() == 0 {
        s.len() as int
    } else if s.last() == t.last() {
        levenshtein(s.drop_last(), t.drop_last())
    } else {
        1 + min3(
            levenshtein(s.drop_last(), t),
            levenshtein(s, t.drop_last()),
            levenshtein(s.drop_last(), t.drop_last()),
        )
    }
}

/// Length of the longest common subsequence of two character sequences.
pub open spec fn lcs_len(x: Seq<char>, y: Seq<char>) -> int
    decreases x.len() + y.len(),
{
    if x.len() == 0 || y.len() == 0 {
        0
    } else if x.last() == y.last() {
        1 + lcs_len(x.drop_last(), y.drop_last())
    } else {
        max2(lcs_len(x.drop_last(), y), lcs_len(x, y.drop_last()))
    }
}

/// The distance is non-negative and never exceeds the summed lengths.
pub proof fn lemma_levenshtein_range(s: Seq<char>, t: Seq<char>)
    ensures
        0 <= levenshtein(s, t) <= s.len() + t.len(),
        levenshtein(s, t) <= max2(s.len() as int, t.len() as int),
    decreases s.len() + t.len(),
{
    if s.len() > 0 && t.len() > 0 {
        lemma_levenshtein_range(s.drop_last(), t);
        lemma_levenshtein_range(s, t.drop_last());
        lemma_levenshtein_range(s.drop_last(), t.drop_last());
    }
}

/// The distance is at least the difference of the two lengths.
proof fn lemma_levenshtein_len_diff(s: Seq<char>, t: Seq<char>)
    ensures
        levenshtein(s, t) >= s.len() - t.len(),
        levenshtein(s, t) >= t.len() - s.len(),
    decreases s.len() + t.len(),
{
    if s.len() > 0 && t.len() > 0 {
        lemma_levenshtein_len_diff(s.drop_last(), t);
        lemma_levenshtein_len_diff(s, t.drop_last());
        lemma_levenshtein_len_diff(s.drop_last(), t.drop_last());
    }
}

/// A string is at distance zero from itself.
pub proof fn lemma_levenshtein_self(s: Seq<char>)
    ensures
        levenshtein(s, s) == 0,
    decreases s.len(),
{
    if s.len() > 0 {
        lemma_levenshtein_self(s.drop_last());
    }
}

/// The distance is symmetric in its two arguments.
pub proof fn lemma_levenshtein_symmetric(s: Seq<char>, t: Seq<char>)
    ensures
        levenshtein(s, t) == levenshtein(t, s),
    decreases s.len() + t.len(),
{
    if s.len() > 0 && t.len() > 0 {
        lemma_levenshtein_symmetric(s.drop_last(), t);
        lemma_levenshtein_symmetric(s, t.drop_last());
        lemma_levenshtein_symmetric(s.drop_last(), t.drop_last());
    }
}

/// Dropping the last character of either argument moves the distance by at
/// most one in either direction.
proof fn lemma_levenshtein_adjacent(s: Seq<char>, t: Seq<char>)
    ensures
        s.len() > 0 ==> levenshtein(s, t) <= levenshtein(s.drop_last(), t) + 1,
        s.len() > 0 ==> levenshtein(s.drop_last(), t) <= levenshtein(s, t) + 1,
        t.len() > 0 ==> levenshtein(s, t) <= levenshtein(s, t.drop_last()) + 1,
        t.len() > 0 ==> levenshtein(s, t.drop_last()) <= levenshtein(s, t) + 1,
    decreases s.len() + t.len(),
{
    if s.len() > 0 && t.len() > 0 {
        lemma_levenshtein_adjacent(s.drop_last(), t);
        lemma_levenshtein_adjacent(s, t.drop_last());
        lemma_levenshtein_adjacent(s.drop_last(), t.drop_last());
        lemma_levenshtein_range(s.drop_last(), t.drop_last());
    } else {
        lemma_levenshtein_range(s, t);
    }
}

/// Triangle inequality: going from `s` to `u` is never dearer than going
/// from `s` to `t` and then from `t` to `u`.
pub proof fn lemma_levenshtein_triangle(s: Seq<char>, t: Seq<char>, u: Seq<char>)
    ensures
        levenshtein(s, u) <= levenshtein(s, t) + levenshtein(t, u),
    decreases s.len() + t.len() + u.len(),
{
    if t.len() == 0 {
        lemma_levenshtein_range(s, u);
    } else if s.len() == 0 {
        lemma_levenshtein_len_diff(t, u);
    } else if u.len() == 0 {
        lemma_levenshtein_len_diff(s, t);
    } else {
        let s1 = s.drop_last();
        let t1 = t.drop_last();
        let u1 = u.drop_last();
        lemma_levenshtein_adjacent(s, u);
        lemma_levenshtein_adjacent(s1, u);
        lemma_levenshtein_adjacent(t1, u);
        if s.last() == t.last() {
            if t.last() == u.last() {
                lemma_levenshtein_triangle(s1, t1, u1);
            } else {
                let p = levenshtein(t1, u);
                let q = levenshtein(t, u1);
                let r = levenshtein(t1, u1);
                if min3(p, q, r) == r {
                    lemma_levenshtein_triangle(s1, t1, u1);
                } else if min3(p, q, r) == p {
                    lemma_levenshtein_triangle(s1, t1, u);
                } else {
                    lemma_levenshtein_triangle(s, t, u1);
                }
            }
        } else {
            let p2 = levenshtein(s1, t);
            let q2 = levenshtein(s, t1);
            let r2 = levenshtein(s1, t1);
            if min3(p2, q2, r2) == p2 {
                lemma_levenshtein_triangle(s1, t, u);
            } else if min3(p2, q2, r2) == q2 {
                lemma_levenshtein_triangle(s, t1, u);
                lemma_levenshtein_adjacent(t, u);
            } else {
                if t.last() == u.last() {
                    lemma_levenshtein_triangle(s1, t1, u1);
                } else {
                    let p = levenshtein(t1, u);
                    let q = levenshtein(t, u1);
                    let r = levenshtein(t1, u1);
                    if min3(p, q, r) == r {
                        lemma_levenshtein_triangle(s1, t1, u1);
                    } else if min3(p, q, r) == p {
                        lemma_levenshtein_triangle(s1, t1, u);
                    } else {
                        lemma_levenshtein_triangle(s, t, u1);
                    }
                }
            }
        }
    }
}

/// A string is its own longest common subsequence.
pub proof fn lemma_lcs_self(s: Seq<char>)
    ensures
        lcs_len(s, s) == s.len(),
    decreases s.len(),
{
    if s.len() > 0 {
        lemma_lcs_self(s.drop_last());
    }
}

/// Nothing is common with the empty string.
pub proof fn lemma_lcs_empty(s: Seq<char>)
    ensures
        lcs_len(s, Seq::empty()) == 0,
        lcs_len(Seq::empty(), s) == 0,
{
}

/// The subsequence length is non-negative and bounded by both lengths.
pub proof fn lemma_lcs_range(x: Seq<char>, y: Seq<char>)
    ensures
        0 <= lcs_len(x, y),
        lcs_len(x, y) <= x.len(),
        lcs_len(x, y) <= y.len(),
    decreases x.len() + y.len(),
{
    if x.len() > 0 && y.len() > 0 {
        lemma_lcs_range(x.drop_last(), y);
        lemma_lcs_range(x, y.drop_last());
        lemma_lcs_range(x.drop_last(), y.drop_last());
    }
}

/// The characters of a string slice, in order, as a vector.
pub fn str_chars(s: &str) -> (r: Vec<char>)
    ensures
        r@ == s@,
{
    let n = s.unicode_len();
    let mut r: Vec<char> = Vec::new();
    let mut i: usize = 0;
    while i < n
        invariant
            i <= n,
            n == s@.len(),
            r@ == s@.subrange(0, i as int),
        decreases n - i,
    {
        let c = s.get_char(i);
        r.push(c);
        proof {
            assert(r@ =~= s@.subrange(0, i + 1));
        }
        i = i + 1;
    }
    proof {
        assert(s@.subrange(0, n as int) =~= s@);
    }
    r
}

proof fn lemma_levenshtein_prefix_step(s: Seq<char>, t: Seq<char>, i: int, j: int)
    requires
        1 <= i <= s.len(),
        1 <= j <= t.len(),
    ensures
        s[i - 1] == t[j - 1] ==> levenshtein(s.subrange(0, i), t.subrange(0, j)) == levenshtein(
            s.subrange(0, i - 1),
            t.subrange(0, j - 1),
        ),
        s[i - 1] != t[j - 1] ==> levenshtein(s.subrange(0, i), t.subrange(0, j)) == 1 + min3(
            levenshtein(s.subrange(0, i - 1), t.subrange(0, j)),
            levenshtein(s.subrange(0, i), t.subrange(0, j - 1)),
            levenshtein(s.subrange(0, i - 1), t.subrange(0, j - 1)),
        ),
{
    assert(s.subrange(0, i).drop_last() =~= s.subrange(0, i - 1));
    assert(t.subrange(0, j).drop_last() =~= t.subrange(0, j - 1));
}

/// Levenshtein distance over character vectors, by the rolling two-row
/// dynamic program with the longer input as the outer dimension.
pub fn l_distance_chars(s: &Vec<char>, t: &Vec<char>) -> (r: usize)
    ensures
        r == levenshtein(s@, t@),
{
    // Keep the shorter string as the row so the rows stay narrow.
    let (a, b) = if s.len() < t.len() {
        (t, s)
    } else {
        (s, t)
    };
    let m = a.len();
    let n = b.len();
    let mut prev_row: Vec<usize> = Vec::new();
    prev_row.push(0);
    let mut j: usize = 0;
    while j < n
        invariant
            j <= n,
            n == b@.len(),
            prev_row@.len() == j + 1,
            forall|jj: int| 0 <= jj <= j ==> prev_row@[jj] == jj,
        decreases n - j,
    {
        prev_row.push(j + 1);
        j = j + 1;
    }
    proof {
        assert forall|jj: int| 0 <= jj <= n implies levenshtein(
            a@.subrange(0, 0),
            b@.subrange(0, jj),
        ) == jj by {
            assert(a@.subrange(0, 0).len() == 0);
        }
    }
    let mut i: usize = 0;
    while i < m
        invariant
            i <= m,
            m == a@.len(),
            n == b@.len(),
            n <= m,
            prev_row@.len() == n + 1,
            forall|jj: int|
                0 <= jj <= n ==> prev_row@[jj] == levenshtein(
                    a@.subrange(0, i as int),
                    b@.subrange(0, jj),
                ),
        decreases m - i,
    {
        let mut curr_row: Vec<usize> = Vec::new();
        curr_row.push(i + 1);
        proof {
            assert(b@.subrange(0, 0).len() == 0);
            assert(levenshtein(a@.subrange(0, i + 1), b@.subrange(0, 0)) == i + 1);
        }
        let mut j: usize = 0;
        while j < n
            invariant
                j <= n,
                i < m,
                m == a@.len(),
                n == b@.len(),
                prev_row@.len() == n + 1,
                forall|jj: int|
                    0 <= jj <= n ==> prev_row@[jj] == levenshtein(
                        a@.subrange(0, i as int),
                        b@.subrange(0, jj),
                    ),
                curr_row@.len() == j + 1,
                forall|jj: int|
                    0 <= jj <= j ==> curr_row@[jj] == levenshtein(
                        a@.subrange(0, i + 1),
                        b@.subrange(0, jj),
                    ),
            decreases n - j,
        {
            proof {
                lemma_levenshtein_prefix_step(a@, b@, i + 1, j + 1);
                lemma_levenshtein_range(a@.subrange(0, i as int), b@.subrange(0, j as int));
                lemma_levenshtein_range(a@.subrange(0, i as int), b@.subrange(0, j + 1));
                lemma_levenshtein_range(a@.subrange(0, i + 1), b@.subrange(0, j as int));
            }
            let v = if a[i] == b[j] {
                prev_row[j]
            } else {
                let del = prev_row[j + 1];
                let ins = curr_row[j];
                let sub = prev_row[j];
                let min = if del <= ins && del <= sub {
                    del
                } else if ins <= sub {
                    ins
                } else {
                    sub
                };
                min + 1
            };
            curr_row.push(v);
            j = j + 1;
        }
        prev_row = curr_row;
        i = i + 1;
    }
    proof {
        assert(a@.subrange(0, m as int) =~= a@);
        assert(b@.subrange(0, n as int) =~= b@);
        lemma_levenshtein_symmetric(s@, t@);
    }
    prev_row[n]
}

/// Levenshtein distance between two strings.
pub fn l_distance(s: &str, t: &str) -> (r: usize)
    ensures
        r == levenshtein(s@, t@),
{
    let cs = str_chars(s);
    let ct = str_chars(t);
    l_distance_chars(&cs, &ct)
}

proof fn lemma_lcs_prefix_step(x: Seq<char>, y: Seq<char>, i: int, j: int)
    requires
        1 <= i <= x.len(),
        1 <= j <= y.len(),
    ensures
        x[i - 1] == y[j - 1] ==> lcs_len(x.subrange(0, i), y.subrange(0, j)) == 1 + lcs_len(
            x.subrange(0, i - 1),
            y.subrange(0, j - 1),
        ),
        x[i - 1] != y[j - 1] ==> lcs_len(x.subrange(0, i), y.subrange(0, j)) == max2(
            lcs_len(x.subrange(0, i - 1), y.subrange(0, j)),
            lcs_len(x.subrange(0, i), y.subrange(0, j - 1)),
        ),
{
    assert(x.subrange(0, i).drop_last() =~= x.subrange(0, i - 1));
    assert(y.subrange(0, j).drop_last() =~= y.subrange(0, j - 1));
}

/// Longest-common-subsequence length over character vectors, by the rolling
/// two-row dynamic program over prefix-length pairs.
pub fn lcs_chars(x: &Vec<char>, y: &Vec<char>) -> (r: usize)
    ensures
        r == lcs_len(x@, y@),
{
    let m = x.len();
    let n = y.len();
    let mut prev_row: Vec<usize> = Vec::new();
    prev_row.push(0);
    let mut j: usize = 0;
    while j < n
        invariant
            j <= n,
            n == y@.len(),
            prev_row@.len() == j + 1,
            forall|jj: int| 0 <= jj <= j ==> prev_row@[jj] == 0,
        decreases n - j,
    {
        prev_row.push(0);
        j = j + 1;
    }
    proof {
        assert forall|jj: int| 0 <= jj <= n implies lcs_len(
            x@.subrange(0, 0),
            y@.subrange(0, jj),
        ) == 0 by {
            assert(x@.subrange(0, 0).len() == 0);
        }
    }
    let mut i: usize = 0;
    while i < m
        invariant
            i <= m,
            m == x@.len(),
            n == y@.len(),
            prev_row@.len() == n + 1,
            forall|jj: int|
                0 <= jj <= n ==> prev_row@[jj] == lcs_len(
                    x@.subrange(0, i as int),
                    y@.subrange(0, jj),
                ),
        decreases m - i,
    {
        let mut curr_row: Vec<usize> = Vec::new();
        curr_row.push(0);
        proof {
            assert(y@.subrange(0, 0).len() == 0);
        }
        let mut j: usize = 0;
        while j < n
            invariant
                j <= n,
                i < m,
                m == x@.len(),
                n == y@.len(),
                prev_row@.len() == n + 1,
                forall|jj: int|
                    0 <= jj <= n ==> prev_row@[jj] == lcs_len(
                        x@.subrange(0, i as int),
                        y@.subrange(0, jj),
                    ),
                curr_row@.len() == j + 1,
                forall|jj: int|
                    0 <= jj <= j ==> curr_row@[jj] == lcs_len(
                        x@.subrange(0, i + 1),
                        y@.subrange(0, jj),
                    ),
            decreases n - j,
        {
            proof {
                lemma_lcs_prefix_step(x@, y@, i + 1, j + 1);
                lemma_lcs_range(x@.subrange(0, i as int), y@.subrange(0, j as int));
            }
            let v = if x[i] == y[j] {
                prev_row[j] + 1
            } else {
                let del = prev_row[j + 1];
                let ins = curr_row[j];
                if del >= ins {
                    del
                } else {
                    ins
                }
            };
            curr_row.push(v);
            j = j + 1;
        }
        prev_row = curr_row;
        i = i + 1;
    }
    proof {
        assert(x@.subrange(0, m as int) =~= x@);
        assert(y@.subrange(0, n as int) =~= y@);
    }
    prev_row[n]
}

/// Length of the longest common subsequence of two strings.
pub fn lcs(x: &str, y: &str) -> (r: usize)
    ensures
        r == lcs_len(x@, y@),
{
    let cx = str_chars(x);
    let cy = str_chars(y);
    lcs_chars(&cx, &cy)
}

} // verus!
