//! Typo-tolerant string similarity: Levenshtein edit distance, computed by
//! dynamic programming and proved equal to its recursive definition, and a
//! normalized similarity in thousandths (0 = unrelated, 1000 = equal).

use vstd::math::max;
use vstd::math::min;
use vstd::prelude::*;

verus! {

/// Minimum of three integers.
pub open spec fn min3(a: int, b: int, c: int) -> int {
    min(min(a, b), c)
}

/// Levenshtein edit distance between two character sequences: the least
/// number of insertions, deletions and substitutions turning one into the
/// other.
pub open spec fn lev(a: Seq<char>, b: Seq<char>) -> int
    decreases a.len(), b.len(),
{
    if a.len() == 0 {
        b.len() as int
    } else if b.len() == 0 {
        a.len() as int
    } else {
        let sub: int = if a.last() == b.last() {
            0
        } else {
            1
        };
        min3(
            lev(a.drop_last(), b.drop_last()) + sub,
            lev(a.drop_last(), b) + 1,
            lev(a, b.drop_last()) + 1,
        )
    }
}

/// The distance is non-negative and at most the longer length.
pub proof fn lemma_lev_bounds(a: Seq<char>, b: Seq<char>)
    ensures
        0 <= lev(a, b) <= max(a.len() as int, b.len() as int),
    decreases a.len(), b.len(),
{
    if a.len() != 0 && b.len() != 0 {
        lemma_lev_bounds(a.drop_last(), b.drop_last());
        lemma_lev_bounds(a.drop_last(), b);
        lemma_lev_bounds(a, b.drop_last());
    }
}

/// The dynamic-programming step: the distance between prefixes of lengths
/// `i` and `j` is determined by the three neighbouring prefix distances.
proof fn lemma_lev_step(a: Seq<char>, b: Seq<char>, i: int, j: int)
    requires
        1 <= i <= a.len(),
        1 <= j <= b.len(),
    ensures
        lev(a.take(i), b.take(j)) == min3(
            lev(a.take(i - 1), b.take(j - 1)) + (if a[i - 1] == b[j - 1] {
                0int
            } else {
                1int
            }),
            lev(a.take(i - 1), b.take(j)) + 1,
            lev(a.take(i), b.take(j - 1)) + 1,
        ),
{
    let x = a.take(i);
    let y = b.take(j);
    assert(x.last() == a[i - 1]);
    assert(y.last() == b[j - 1]);
    assert(x.drop_last() =~= a.take(i - 1));
    assert(y.drop_last() =~= b.take(j - 1));
}

/// The characters of a string, as a vector.
pub fn chars_of(s: &str) -> (v: Vec<char>)
    ensures
        v@ == s@,
{
    let n = s.unicode_len();
    let mut v: Vec<char> = Vec::new();
    let mut i: usize = 0;
    while i < n
        invariant
            i <= n,
            n == s@.len(),
            v@ == s@.take(i as int),
        decreases n - i,
    {
        v.push(s.get_char(i));
        proof {
            assert(s@.take(i + 1) =~= s@.take(i as int).push(s@[i as int]));
        }
        i += 1;
    }
    proof {
        assert(s@.take(n as int) =~= s@);
    }
    v
}

/// Edit distance, computed row by row.
pub fn levenshtein(a: &Vec<char>, b: &Vec<char>) -> (d: u128)
    ensures
        d as int == lev(a@, b@),
{
    let n = a.len();
    let m = b.len();
    let mut prev: Vec<u128> = Vec::new();
    while prev.len() <= m
        invariant
            prev@.len() <= m + 1,
            forall|k: int| 0 <= k < prev@.len() ==> prev@[k] as int == k,
        decreases m + 1 - prev@.len(),
    {
        let l = prev.len();
        prev.push(l as u128);
    }
    proof {
        assert forall|j: int| 0 <= j <= m implies prev@[j] as int == lev(
            a@.take(0),
            b@.take(j),
        ) by {
            assert(a@.take(0).len() == 0);
            assert(b@.take(j).len() == j);
        }
    }
    let mut i: usize = 0;
    while i < n
        invariant
            i <= n,
            n == a@.len(),
            m == b@.len(),
            prev@.len() == m + 1,
            forall|j: int| 0 <= j <= m ==> prev@[j] as int == lev(a@.take(i as int), b@.take(j)),
        decreases n - i,
    {
        let mut cur: Vec<u128> = Vec::new();
        cur.push((i + 1) as u128);
        proof {
            assert(b@.take(0).len() == 0);
            assert(a@.take(i + 1).len() == i + 1);
            assert(lev(a@.take(i + 1), b@.take(0)) == i + 1);
        }
        while cur.len() <= m
            invariant
                i < n,
                n == a@.len(),
                m == b@.len(),
                prev@.len() == m + 1,
                1 <= cur@.len() <= m + 1,
                forall|t: int| 0 <= t <= m ==> prev@[t] as int == lev(a@.take(i as int), b@.take(t)),
                forall|t: int| 0 <= t < cur@.len() ==> cur@[t] as int == lev(
                    a@.take(i + 1),
                    b@.take(t),
                ),
            decreases m + 1 - cur@.len(),
        {
            let j = cur.len();
            proof {
                lemma_lev_step(a@, b@, i + 1, j as int);
                lemma_lev_bounds(a@.take(i as int), b@.take(j - 1));
                lemma_lev_bounds(a@.take(i as int), b@.take(j as int));
                lemma_lev_bounds(a@.take(i + 1), b@.take(j - 1));
            }
            let cost: u128 = if a[i] == b[j - 1] {
                0
            } else {
                1
            };
            let mut best: u128 = prev[j - 1] + cost;
            let d1: u128 = prev[j] + 1;
            if d1 < best {
                best = d1;
            }
            let d2: u128 = cur[j - 1] + 1;
            if d2 < best {
                best = d2;
            }
            cur.push(best);
        }
        prev = cur;
        i += 1;
    }
    proof {
        assert(a@.take(n as int) =~= a@);
        assert(b@.take(m as int) =~= b@);
    }
    prev[m]
}

/// Normalized similarity in thousandths: `1000` for two empty sequences,
/// otherwise `(maxlen - distance) * 1000 / maxlen`, so equal sequences give
/// `1000` and wholly different ones give `0`.
pub open spec fn sim_milli(a: Seq<char>, b: Seq<char>) -> int {
    let m = max(a.len() as int, b.len() as int);
    if m == 0 {
        1000
    } else {
        (m - lev(a, b)) * 1000 / m
    }
}

/// Similarity always lies in `[0, 1000]`.
pub proof fn lemma_sim_milli_range(a: Seq<char>, b: Seq<char>)
    ensures
        0 <= sim_milli(a, b) <= 1000,
{
    let m = max(a.len() as int, b.len() as int);
    if m != 0 {
        lemma_lev_bounds(a, b);
        let l = lev(a, b);
        assert(0 <= (m - l) * 1000 / m <= 1000) by (nonlinear_arith)
            requires
                1 <= m,
                0 <= l <= m,
        ;
    }
}

/// Similarity in thousandths, executable form.
pub fn similarity_milli(a: &Vec<char>, b: &Vec<char>) -> (s: u64)
    ensures
        s as int == sim_milli(a@, b@),
        s <= 1000,
{
    let d = levenshtein(a, b);
    let n = a.len();
    let m = b.len();
    let mm: u128 = if n >= m {
        n as u128
    } else {
        m as u128
    };
    proof {
        lemma_lev_bounds(a@, b@);
        lemma_sim_milli_range(a@, b@);
    }
    if mm == 0 {
        return 1000;
    }
    let s128: u128 = (mm - d) * 1000 / mm;
    s128 as u64
}

} // verus!
