//! Edit distance and the string similarity score built on it.
//!
//! Similarity is the fraction `1 - distance / max(len)`, carried as an
//! exact numerator/denominator pair so that thresholds and comparisons
//! are decided in integer arithmetic.

use vstd::prelude::*;
use vstd::string::StrSliceExecFns;

verus! {

/// The larger of two lengths.
pub open spec fn max_len(m: nat, n: nat) -> nat {
    if m >= n {
        m
    } else {
        n
    }
}

/// Classic Levenshtein distance: inserts, deletes and substitutions of
/// single characters, each at cost one.
pub open spec fn lev(a: Seq<char>, b: Seq<char>) -> nat
    decreases a.len() + b.len(),
{
    if a.len() == 0 {
        b.len()
    } else if b.len() == 0 {
        a.len()
    } else {
        let del = lev(a.drop_last(), b) + 1;
        let ins = lev(a, b.drop_last()) + 1;
        let sub = lev(a.drop_last(), b.drop_last()) + (
        if a.last() == b.last() {
            0nat
        } else {
            1nat
        });
        if del <= ins && del <= sub {
            del
        } else if ins <= sub {
            ins
        } else {
            sub
        }
    }
}

/// The distance as actually reported: when the two
/// lengths differ by more than half the longer one, it short-circuits to
/// the longer length instead of running the full computation.
pub open spec fn lev_cutoff(a: Seq<char>, b: Seq<char>) -> nat {
    let m = a.len();
    let n = b.len();
    let mx = max_len(m, n);
    let diff = if m >= n {
        m - n
    } else {
        n - m
    };
    if diff > mx / 2 {
        mx
    } else {
        lev(a, b)
    }
}

/// The distance never exceeds the longer length.
pub proof fn lemma_lev_le_max(a: Seq<char>, b: Seq<char>)
    ensures
        lev(a, b) <= max_len(a.len(), b.len()),
    decreases a.len() + b.len(),
{
    if a.len() > 0 && b.len() > 0 {
        lemma_lev_le_max(a.drop_last(), b.drop_last());
    }
}

/// The cut-off distance never exceeds the longer length either.
pub proof fn lemma_lev_cutoff_le_max(a: Seq<char>, b: Seq<char>)
    ensures
        lev_cutoff(a, b) <= max_len(a.len(), b.len()),
{
    lemma_lev_le_max(a, b);
}

/// Numerator of the similarity score of two strings.
pub open spec fn sim_num(a: Seq<char>, b: Seq<char>) -> int {
    if a == b {
        1
    } else if a.len() == 0 || b.len() == 0 {
        0
    } else {
        max_len(a.len(), b.len()) - lev_cutoff(a, b)
    }
}

/// Denominator of the similarity score of two strings.
pub open spec fn sim_den(a: Seq<char>, b: Seq<char>) -> int {
    if a == b {
        1
    } else if a.len() == 0 || b.len() == 0 {
        1
    } else {
        max_len(a.len(), b.len()) as int
    }
}

/// Whether the similarity of two strings strictly exceeds the match
/// threshold of three quarters.
pub open spec fn sim_exceeds(a: Seq<char>, b: Seq<char>) -> bool {
    4 * sim_num(a, b) > 3 * sim_den(a, b)
}

/// Similarity is a fraction between zero and one.  Identical strings have
/// similarity exactly one, and an empty string compared against any other
/// string has similarity exactly zero.
pub proof fn lemma_similarity_bounds(a: Seq<char>, b: Seq<char>)
    ensures
        sim_den(a, b) >= 1,
        0 <= sim_num(a, b) <= sim_den(a, b),
        a == b ==> sim_num(a, b) == sim_den(a, b),
        (a.len() == 0 || b.len() == 0) && a != b ==> sim_num(a, b) == 0,
{
    lemma_lev_cutoff_le_max(a, b);
}

/// A similarity score: the fraction `num / den` with `den >= 1`.
pub struct Similarity {
    pub num: usize,
    pub den: usize,
}

impl Similarity {
    /// Whether this score strictly exceeds the match threshold of three
    /// quarters.
    pub fn exceeds_threshold(&self) -> (r: bool)
        ensures
            r == (4 * self.num as int > 3 * self.den as int),
    {
        4 * (self.num as u128) > 3 * (self.den as u128)
    }

    /// Whether this score is strictly greater than `other`.
    pub fn greater_than(&self, other: &Similarity) -> (r: bool)
        ensures
            r == (self.num as int * other.den as int > other.num as int * self.den as int),
    {
        let x = self.num as u128;
        let y = other.den as u128;
        let p = other.num as u128;
        let q = self.den as u128;
        proof {
            assert(x <= u64::MAX as u128);
            assert(y <= u64::MAX as u128);
            assert(p <= u64::MAX as u128);
            assert(q <= u64::MAX as u128);
            assert(x * y <= u128::MAX && p * q <= u128::MAX) by (nonlinear_arith)
                requires
                    x <= u64::MAX as u128,
                    y <= u64::MAX as u128,
                    p <= u64::MAX as u128,
                    q <= u64::MAX as u128,
            ;
        }
        x * y > p * q
    }
}

/// The characters of a string, in order.
pub fn str_chars(s: &str) -> (v: Vec<char>)
    ensures
        v@ == s@,
{
    let n = s.unicode_len();
    let mut v: Vec<char> = Vec::new();
    let mut i: usize = 0;
    while i < n
        invariant
            n == s@.len(),
            i <= n,
            v@ =~= s@.take(i as int),
        decreases n - i,
    {
        let c = s.get_char(i);
        v.push(c);
        proof {
            assert(v@ =~= s@.take(i as int + 1));
        }
        i += 1;
    }
    proof {
        assert(s@.take(n as int) =~= s@);
    }
    v
}

/// Whether two character sequences are equal.
fn chars_eq(a: &Vec<char>, b: &Vec<char>) -> (r: bool)
    ensures
        r == (a@ == b@),
{
    if a.len() != b.len() {
        return false;
    }
    let n = a.len();
    let mut i: usize = 0;
    while i < n
        invariant
            n == a@.len() == b@.len(),
            i <= n,
            forall|j: int| 0 <= j < i ==> a@[j] == b@[j],
        decreases n - i,
    {
        if a[i] != b[i] {
            return false;
        }
        i += 1;
    }
    proof {
        assert(a@ =~= b@);
    }
    true
}

/// Levenshtein distance between two strings, with the short-circuit for
/// very different lengths.
pub fn levenshtein_distance(s1: &str, s2: &str) -> (d: usize)
    ensures
        d == lev_cutoff(s1@, s2@),
{
    let a = str_chars(s1);
    let b = str_chars(s2);
    let m = a.len();
    let n = b.len();
    let mx = if m >= n {
        m
    } else {
        n
    };
    let diff = if m >= n {
        m - n
    } else {
        n - m
    };
    if diff > mx / 2 {
        return mx;
    }

    // distance table over prefixes: cell (i, j) holds the distance
    // between the first i characters of one string and the first j of
    // the other
    let mut dp: Vec<Vec<usize>> = Vec::new();
    let mut row0: Vec<usize> = Vec::new();
    while row0.len() <= n
        invariant
            row0@.len() <= n + 1,
            forall|j: int| 0 <= j < row0@.len() ==> row0@[j] == j,
        decreases n + 1 - row0@.len(),
    {
        let j = row0.len();
        row0.push(j);
    }
    proof {
        assert forall|j: int| 0 <= j <= n implies row0@[j] == lev(
            a@.take(0),
            b@.take(j),
        ) as int by {
            assert(a@.take(0).len() == 0);
            assert(b@.take(j).len() == j);
        }
    }
    dp.push(row0);

    while dp.len() <= m
        invariant
            a@ == s1@,
            b@ == s2@,
            m == a@.len(),
            n == b@.len(),
            1 <= dp@.len() <= m + 1,
            forall|ii: int| 0 <= ii < dp@.len() ==> #[trigger] dp@[ii]@.len() == n + 1,
            forall|ii: int, jj: int|
                0 <= ii < dp@.len() && 0 <= jj <= n ==> #[trigger] dp@[ii]@[jj] == lev(
                    a@.take(ii),
                    b@.take(jj),
                ) as int,
        decreases m + 1 - dp@.len(),
    {
        let i = dp.len();
        let mut row: Vec<usize> = Vec::new();
        row.push(i);
        proof {
            assert(b@.take(0).len() == 0);
            assert(a@.take(i as int).len() == i);
            assert(row@[0] == lev(a@.take(i as int), b@.take(0)) as int);
        }
        while row.len() <= n
            invariant
                a@ == s1@,
                b@ == s2@,
                m == a@.len(),
                n == b@.len(),
                1 <= i <= m,
                i == dp@.len(),
                1 <= row@.len() <= n + 1,
                forall|ii: int| 0 <= ii < dp@.len() ==> #[trigger] dp@[ii]@.len() == n + 1,
                forall|ii: int, jj: int|
                    0 <= ii < dp@.len() && 0 <= jj <= n ==> #[trigger] dp@[ii]@[jj] == lev(
                        a@.take(ii),
                        b@.take(jj),
                    ) as int,
                forall|jj: int|
                    0 <= jj < row@.len() ==> row@[jj] == lev(
                        a@.take(i as int),
                        b@.take(jj),
                    ) as int,
            decreases n + 1 - row@.len(),
        {
            let j = row.len();
            let prev = &dp[i - 1];
            let sub_base = prev[j - 1];
            let del = prev[j];
            let ins = row[j - 1];
            let cost: usize = if a[i - 1] == b[j - 1] {
                0
            } else {
                1
            };
            proof {
                let ai = a@.take(i as int);
                let bj = b@.take(j as int);
                assert(ai.drop_last() =~= a@.take(i as int - 1));
                assert(bj.drop_last() =~= b@.take(j as int - 1));
                assert(ai.last() == a@[i as int - 1]);
                assert(bj.last() == b@[j as int - 1]);
                lemma_lev_le_max(a@.take(i as int - 1), b@.take(j as int - 1));
                lemma_lev_le_max(a@.take(i as int - 1), bj);
                lemma_lev_le_max(ai, b@.take(j as int - 1));
            }
            let mut best = sub_base + cost;
            if del < best {
                best = del + 1;
            }
            if ins < best {
                best = ins + 1;
            }
            proof {
                assert(best == lev(a@.take(i as int), b@.take(j as int)) as int);
            }
            row.push(best);
        }
        dp.push(row);
    }
    proof {
        assert(a@.take(m as int) =~= a@);
        assert(b@.take(n as int) =~= b@);
    }
    dp[m][n]
}

/// Similarity of two strings: one for identical strings, zero when either
/// is empty, else `1 - distance / max(len)` as an exact fraction.
pub fn string_similarity(s1: &str, s2: &str) -> (r: Similarity)
    ensures
        r.num == sim_num(s1@, s2@),
        r.den == sim_den(s1@, s2@),
{
    let a = str_chars(s1);
    let b = str_chars(s2);
    if chars_eq(&a, &b) {
        return Similarity { num: 1, den: 1 };
    }
    if a.len() == 0 || b.len() == 0 {
        return Similarity { num: 0, den: 1 };
    }
    let d = levenshtein_distance(s1, s2);
    let mx = if a.len() >= b.len() {
        a.len()
    } else {
        b.len()
    };
    proof {
        lemma_lev_cutoff_le_max(s1@, s2@);
    }
    Similarity { num: mx - d, den: mx }
}

} // verus!
