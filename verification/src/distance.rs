//! Distance measures between strings: the case distance between two
//! case-invariant-equal strings, and the case-insensitive Levenshtein
//! edit distance.

use vstd::prelude::*;

use crate::text::{chars_of, lower_of, to_lowercase};

verus! {

pub open spec fn min3(a: int, b: int, c: int) -> int {
    vstd::math::min(vstd::math::min(a, b), c)
}

/// The Levenshtein edit distance between two character sequences:
/// the least number of insertions, deletions and substitutions that
/// turn one into the other, by the standard recurrence.
pub open spec fn lev(a: Seq<char>, b: Seq<char>) -> nat
    decreases a.len() + b.len(),
{
    if a.len() == 0 {
        b.len()
    } else if b.len() == 0 {
        a.len()
    } else {
        let cost: int = if a.last() == b.last() {
            0
        } else {
            1
        };
        min3(
            lev(a.drop_last(), b) as int + 1,
            lev(a, b.drop_last()) as int + 1,
            lev(a.drop_last(), b.drop_last()) as int + cost,
        ) as nat
    }
}

/// The edit distance never exceeds the longer length, nor the sum of both.
pub proof fn lemma_lev_le(a: Seq<char>, b: Seq<char>)
    ensures
        lev(a, b) <= vstd::math::max(a.len() as int, b.len() as int),
        lev(a, b) <= a.len() + b.len(),
    decreases a.len() + b.len(),
{
    if a.len() == 0 {
    } else if b.len() == 0 {
    } else {
        lemma_lev_le(a.drop_last(), b);
        lemma_lev_le(a, b.drop_last());
        lemma_lev_le(a.drop_last(), b.drop_last());
    }
}

/// The edit distance is symmetric: swapping the two strings never changes it.
pub proof fn lemma_lev_symmetric(a: Seq<char>, b: Seq<char>)
    ensures
        lev(a, b) == lev(b, a),
    decreases a.len() + b.len(),
{
    if a.len() == 0 || b.len() == 0 {
    } else {
        lemma_lev_symmetric(a.drop_last(), b);
        lemma_lev_symmetric(a, b.drop_last());
        lemma_lev_symmetric(a.drop_last(), b.drop_last());
    }
}

/// One row of the dynamic program: entry `i` of the result holds the edit
/// distance between `a`'s prefix of length `i` and all of `b`.
fn lev_chars(a: &Vec<char>, b: &Vec<char>) -> (r: usize)
    ensures
        r == lev(a@, b@),
{
    let alen = a.len();
    let blen = b.len();
    let mut prev: Vec<u128> = Vec::new();
    prev.push(0);
    let mut i: usize = 0;
    while i < alen
        invariant
            i <= alen,
            prev@.len() == i + 1,
            forall|k: int| 0 <= k <= i ==> prev@[k] == k,
        decreases alen - i,
    {
        i = i + 1;
        prev.push(i as u128);
    }
    proof {
        assert forall|k: int| 0 <= k <= alen implies prev@[k] == lev(
            a@.take(k),
            b@.take(0),
        ) by {
            assert(b@.take(0) =~= Seq::<char>::empty());
            assert(a@.take(k).len() == k);
        }
    }
    let mut j: usize = 0;
    while j < blen
        invariant
            j <= blen,
            alen == a@.len(),
            blen == b@.len(),
            prev@.len() == alen + 1,
            forall|k: int| 0 <= k <= alen ==> prev@[k] == lev(a@.take(k), b@.take(j as int)),
        decreases blen - j,
    {
        j = j + 1;
        let mut cur: Vec<u128> = Vec::new();
        cur.push(j as u128);
        proof {
            assert(a@.take(0) =~= Seq::<char>::empty());
            assert(cur@[0] == lev(a@.take(0), b@.take(j as int)));
        }
        let mut i: usize = 0;
        while i < alen
            invariant
                i <= alen,
                1 <= j <= blen,
                alen == a@.len(),
                blen == b@.len(),
                prev@.len() == alen + 1,
                cur@.len() == i + 1,
                forall|k: int| 0 <= k <= alen ==> prev@[k] == lev(a@.take(k), b@.take(j - 1)),
                forall|k: int| 0 <= k <= i ==> cur@[k] == lev(a@.take(k), b@.take(j as int)),
            decreases alen - i,
        {
            i = i + 1;
            proof {
                lemma_lev_le(a@.take(i - 1), b@.take(j as int));
                lemma_lev_le(a@.take(i as int), b@.take(j - 1));
                lemma_lev_le(a@.take(i - 1), b@.take(j - 1));
            }
            let cost: u128 = if a[i - 1] == b[j - 1] {
                0
            } else {
                1
            };
            let c1 = cur[i - 1] + 1;
            let c2 = prev[i] + 1;
            let c3 = prev[i - 1] + cost;
            let m = if c1 <= c2 && c1 <= c3 {
                c1
            } else if c2 <= c3 {
                c2
            } else {
                c3
            };
            proof {
                let ai = a@.take(i as int);
                let bj = b@.take(j as int);
                assert(ai.drop_last() =~= a@.take(i - 1));
                assert(bj.drop_last() =~= b@.take(j - 1));
                assert(ai.last() == a@[i - 1]);
                assert(bj.last() == b@[j - 1]);
                assert(m == lev(ai, bj));
            }
            cur.push(m);
        }
        prev = cur;
    }
    proof {
        assert(a@.take(alen as int) =~= a@);
        assert(b@.take(blen as int) =~= b@);
        lemma_lev_le(a@, b@);
    }
    prev[alen] as usize
}

/// The case-insensitive Levenshtein distance between the two strings:
/// both are case-folded first, and the standard edit distance of the
/// folded character sequences is returned.
pub fn get_levenshtein_distance(lhs: &str, rhs: &str) -> (r: usize)
    ensures
        r == lev(lower_of(lhs@), lower_of(rhs@)),
{
    let lhs_lower = to_lowercase(lhs);
    let rhs_lower = to_lowercase(rhs);
    let a = chars_of(lhs_lower.as_str());
    let b = chars_of(rhs_lower.as_str());
    lev_chars(&a, &b)
}

/// How many of the first `n` positions of `a` and `b` hold different characters.
pub open spec fn count_case_diffs(a: Seq<char>, b: Seq<char>, n: int) -> nat
    decreases n,
{
    if n <= 0 {
        0
    } else {
        count_case_diffs(a, b, n - 1) + (if a[n - 1] != b[n - 1] {
            1nat
        } else {
            0nat
        })
    }
}

/// The case distance between two strings: the number of positions where they
/// differ, provided they are equal once case-folded; otherwise the sentinel
/// `usize::MAX`, which callers treat as incomparable.
pub open spec fn cap_distance(a: Seq<char>, b: Seq<char>) -> nat {
    if lower_of(a) != lower_of(b) {
        usize::MAX as nat
    } else {
        count_case_diffs(a, b, vstd::math::min(a.len() as int, b.len() as int))
    }
}

/// Scores how far two case-invariant-equal strings differ in letter case
/// alone; strings that differ in more than case are incomparable.
pub fn get_cap_distance(lhs: &str, rhs: &str) -> (r: usize)
    ensures
        r == cap_distance(lhs@, rhs@),
{
    let lhs_lower = to_lowercase(lhs);
    let rhs_lower = to_lowercase(rhs);
    if !(lhs_lower == rhs_lower) {
        return usize::MAX;
    }
    let a = chars_of(lhs);
    let b = chars_of(rhs);
    let n = if a.len() <= b.len() {
        a.len()
    } else {
        b.len()
    };
    let mut d: usize = 0;
    let mut i: usize = 0;
    while i < n
        invariant
            i <= n,
            n == vstd::math::min(a@.len() as int, b@.len() as int),
            d <= i,
            d == count_case_diffs(a@, b@, i as int),
        decreases n - i,
    {
        if a[i] != b[i] {
            d = d + 1;
        }
        i = i + 1;
    }
    d
}

} // verus!
