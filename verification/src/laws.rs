//! General properties of the matching cascade, proved once and for all:
//! the result is a function of its inputs, holds no duplicates, classifies
//! every key at its first accepting tier, and loses matches monotonically
//! as the threshold rises.

use vstd::prelude::*;

use crate::matcher::{
    first_tier, match_spec, matched, rank_before, ranked_output, tier_accepts, tier_distance,
    within_budget, Threshold,
};

verus! {

/// `t1` is at most `t2` as a ratio: `t1.num / t1.den <= t2.num / t2.den`.
pub open spec fn threshold_le(t1: Threshold, t2: Threshold) -> bool
    recommends
        t1.wf(),
        t2.wf(),
{
    t1.num * t2.den <= t2.num * t1.den
}

/// Whatever stays within the length budget of a stricter threshold also
/// stays within the budget of a looser one.
pub proof fn lemma_budget_monotonic(t1: Threshold, t2: Threshold, len: nat, dist: nat)
    requires
        t1.wf(),
        t2.wf(),
        threshold_le(t1, t2),
        within_budget(t2, len, dist),
    ensures
        within_budget(t1, len, dist),
{
    let n1 = t1.num as int;
    let d1 = t1.den as int;
    let n2 = t2.num as int;
    let d2 = t2.den as int;
    let l = len as int;
    let ds = dist as int;
    assert(ds * d1 <= l * d1 - l * n1) by (nonlinear_arith)
        requires
            d1 > 0,
            d2 > 0,
            l >= 0,
            ds >= 0,
            n1 * d2 <= n2 * d1,
            ds * d2 <= l * d2 - l * n2,
    ;
}

/// A key that a tier accepts is classified at that tier or an earlier one:
/// later tiers never re-classify it.
pub proof fn lemma_tier_monotonic(key: Seq<char>, term: Seq<char>, t: Threshold, tier: int)
    requires
        1 <= tier <= 4,
        tier_accepts(key, term, t, tier),
    ensures
        1 <= first_tier(key, term, t) <= tier,
        tier_accepts(key, term, t, first_tier(key, term, t)),
{
}

/// Raising the threshold never adds matches: a key matched under the
/// stricter threshold is matched under the looser one, at a tier no later.
pub proof fn lemma_threshold_monotonic(key: Seq<char>, term: Seq<char>, t1: Threshold, t2: Threshold)
    requires
        t1.wf(),
        t2.wf(),
        threshold_le(t1, t2),
        matched(key, term, t2),
    ensures
        matched(key, term, t1),
        first_tier(key, term, t1) <= first_tier(key, term, t2),
{
    let ft2 = first_tier(key, term, t2);
    if ft2 == 3 {
        lemma_budget_monotonic(t1, t2, key.len(), crate::matcher::len_gap(key, term));
        lemma_tier_monotonic(key, term, t1, 3);
    } else if ft2 == 4 {
        lemma_budget_monotonic(
            t1,
            t2,
            key.len(),
            crate::distance::lev(crate::text::lower_of(key), crate::text::lower_of(term)),
        );
        lemma_tier_monotonic(key, term, t1, 4);
    } else {
        lemma_tier_monotonic(key, term, t1, ft2);
    }
}

/// No (position, text) pair appears more than once in any result: distinct
/// entries of a result differ, and even their positions differ.
pub proof fn lemma_no_duplicates(
    keys: Seq<Seq<char>>,
    term: Seq<char>,
    t: Threshold,
    out: Seq<(int, Seq<char>)>,
)
    requires
        match_spec(keys, term, t, out),
    ensures
        forall|k1: int, k2: int|
            0 <= k1 < k2 < out.len() ==> (#[trigger] out[k1]).0 != (#[trigger] out[k2]).0,
        forall|k1: int, k2: int| 0 <= k1 < k2 < out.len() ==> out[k1] != out[k2],
{
    assert forall|k1: int, k2: int| 0 <= k1 < k2 < out.len() implies (#[trigger] out[k1]).0 != (
    #[trigger] out[k2]).0 by {
        if out.len() > 1 {
            assert(ranked_output(keys, term, t, out));
            assert(rank_before(keys, term, t, out[k1].0, out[k2].0));
        }
    }
}

/// Positions listed before position `k` agree between any two ranked
/// results.
proof fn lemma_ranked_agree(
    keys: Seq<Seq<char>>,
    term: Seq<char>,
    t: Threshold,
    out1: Seq<(int, Seq<char>)>,
    out2: Seq<(int, Seq<char>)>,
    k: int,
)
    requires
        ranked_output(keys, term, t, out1),
        ranked_output(keys, term, t, out2),
        0 <= k <= out1.len(),
        k <= out2.len(),
    ensures
        forall|j: int| 0 <= j < k ==> (#[trigger] out1[j]).0 == (#[trigger] out2[j]).0,
    decreases k,
{
    if k > 0 {
        lemma_ranked_agree(keys, term, t, out1, out2, k - 1);
        let i1 = out1[k - 1].0;
        let i2 = out2[k - 1].0;
        if i1 != i2 {
            assert(matched(keys[i1], term, t));
            let k2 = choose|k2: int| 0 <= k2 < out2.len() && (#[trigger] out2[k2]).0 == i1;
            assert forall|j: int| 0 <= j < k - 1 implies (#[trigger] out2[j]).0 != i1 by {
                assert(out1[j].0 == out2[j].0);
                assert(rank_before(keys, term, t, out1[j].0, out1[k - 1].0));
            }
            assert(k2 >= k - 1);
            assert(k2 > k - 1);
            assert(rank_before(keys, term, t, i2, i1));
            assert(matched(keys[i2], term, t));
            let k1 = choose|k1: int| 0 <= k1 < out1.len() && (#[trigger] out1[k1]).0 == i2;
            assert forall|j: int| 0 <= j < k - 1 implies (#[trigger] out1[j]).0 != i2 by {
                assert(out1[j].0 == out2[j].0);
                assert(rank_before(keys, term, t, out2[j].0, out2[k - 1].0));
            }
            assert(k1 > k - 1);
            assert(rank_before(keys, term, t, i1, i2));
            assert(false);
        }
    }
}

/// The result is a function of the keys, the term and the threshold: any two
/// results that satisfy the matching specification for the same inputs are
/// equal. Matching twice with identical inputs therefore yields identical
/// output.
pub proof fn lemma_match_deterministic(
    keys: Seq<Seq<char>>,
    term: Seq<char>,
    t: Threshold,
    out1: Seq<(int, Seq<char>)>,
    out2: Seq<(int, Seq<char>)>,
)
    requires
        match_spec(keys, term, t, out1),
        match_spec(keys, term, t, out2),
    ensures
        out1 == out2,
{
    if crate::matcher::has_exact(keys, term) {
        assert(out1 =~~= out2);
    } else {
        let n1 = out1.len() as int;
        let n2 = out2.len() as int;
        let m = vstd::math::min(n1, n2);
        lemma_ranked_agree(keys, term, t, out1, out2, m);
        if n1 < n2 {
            let i = out2[n1].0;
            assert(matched(keys[i], term, t));
            let k1 = choose|k1: int| 0 <= k1 < out1.len() && (#[trigger] out1[k1]).0 == i;
            assert(out2[k1].0 == i);
            assert(rank_before(keys, term, t, out2[k1].0, out2[n1].0));
            assert(false);
        }
        if n2 < n1 {
            let i = out1[n2].0;
            assert(matched(keys[i], term, t));
            let k2 = choose|k2: int| 0 <= k2 < out2.len() && (#[trigger] out2[k2]).0 == i;
            assert(out1[k2].0 == i);
            assert(rank_before(keys, term, t, out1[k2].0, out1[n2].0));
            assert(false);
        }
        assert forall|j: int| 0 <= j < out1.len() implies out1[j] == out2[j] by {
            assert(out1[j].0 == out2[j].0);
            assert(out1[j].1 == keys[out1[j].0]);
            assert(out2[j].1 == keys[out2[j].0]);
        }
        assert(out1 =~= out2);
    }
}

} // verus!
