//! Candidate records produced by the tier scan, and the deterministic
//! ordering of the final result: ascending by tier, then by within-tier
//! distance, then by original key position.

use vstd::prelude::*;
use vstd::seq_lib::lemma_multiset_commutative;

verus! {

broadcast use vstd::seq_lib::group_to_multiset_ensures;

/// A key accepted by some tier of the cascade: the tier, the within-tier
/// distance, and the key's position and text.
pub(crate) struct Candidate {
    pub tier: usize,
    pub dist: usize,
    pub index: usize,
    pub value: String,
}

/// The ranking order: by tier, then by distance, then by key position.
pub(crate) open spec fn cand_le(a: Candidate, b: Candidate) -> bool {
    ||| a.tier < b.tier
    ||| (a.tier == b.tier && a.dist < b.dist)
    ||| (a.tier == b.tier && a.dist == b.dist && a.index <= b.index)
}

/// Sorted ascending under the ranking order.
pub(crate) open spec fn sorted_cands(s: Seq<Candidate>) -> bool {
    forall|k1: int, k2: int| 0 <= k1 < k2 < s.len() ==> cand_le(#[trigger] s[k1], #[trigger] s[k2])
}

/// No two candidates refer to the same key position.
pub(crate) open spec fn distinct_indices(s: Seq<Candidate>) -> bool {
    forall|k1: int, k2: int|
        0 <= k1 < k2 < s.len() ==> (#[trigger] s[k1]).index != (#[trigger] s[k2]).index
}

fn cand_le_exec(a: &Candidate, b: &Candidate) -> (r: bool)
    ensures
        r == cand_le(*a, *b),
{
    a.tier < b.tier || (a.tier == b.tier && (a.dist < b.dist || (a.dist == b.dist && a.index
        <= b.index)))
}

/// Inserting an element anywhere in a sequence adds it to the multiset.
proof fn lemma_insert_multiset(s: Seq<Candidate>, pos: int, c: Candidate)
    requires
        0 <= pos <= s.len(),
    ensures
        s.insert(pos, c).to_multiset() =~= s.to_multiset().insert(c),
{
    let left = s.take(pos);
    let right = s.skip(pos);
    assert(s.insert(pos, c) =~= left.push(c) + right);
    assert(s =~= left + right);
    lemma_multiset_commutative(left.push(c), right);
    lemma_multiset_commutative(left, right);
}

/// The multiset of a suffix grows by the dropped element.
proof fn lemma_skip_multiset(s: Seq<Candidate>, i: int)
    requires
        0 <= i < s.len(),
    ensures
        s.skip(i).to_multiset() =~= s.skip(i + 1).to_multiset().insert(s[i]),
{
    assert(s.skip(i) =~= seq![s[i]] + s.skip(i + 1));
    assert(seq![s[i]] =~= Seq::<Candidate>::empty().push(s[i]));
    lemma_multiset_commutative(seq![s[i]], s.skip(i + 1));
}

/// Places `c` at its rank in an already sorted vector.
fn insert_sorted(out: &mut Vec<Candidate>, c: Candidate)
    requires
        sorted_cands(old(out)@),
    ensures
        sorted_cands(final(out)@),
        exists|pos: int|
            0 <= pos <= old(out)@.len() && final(out)@ == old(out)@.insert(pos, c),
        final(out)@.to_multiset() == old(out)@.to_multiset().insert(c),
{
    let mut pos: usize = 0;
    while pos < out.len() && cand_le_exec(&out[pos], &c)
        invariant
            pos <= out@.len(),
            out@ == old(out)@,
            sorted_cands(out@),
            forall|j: int| 0 <= j < pos ==> cand_le(#[trigger] out@[j], c),
        decreases out@.len() - pos,
    {
        pos = pos + 1;
    }
    let ghost s0 = out@;
    let ghost p = pos as int;
    out.insert(pos, c);
    proof {
        assert forall|k1: int, k2: int| 0 <= k1 < k2 < out@.len() implies cand_le(
            out@[k1],
            out@[k2],
        ) by {
            if k1 < p && k2 < p {
                assert(out@[k1] == s0[k1]);
                assert(out@[k2] == s0[k2]);
            } else if k1 < p && k2 == p {
                assert(out@[k1] == s0[k1]);
                assert(cand_le(s0[k1], c));
            } else if k1 < p && k2 > p {
                assert(out@[k1] == s0[k1]);
                assert(out@[k2] == s0[k2 - 1]);
            } else if k1 == p {
                assert(out@[k2] == s0[k2 - 1]);
                assert(!cand_le(s0[p], c));
            } else {
                assert(out@[k1] == s0[k1 - 1]);
                assert(out@[k2] == s0[k2 - 1]);
            }
        }
        lemma_insert_multiset(s0, p, c);
        assert(out@.to_multiset() =~= s0.to_multiset().insert(c));
    }
}

/// Sorts the candidates under the ranking order. The input holds no two
/// candidates for the same key, and neither does the output.
pub(crate) fn sort_candidates(input: Vec<Candidate>) -> (out: Vec<Candidate>)
    requires
        distinct_indices(input@),
    ensures
        sorted_cands(out@),
        distinct_indices(out@),
        out@.to_multiset() == input@.to_multiset(),
        out@.len() == input@.len(),
        forall|x: Candidate| out@.contains(x) <==> input@.contains(x),
{
    let ghost orig = input@;
    let mut input = input;
    let mut out: Vec<Candidate> = Vec::new();
    proof {
        assert(input@ =~= orig.take(input@.len() as int));
        assert(out@.to_multiset() =~= orig.skip(orig.len() as int).to_multiset());
    }
    while input.len() > 0
        invariant
            input@ == orig.take(input@.len() as int),
            input@.len() <= orig.len(),
            out@.to_multiset() == orig.skip(input@.len() as int).to_multiset(),
            sorted_cands(out@),
            distinct_indices(orig),
            distinct_indices(out@),
            forall|k: int|
                0 <= k < out@.len() ==> exists|j: int|
                    input@.len() <= j < orig.len() && #[trigger] out@[k] == orig[j],
        decreases input@.len(),
    {
        let ghost len0 = input@.len() as int;
        let c = match input.pop() {
            Some(c) => c,
            None => {
                proof {
                    assert(false);
                }
                return out;
            },
        };
        proof {
            assert(c == orig[len0 - 1]);
            assert(input@ =~= orig.take(len0 - 1));
            // the new candidate's key position is fresh in `out`
            assert forall|k: int| 0 <= k < out@.len() implies (#[trigger] out@[k]).index
                != c.index by {
                let j = choose|j: int| len0 <= j < orig.len() && out@[k] == orig[j];
                assert(orig[len0 - 1].index != orig[j].index);
            }
        }
        let ghost out0 = out@;
        insert_sorted(&mut out, c);
        proof {
            let pos = choose|pos: int| 0 <= pos <= out0.len() && out@ == out0.insert(pos, c);
            lemma_skip_multiset(orig, len0 - 1);
            assert(out@.to_multiset() =~= orig.skip(len0 - 1).to_multiset());
            assert forall|k1: int, k2: int| 0 <= k1 < k2 < out@.len() implies (#[trigger] out@[k1]).index
                != (#[trigger] out@[k2]).index by {
                if k1 < pos && k2 < pos {
                    assert(out@[k1] == out0[k1]);
                    assert(out@[k2] == out0[k2]);
                } else if k1 < pos && k2 == pos {
                    assert(out@[k1] == out0[k1]);
                } else if k1 < pos && k2 > pos {
                    assert(out@[k1] == out0[k1]);
                    assert(out@[k2] == out0[k2 - 1]);
                } else if k1 == pos {
                    assert(out@[k2] == out0[k2 - 1]);
                } else {
                    assert(out@[k1] == out0[k1 - 1]);
                    assert(out@[k2] == out0[k2 - 1]);
                }
            }
            assert forall|k: int| 0 <= k < out@.len() implies exists|j: int|
                input@.len() <= j < orig.len() && #[trigger] out@[k] == orig[j] by {
                if k < pos {
                    assert(out@[k] == out0[k]);
                    let j = choose|j: int| len0 <= j < orig.len() && out0[k] == orig[j];
                    assert(out@[k] == orig[j]);
                } else if k == pos {
                    assert(out@[k] == orig[len0 - 1]);
                } else {
                    assert(out@[k] == out0[k - 1]);
                    let j = choose|j: int| len0 <= j < orig.len() && out0[k - 1] == orig[j];
                    assert(out@[k] == orig[j]);
                }
            }
        }
    }
    proof {
        assert(orig.skip(0) =~= orig);
        assert(out@.to_multiset() =~= orig.to_multiset());
        assert(out@.len() == out@.to_multiset().len());
        assert(orig.len() == orig.to_multiset().len());
        assert forall|x: Candidate| out@.contains(x) <==> orig.contains(x) by {
            assert(out@.contains(x) <==> out@.to_multiset().count(x) > 0);
            assert(orig.contains(x) <==> orig.to_multiset().count(x) > 0);
        }
    }
    out
}

} // verus!
