//! The tiered matching cascade: exact match, case-insensitive exact match,
//! initials match, substring containment and edit distance, with
//! deduplication across tiers and a deterministic final ranking.

use vstd::prelude::*;

use crate::distance::{cap_distance, get_cap_distance, get_levenshtein_distance, lev};
use crate::initials::{initial_chars, to_initials};
use crate::ranking::{cand_le, distinct_indices, sort_candidates, Candidate};
use crate::text::{chars_eq, chars_of, contains_chars, contains_sub, lower_of, to_lowercase, upper_of};

verus! {

/// The minimum fraction of a key's length that must survive unmatched edits
/// or length difference for a non-exact tier to accept the key, as the exact
/// rational `num / den`. Larger thresholds are stricter; values outside
/// [0, 1] are allowed and merely change strictness.
#[derive(Clone, Copy, Debug)]
pub struct Threshold {
    pub num: i32,
    pub den: i32,
}

impl Threshold {
    /// A threshold is valid when its denominator is positive.
    pub open spec fn wf(self) -> bool {
        self.den > 0
    }
}

/// The length budget check of tiers 3 and 4: the distance must not exceed
/// `len - len * threshold`.
pub open spec fn within_budget(t: Threshold, len: nat, dist: nat) -> bool {
    dist * t.den <= len * t.den - len * t.num
}

/// The absolute difference of the two lengths, in characters.
pub open spec fn len_gap(key: Seq<char>, term: Seq<char>) -> nat {
    if key.len() >= term.len() {
        (key.len() - term.len()) as nat
    } else {
        (term.len() - key.len()) as nat
    }
}

/// The initials abbreviation of a key.
pub open spec fn key_initials(key: Seq<char>) -> Seq<char> {
    upper_of(initial_chars(key))
}

/// Whether the given non-exact tier of the cascade accepts the key.
pub open spec fn tier_accepts(key: Seq<char>, term: Seq<char>, t: Threshold, tier: int) -> bool {
    if tier == 1 {
        lower_of(key) == lower_of(term)
    } else if tier == 2 {
        lower_of(key_initials(key)) == lower_of(term)
    } else if tier == 3 {
        contains_sub(lower_of(key), lower_of(term)) && within_budget(
            t,
            key.len(),
            len_gap(key, term),
        )
    } else if tier == 4 {
        within_budget(t, key.len(), lev(lower_of(key), lower_of(term)))
    } else {
        false
    }
}

/// The within-tier distance that the given tier assigns to the key.
pub open spec fn tier_distance(key: Seq<char>, term: Seq<char>, tier: int) -> nat {
    if tier == 3 {
        len_gap(key, term)
    } else if tier == 4 {
        lev(lower_of(key), lower_of(term))
    } else {
        cap_distance(key, term)
    }
}

/// The first tier of the cascade that accepts the key, or 5 when none does.
pub open spec fn first_tier(key: Seq<char>, term: Seq<char>, t: Threshold) -> int {
    if tier_accepts(key, term, t, 1) {
        1
    } else if tier_accepts(key, term, t, 2) {
        2
    } else if tier_accepts(key, term, t, 3) {
        3
    } else if tier_accepts(key, term, t, 4) {
        4
    } else {
        5
    }
}

/// Whether some tier of the cascade accepts the key.
pub open spec fn matched(key: Seq<char>, term: Seq<char>, t: Threshold) -> bool {
    first_tier(key, term, t) <= 4
}

/// The position of the first key that equals the term exactly, scanning from
/// position `i`; the list's length when there is none.
pub open spec fn first_exact_from(keys: Seq<Seq<char>>, term: Seq<char>, i: int) -> int
    decreases keys.len() - i,
{
    if i < 0 || i >= keys.len() {
        keys.len() as int
    } else if keys[i] == term {
        i
    } else {
        first_exact_from(keys, term, i + 1)
    }
}

/// The position of the first key that equals the term exactly, or the list's
/// length when there is none.
pub open spec fn first_exact(keys: Seq<Seq<char>>, term: Seq<char>) -> int {
    first_exact_from(keys, term, 0)
}

/// Whether some key equals the term exactly.
pub open spec fn has_exact(keys: Seq<Seq<char>>, term: Seq<char>) -> bool {
    first_exact(keys, term) < keys.len()
}

proof fn lemma_first_exact_prefix(keys: Seq<Seq<char>>, term: Seq<char>, i: int)
    requires
        0 <= i <= keys.len(),
        forall|j: int| 0 <= j < i ==> keys[j] != term,
    ensures
        first_exact(keys, term) == first_exact_from(keys, term, i),
    decreases i,
{
    if i > 0 {
        lemma_first_exact_prefix(keys, term, i - 1);
    }
}

/// One result entry: the key's position in the input list and its text.
#[derive(Debug, Clone, PartialEq, Eq)]
pub struct MatchIndex(pub usize, pub String);

impl View for MatchIndex {
    type V = (int, Seq<char>);

    open spec fn view(&self) -> (int, Seq<char>) {
        (self.0 as int, self.1@)
    }
}

/// Result entry `i` ranks strictly before result entry `j`: its first
/// accepting tier is lower, or equal with a smaller within-tier distance, or
/// both equal and `i` comes first in the input.
pub open spec fn rank_before(
    keys: Seq<Seq<char>>,
    term: Seq<char>,
    t: Threshold,
    i: int,
    j: int,
) -> bool {
    let ti = first_tier(keys[i], term, t);
    let tj = first_tier(keys[j], term, t);
    let di = tier_distance(keys[i], term, ti);
    let dj = tier_distance(keys[j], term, tj);
    ||| ti < tj
    ||| (ti == tj && di < dj)
    ||| (ti == tj && di == dj && i < j)
}

/// The specification of the result when no key equals the term exactly:
/// every entry is a matched key with its text, every matched key appears,
/// and entries are strictly ordered by rank — which also means no key
/// appears twice.
pub open spec fn ranked_output(
    keys: Seq<Seq<char>>,
    term: Seq<char>,
    t: Threshold,
    out: Seq<(int, Seq<char>)>,
) -> bool {
    &&& forall|k: int|
        0 <= k < out.len() ==> {
            &&& 0 <= (#[trigger] out[k]).0 < keys.len()
            &&& out[k].1 == keys[out[k].0]
            &&& matched(keys[out[k].0], term, t)
        }
    &&& forall|i: int|
        0 <= i < keys.len() && matched(#[trigger] keys[i], term, t) ==> exists|k: int|
            0 <= k < out.len() && (#[trigger] out[k]).0 == i
    &&& forall|k1: int, k2: int|
        0 <= k1 < k2 < out.len() ==> rank_before(keys, term, t, out[k1].0, out[k2].0)
}

/// The full specification of a matching result, as (position, text) pairs:
/// when some key equals the term exactly, the single entry for the first such
/// key; otherwise every matched key, ranked.
pub open spec fn match_spec(
    keys: Seq<Seq<char>>,
    term: Seq<char>,
    t: Threshold,
    out: Seq<(int, Seq<char>)>,
) -> bool {
    if has_exact(keys, term) {
        out.len() == 1 && out[0].0 == first_exact(keys, term) && out[0].1 == keys[first_exact(
            keys,
            term,
        )]
    } else {
        ranked_output(keys, term, t, out)
    }
}

/// A candidate stands for the key at its position, carries that key's first
/// accepting tier, and the distance that tier assigns.
pub(crate) open spec fn cand_ok(
    keys: Seq<Seq<char>>,
    term: Seq<char>,
    t: Threshold,
    c: Candidate,
) -> bool {
    &&& c.index < keys.len()
    &&& c.value@ == keys[c.index as int]
    &&& 1 <= c.tier <= 4
    &&& c.tier == first_tier(keys[c.index as int], term, t)
    &&& c.dist == tier_distance(keys[c.index as int], term, c.tier as int)
}

/// The state of the candidate list while tier `tier` has scanned the keys
/// before position `upto` and all earlier tiers have scanned every key:
/// exactly the keys first accepted by an earlier tier, or by this tier at an
/// earlier position, are present, each once and correctly described.
pub(crate) open spec fn collected(
    keys: Seq<Seq<char>>,
    term: Seq<char>,
    t: Threshold,
    cands: Seq<Candidate>,
    tier: int,
    upto: int,
) -> bool {
    &&& forall|k: int| 0 <= k < cands.len() ==> cand_ok(keys, term, t, #[trigger] cands[k])
    &&& forall|k: int|
        0 <= k < cands.len() ==> ((#[trigger] cands[k]).tier < tier || (cands[k].tier == tier
            && cands[k].index < upto))
    &&& forall|i: int|
        0 <= i < keys.len() && (first_tier(#[trigger] keys[i], term, t) < tier || (first_tier(
            keys[i],
            term,
            t,
        ) == tier && i < upto)) ==> exists|k: int|
            0 <= k < cands.len() && (#[trigger] cands[k]).index == i
    &&& distinct_indices(cands)
}

/// Adding a fresh candidate for the key at `i`, accepted by the scanning
/// tier, keeps the candidate list well formed and extends its coverage.
proof fn lemma_collected_insert(
    keys: Seq<Seq<char>>,
    term: Seq<char>,
    t: Threshold,
    cands: Seq<Candidate>,
    c: Candidate,
    tier: int,
    i: int,
)
    requires
        collected(keys, term, t, cands, tier, i),
        0 <= i < keys.len(),
        1 <= tier <= 4,
        tier_accepts(keys[i], term, t, tier),
        !(exists|k: int| 0 <= k < cands.len() && (#[trigger] cands[k]).index == i),
        c.index == i,
        c.tier == tier,
        c.value@ == keys[i],
        c.dist == tier_distance(keys[i], term, tier),
    ensures
        collected(keys, term, t, cands.push(c), tier, i + 1),
        first_tier(keys[i], term, t) == tier,
{
    let ft = first_tier(keys[i], term, t);
    assert(ft <= tier);
    if ft < tier {
        assert(exists|k: int| 0 <= k < cands.len() && (#[trigger] cands[k]).index == i);
        assert(false);
    }
    let with = cands.push(c);
    assert forall|k: int| 0 <= k < with.len() implies cand_ok(keys, term, t, #[trigger] with[k])
        && (with[k].tier < tier || (with[k].tier == tier && with[k].index < i + 1)) by {
        if k < cands.len() {
            assert(with[k] == cands[k]);
        } else {
            assert(with[k] == c);
        }
    }
    assert forall|j: int|
        0 <= j < keys.len() && (first_tier(#[trigger] keys[j], term, t) < tier || (first_tier(
            keys[j],
            term,
            t,
        ) == tier && j < i + 1)) implies exists|k: int|
        0 <= k < with.len() && (#[trigger] with[k]).index == j by {
        if j == i {
            assert(with[cands.len() as int].index == i);
        } else {
            let k = choose|k: int| 0 <= k < cands.len() && (#[trigger] cands[k]).index == j;
            assert(with[k].index == j);
        }
    }
    assert forall|k1: int, k2: int| 0 <= k1 < k2 < with.len() implies (#[trigger] with[k1]).index
        != (#[trigger] with[k2]).index by {
        if k2 < cands.len() {
            assert(with[k1] == cands[k1] && with[k2] == cands[k2]);
        } else {
            assert(with[k2] == c);
            assert(with[k1] == cands[k1]);
            if cands[k1].index == i {
                assert(exists|k: int| 0 <= k < cands.len() && (#[trigger] cands[k]).index == i);
            }
        }
    }
}

/// Passing a key that the scanning tier does not newly accept keeps the
/// candidate list's coverage in step with the scan position.
proof fn lemma_collected_pass(
    keys: Seq<Seq<char>>,
    term: Seq<char>,
    t: Threshold,
    cands: Seq<Candidate>,
    tier: int,
    i: int,
)
    requires
        collected(keys, term, t, cands, tier, i),
        0 <= i < keys.len(),
        1 <= tier <= 4,
        !tier_accepts(keys[i], term, t, tier) || exists|k: int|
            0 <= k < cands.len() && (#[trigger] cands[k]).index == i,
    ensures
        collected(keys, term, t, cands, tier, i + 1),
{
    assert forall|j: int|
        0 <= j < keys.len() && (first_tier(#[trigger] keys[j], term, t) < tier || (first_tier(
            keys[j],
            term,
            t,
        ) == tier && j < i + 1)) implies exists|k: int|
        0 <= k < cands.len() && (#[trigger] cands[k]).index == j by {
        if j == i && first_tier(keys[i], term, t) == tier {
            assert(tier_accepts(keys[i], term, t, tier));
        }
    }
}

/// A full scan of one tier hands the next tier a candidate list that covers
/// everything up to and including this tier.
proof fn lemma_collected_next_tier(
    keys: Seq<Seq<char>>,
    term: Seq<char>,
    t: Threshold,
    cands: Seq<Candidate>,
    tier: int,
)
    requires
        collected(keys, term, t, cands, tier, keys.len() as int),
        1 <= tier <= 4,
    ensures
        collected(keys, term, t, cands, tier + 1, 0),
{
    assert forall|k: int| 0 <= k < cands.len() implies ((#[trigger] cands[k]).tier < tier + 1 || (
    cands[k].tier == tier + 1 && cands[k].index < 0)) by {
        assert(cand_ok(keys, term, t, cands[k]));
    }
}

/// Whether some candidate already stands for the key at position `idx`.
fn contains_index(cands: &Vec<Candidate>, idx: usize) -> (r: bool)
    ensures
        r == exists|k: int| 0 <= k < cands@.len() && (#[trigger] cands@[k]).index == idx,
{
    let mut k: usize = 0;
    while k < cands.len()
        invariant
            k <= cands@.len(),
            forall|j: int| 0 <= j < k ==> (#[trigger] cands@[j]).index != idx,
        decreases cands@.len() - k,
    {
        if cands[k].index == idx {
            return true;
        }
        k = k + 1;
    }
    false
}

/// The length budget check of tiers 3 and 4, evaluated exactly.
fn budget_check(t: &Threshold, len: usize, dist: usize) -> (r: bool)
    requires
        t.wf(),
    ensures
        r == within_budget(*t, len as nat, dist as nat),
{
    proof {
        let dd = dist as int;
        let ll = len as int;
        let nn = t.num as int;
        let de = t.den as int;
        assert(dd * de <= 0xffffffffffffffff * 0x7fffffff && ll * de <= 0xffffffffffffffff
            * 0x7fffffff && ll * nn <= 0xffffffffffffffff * 0x7fffffff && ll * nn >= -(
        0xffffffffffffffff * 0x80000000)) by (nonlinear_arith)
            requires
                0 <= dd <= 0xffffffffffffffff,
                0 <= ll <= 0xffffffffffffffff,
                -0x80000000 <= nn <= 0x7fffffff,
                0 < de <= 0x7fffffff,
        ;
    }
    let lhs: i128 = (dist as i128) * (t.den as i128);
    let a: i128 = (len as i128) * (t.den as i128);
    let b: i128 = (len as i128) * (t.num as i128);
    lhs <= a - b
}

/// Tier 1: keys whose case-folded text equals the case-folded term, scored
/// by case distance.
fn scan_tier1(cands: &mut Vec<Candidate>, search_keys: &Vec<String>, term: &str, t: &Threshold)
    requires
        t.wf(),
        collected(search_keys.deep_view(), term@, *t, old(cands)@, 1, 0),
    ensures
        collected(search_keys.deep_view(), term@, *t, final(cands)@, 2, 0),
{
    let ghost keys = search_keys.deep_view();
    let n = search_keys.len();
    let term_l = to_lowercase(term);
    let mut i: usize = 0;
    while i < n
        invariant
            t.wf(),
            n == search_keys@.len(),
            keys == search_keys.deep_view(),
            keys.len() == n,
            term_l@ == lower_of(term@),
            i <= n,
            collected(keys, term@, *t, cands@, 1, i as int),
        decreases n - i,
    {
        proof {
            assert(keys[i as int] == search_keys@[i as int]@);
        }
        let key_l = to_lowercase(search_keys[i].as_str());
        if key_l == term_l {
            if !contains_index(cands, i) {
                let d = get_cap_distance(search_keys[i].as_str(), term);
                let c = Candidate { tier: 1, dist: d, index: i, value: search_keys[i].clone() };
                proof {
                    lemma_collected_insert(keys, term@, *t, cands@, c, 1, i as int);
                }
                cands.push(c);
            } else {
                proof {
                    lemma_collected_pass(keys, term@, *t, cands@, 1, i as int);
                }
            }
        } else {
            proof {
                lemma_collected_pass(keys, term@, *t, cands@, 1, i as int);
            }
        }
        i = i + 1;
    }
    proof {
        lemma_collected_next_tier(keys, term@, *t, cands@, 1);
    }
}

/// Tier 2: keys whose initials, case-folded, equal the case-folded term,
/// scored by the case distance of the full key against the term.
fn scan_tier2(cands: &mut Vec<Candidate>, search_keys: &Vec<String>, term: &str, t: &Threshold)
    requires
        t.wf(),
        collected(search_keys.deep_view(), term@, *t, old(cands)@, 2, 0),
    ensures
        collected(search_keys.deep_view(), term@, *t, final(cands)@, 3, 0),
{
    let ghost keys = search_keys.deep_view();
    let n = search_keys.len();
    let term_l = to_lowercase(term);
    let mut i: usize = 0;
    while i < n
        invariant
            t.wf(),
            n == search_keys@.len(),
            keys == search_keys.deep_view(),
            keys.len() == n,
            term_l@ == lower_of(term@),
            i <= n,
            collected(keys, term@, *t, cands@, 2, i as int),
        decreases n - i,
    {
        proof {
            assert(keys[i as int] == search_keys@[i as int]@);
        }
        let ini = to_initials(search_keys[i].as_str());
        let ini_l = to_lowercase(ini.as_str());
        if ini_l == term_l {
            if !contains_index(cands, i) {
                let d = get_cap_distance(search_keys[i].as_str(), term);
                let c = Candidate { tier: 2, dist: d, index: i, value: search_keys[i].clone() };
                proof {
                    lemma_collected_insert(keys, term@, *t, cands@, c, 2, i as int);
                }
                cands.push(c);
            } else {
                proof {
                    lemma_collected_pass(keys, term@, *t, cands@, 2, i as int);
                }
            }
        } else {
            proof {
                lemma_collected_pass(keys, term@, *t, cands@, 2, i as int);
            }
        }
        i = i + 1;
    }
    proof {
        lemma_collected_next_tier(keys, term@, *t, cands@, 2);
    }
}

/// Tier 3: keys whose case-folded text contains the case-folded term, scored
/// by the length gap, accepted when the gap stays within the length budget.
fn scan_tier3(cands: &mut Vec<Candidate>, search_keys: &Vec<String>, term: &str, t: &Threshold)
    requires
        t.wf(),
        collected(search_keys.deep_view(), term@, *t, old(cands)@, 3, 0),
    ensures
        collected(search_keys.deep_view(), term@, *t, final(cands)@, 4, 0),
{
    let ghost keys = search_keys.deep_view();
    let n = search_keys.len();
    let term_l = to_lowercase(term);
    let needle = chars_of(term_l.as_str());
    let term_chars = chars_of(term);
    let tlen = term_chars.len();
    let mut i: usize = 0;
    while i < n
        invariant
            t.wf(),
            n == search_keys@.len(),
            keys == search_keys.deep_view(),
            keys.len() == n,
            needle@ == lower_of(term@),
            tlen == term@.len(),
            i <= n,
            collected(keys, term@, *t, cands@, 3, i as int),
        decreases n - i,
    {
        proof {
            assert(keys[i as int] == search_keys@[i as int]@);
        }
        let key_l = to_lowercase(search_keys[i].as_str());
        let hay = chars_of(key_l.as_str());
        let kc = chars_of(search_keys[i].as_str());
        let klen = kc.len();
        let gap = if klen >= tlen {
            klen - tlen
        } else {
            tlen - klen
        };
        if contains_chars(&hay, &needle) && budget_check(t, klen, gap) {
            if !contains_index(cands, i) {
                let c = Candidate { tier: 3, dist: gap, index: i, value: search_keys[i].clone() };
                proof {
                    lemma_collected_insert(keys, term@, *t, cands@, c, 3, i as int);
                }
                cands.push(c);
            } else {
                proof {
                    lemma_collected_pass(keys, term@, *t, cands@, 3, i as int);
                }
            }
        } else {
            proof {
                lemma_collected_pass(keys, term@, *t, cands@, 3, i as int);
            }
        }
        i = i + 1;
    }
    proof {
        lemma_collected_next_tier(keys, term@, *t, cands@, 3);
    }
}

/// Tier 4: every key scored by case-insensitive edit distance against the
/// term, accepted when the distance stays within the length budget.
fn scan_tier4(cands: &mut Vec<Candidate>, search_keys: &Vec<String>, term: &str, t: &Threshold)
    requires
        t.wf(),
        collected(search_keys.deep_view(), term@, *t, old(cands)@, 4, 0),
    ensures
        collected(search_keys.deep_view(), term@, *t, final(cands)@, 5, 0),
{
    let ghost keys = search_keys.deep_view();
    let n = search_keys.len();
    let mut i: usize = 0;
    while i < n
        invariant
            t.wf(),
            n == search_keys@.len(),
            keys == search_keys.deep_view(),
            keys.len() == n,
            i <= n,
            collected(keys, term@, *t, cands@, 4, i as int),
        decreases n - i,
    {
        proof {
            assert(keys[i as int] == search_keys@[i as int]@);
        }
        let d = get_levenshtein_distance(search_keys[i].as_str(), term);
        let kc = chars_of(search_keys[i].as_str());
        let klen = kc.len();
        if budget_check(t, klen, d) {
            if !contains_index(cands, i) {
                let c = Candidate { tier: 4, dist: d, index: i, value: search_keys[i].clone() };
                proof {
                    lemma_collected_insert(keys, term@, *t, cands@, c, 4, i as int);
                }
                cands.push(c);
            } else {
                proof {
                    lemma_collected_pass(keys, term@, *t, cands@, 4, i as int);
                }
            }
        } else {
            proof {
                lemma_collected_pass(keys, term@, *t, cands@, 4, i as int);
            }
        }
        i = i + 1;
    }
    proof {
        lemma_collected_next_tier(keys, term@, *t, cands@, 4);
    }
}

/// Matches every key against the term through the tiered cascade and returns
/// the matching keys as (position, text) pairs, ranked from best to worst.
///
/// A key equal to the term short-circuits the cascade: the result is exactly
/// the first such key. Otherwise the result holds every matched key once,
/// ordered by its first accepting tier, then by that tier's distance, then by
/// input position.
pub fn fuzzymatch(search_keys: &Vec<String>, term: &str, threshold: Threshold) -> (res: Vec<
    MatchIndex,
>)
    requires
        threshold.wf(),
    ensures
        match_spec(
            search_keys.deep_view(),
            term@,
            threshold,
            res@.map_values(|m: MatchIndex| m@),
        ),
{
    let ghost keys = search_keys.deep_view();
    let n = search_keys.len();
    let term_chars = chars_of(term);
    let mut i: usize = 0;
    while i < n
        invariant
            n == search_keys@.len(),
            keys == search_keys.deep_view(),
            keys.len() == n,
            term_chars@ == term@,
            i <= n,
            forall|j: int| 0 <= j < i ==> keys[j] != term@,
        decreases n - i,
    {
        proof {
            assert(keys[i as int] == search_keys@[i as int]@);
        }
        let kc = chars_of(search_keys[i].as_str());
        if chars_eq(&kc, &term_chars) {
            let mut out: Vec<MatchIndex> = Vec::new();
            out.push(MatchIndex(i, search_keys[i].clone()));
            proof {
                lemma_first_exact_prefix(keys, term@, i as int);
                assert(first_exact(keys, term@) == i);
                let pairs = out@.map_values(|mi: MatchIndex| mi@);
                assert(pairs.len() == 1);
                assert(pairs[0] == out@[0]@);
            }
            return out;
        }
        i = i + 1;
    }
    proof {
        lemma_first_exact_prefix(keys, term@, n as int);
        assert(!has_exact(keys, term@));
    }
    let mut cands: Vec<Candidate> = Vec::new();
    scan_tier1(&mut cands, search_keys, term, &threshold);
    scan_tier2(&mut cands, search_keys, term, &threshold);
    scan_tier3(&mut cands, search_keys, term, &threshold);
    scan_tier4(&mut cands, search_keys, term, &threshold);
    let ghost allc = cands@;
    let sorted = sort_candidates(cands);
    let mut res: Vec<MatchIndex> = Vec::new();
    let m = sorted.len();
    let mut k: usize = 0;
    while k < m
        invariant
            m == sorted@.len(),
            k <= m,
            res@.len() == k,
            forall|j: int|
                0 <= j < k ==> (#[trigger] res@[j])@ == (sorted@[j].index as int, sorted@[j].value@),
        decreases m - k,
    {
        res.push(MatchIndex(sorted[k].index, sorted[k].value.clone()));
        k = k + 1;
    }
    proof {
        let out = res@.map_values(|mi: MatchIndex| mi@);
        assert(out.len() == sorted@.len());
        assert forall|k2: int| 0 <= k2 < sorted@.len() implies cand_ok(
            keys,
            term@,
            threshold,
            #[trigger] sorted@[k2],
        ) by {
            assert(sorted@.contains(sorted@[k2]));
            assert(allc.contains(sorted@[k2]));
            let j = choose|j: int| 0 <= j < allc.len() && allc[j] == sorted@[k2];
            assert(cand_ok(keys, term@, threshold, allc[j]));
        }
        assert forall|k2: int| 0 <= k2 < out.len() implies {
            &&& 0 <= (#[trigger] out[k2]).0 < keys.len()
            &&& out[k2].1 == keys[out[k2].0]
            &&& matched(keys[out[k2].0], term@, threshold)
        } by {
            assert(out[k2] == res@[k2]@);
            assert(out[k2].0 == sorted@[k2].index as int);
            assert(cand_ok(keys, term@, threshold, sorted@[k2]));
        }
        assert forall|i2: int|
            0 <= i2 < keys.len() && matched(#[trigger] keys[i2], term@, threshold) implies exists|
            k2: int,
        |
            0 <= k2 < out.len() && (#[trigger] out[k2]).0 == i2 by {
            assert(first_tier(keys[i2], term@, threshold) < 5);
            let j = choose|j: int| 0 <= j < allc.len() && (#[trigger] allc[j]).index == i2;
            assert(allc.contains(allc[j]));
            assert(sorted@.contains(allc[j]));
            let k2 = choose|k2: int| 0 <= k2 < sorted@.len() && sorted@[k2] == allc[j];
            assert(out[k2].0 == i2);
        }
        assert forall|k1: int, k2: int| 0 <= k1 < k2 < out.len() implies rank_before(
            keys,
            term@,
            threshold,
            out[k1].0,
            out[k2].0,
        ) by {
            assert(cand_le(sorted@[k1], sorted@[k2]));
            assert(sorted@[k1].index != sorted@[k2].index);
            assert(cand_ok(keys, term@, threshold, sorted@[k1]));
            assert(cand_ok(keys, term@, threshold, sorted@[k2]));
        }
    }
    res
}

} // verus!
