//! A fuzzy string-matching engine: given a list of candidate keys and a query
//! term, it returns the keys that plausibly match the term, ranked from best
//! to worst through a cascade of match tiers (exact, case-insensitive exact,
//! initials, substring containment, edit distance).

mod distance;
mod initials;
mod laws;
mod matcher;
mod ranking;
mod text;

pub use distance::{cap_distance, get_cap_distance, get_levenshtein_distance, lemma_lev_symmetric, lev};
pub use initials::{initial_chars, spec_split_case, split_case, to_initials};
pub use laws::{
    lemma_budget_monotonic, lemma_match_deterministic, lemma_no_duplicates, lemma_threshold_monotonic,
    lemma_tier_monotonic, threshold_le,
};
pub use matcher::{
    first_exact, first_tier, fuzzymatch, has_exact, key_initials, len_gap, match_spec, matched,
    rank_before, ranked_output, tier_accepts, tier_distance, within_budget, MatchIndex, Threshold,
};
pub use text::contains_sub;
pub use text::{char_is_alphanumeric, char_is_upper, char_is_whitespace, lower_of, upper_of};
