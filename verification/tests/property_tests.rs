use fuzzymatch::fuzzymatch;
use fuzzymatch::get_cap_distance;
use fuzzymatch::get_levenshtein_distance;
use fuzzymatch::split_case;
use fuzzymatch::to_initials;
use fuzzymatch::MatchIndex;
use fuzzymatch::Threshold;

fn keys(words: &[&str]) -> Vec<String> {
    words.iter().map(|w| w.to_string()).collect()
}

fn tenths(n: i32) -> Threshold {
    Threshold { num: n, den: 10 }
}

#[test]
fn exact_match_picks_first_of_equal_keys() {
    let words = keys(&["x", "foo", "foo"]);
    assert_eq!(
        vec![MatchIndex(1, "foo".to_string())],
        fuzzymatch(&words, "foo", tenths(7))
    );
}

#[test]
fn matching_twice_gives_identical_output() {
    let words = keys(&["blue", "Big Lucky Umbrella", "BLu", "abc"]);
    let first = fuzzymatch(&words, "BLU", tenths(7));
    let second = fuzzymatch(&words, "BLU", tenths(7));
    assert_eq!(first, second);
}

#[test]
fn key_matching_several_tiers_appears_once() {
    let words = keys(&["blu"]);
    let result = fuzzymatch(&words, "BLU", tenths(0));
    assert_eq!(vec![MatchIndex(0, "blu".to_string())], result);
}

#[test]
fn key_keeps_its_first_tier_over_later_ones() {
    // "blu" satisfies the case-insensitive tier and the containment tier;
    // it ranks by its first tier, ahead of the containment-only "bluX".
    let words = keys(&["bluX", "blu"]);
    assert_eq!(
        vec![
            MatchIndex(1, "blu".to_string()),
            MatchIndex(0, "bluX".to_string())
        ],
        fuzzymatch(&words, "BLU", tenths(5))
    );
}

#[test]
fn raising_threshold_never_adds_matches() {
    let words = keys(&["BARB", "BARKBONE", "abc"]);
    let loose = fuzzymatch(&words, "bark", tenths(4));
    let strict = fuzzymatch(&words, "bark", tenths(9));
    for m in &strict {
        assert!(loose.contains(m));
    }
    assert_eq!(
        vec![
            MatchIndex(1, "BARKBONE".to_string()),
            MatchIndex(0, "BARB".to_string())
        ],
        loose
    );
    assert_eq!(Vec::<MatchIndex>::new(), strict);
}

#[test]
fn to_initials_uppercases_first_letters() {
    assert_eq!("FM", to_initials("fuzzy match"));
    assert_eq!("FM", to_initials("fuzzy-match"));
    assert_eq!("AHD", to_initials("aHappyDay"));
    assert_eq!("BORK", to_initials("BORK"));
    assert_eq!("", to_initials(""));
    assert_eq!("", to_initials("   "));
    assert_eq!("", to_initials("-_."));
}

#[test]
fn split_case_keeps_uppercase_after_whitespace_attached() {
    assert_eq!(vec!["a Day"], split_case("a Day"));
    assert_eq!(vec!["A", "B", "C"], split_case("ABC"));
    assert_eq!(Vec::<String>::new(), split_case(""));
}

#[test]
fn cap_distance_counts_case_mismatches() {
    assert_eq!(get_cap_distance("blue", "blue"), 0);
    assert_eq!(get_cap_distance("BLu", "BLU"), 1);
    assert_eq!(get_cap_distance("blue", "BLUE"), 4);
    assert_eq!(get_cap_distance("abc", "abd"), usize::MAX);
}

#[test]
fn levenshtein_is_symmetric() {
    assert_eq!(
        get_levenshtein_distance("kitten", "mutton"),
        get_levenshtein_distance("mutton", "kitten")
    );
    assert_eq!(
        get_levenshtein_distance("", "abc"),
        get_levenshtein_distance("abc", "")
    );
    assert_eq!(
        get_levenshtein_distance("book", "back"),
        get_levenshtein_distance("back", "book")
    );
}

#[test]
fn levenshtein_counts_code_points() {
    assert_eq!(get_levenshtein_distance("über", "uber"), 1);
    assert_eq!(get_levenshtein_distance("ÜBER", "über"), 0);
}

#[test]
fn empty_term_is_checked_against_the_budget() {
    // an empty term is contained in every key, but the length gap is the
    // whole key, so the budget rejects it at any positive threshold
    let words = keys(&["apple"]);
    assert_eq!(Vec::<MatchIndex>::new(), fuzzymatch(&words, "", tenths(7)));
    // at threshold zero the whole length is budget, so it matches
    assert_eq!(
        vec![MatchIndex(0, "apple".to_string())],
        fuzzymatch(&words, "", tenths(0))
    );
}

#[test]
fn term_longer_than_all_keys_can_fail_every_tier() {
    let words = keys(&["ab", "cd"]);
    assert_eq!(
        Vec::<MatchIndex>::new(),
        fuzzymatch(&words, "abcdefghij", tenths(7))
    );
}
