use fuzzymatch::fuzzymatch;
use fuzzymatch::get_levenshtein_distance;
use fuzzymatch::split_case;
use fuzzymatch::MatchIndex;
use fuzzymatch::Threshold;

fn keys(words: &[&str]) -> Vec<String> {
    words.iter().map(|w| w.to_string()).collect()
}

fn tenths(n: i32) -> Threshold {
    Threshold { num: n, den: 10 }
}

#[test]
fn split_case_should_split_on_camel_case() {
    assert_eq!(vec!["a", "Happy", "Day"], split_case("aHappyDay"));
}

#[test]
fn split_case_should_split_on_title_case() {
    assert_eq!(vec!["A", "Happy", "Day"], split_case("AHappyDay"));
}

#[test]
fn get_levenshtein_distance_should_get_correct_distance() {
    assert_eq!(get_levenshtein_distance("x", "x"), 0);
    assert_eq!(get_levenshtein_distance("x", "y"), 1);
    assert_eq!(get_levenshtein_distance("", "x"), 1);
    assert_eq!(get_levenshtein_distance("y", ""), 1);
    assert_eq!(get_levenshtein_distance("kitten", "mutton"), 3);
    assert_eq!(get_levenshtein_distance("abc", "abbc"), 1);
    assert_eq!(get_levenshtein_distance("book", "back"), 2);
}

#[test]
fn get_levenshtein_distance_should_be_case_insensitive() {
    assert_eq!(get_levenshtein_distance("KITteN", "mUttoN"), 3);
}

#[test]
fn fuzzymatch_should_find_exact_match() {
    let words = keys(&["foo", "bar", "abc"]);
    assert_eq!(
        vec![MatchIndex(0, "foo".to_string())],
        fuzzymatch(&words, "foo", tenths(7))
    );
    assert_eq!(
        vec![MatchIndex(1, "bar".to_string())],
        fuzzymatch(&words, "bar", tenths(7))
    );
}

#[test]
fn should_match_a_character_insertion() {
    let words = keys(&["foo", "bar", "zzz"]);
    assert_eq!(
        vec![MatchIndex(0, "foo".to_string())],
        fuzzymatch(&words, "foos", tenths(5))
    );
    assert_eq!(
        vec![MatchIndex(1, "bar".to_string())],
        fuzzymatch(&words, "bars", tenths(5))
    );
    assert_eq!(
        vec![MatchIndex(0, "foo".to_string())],
        fuzzymatch(&words, "afoo", tenths(5))
    );
    assert_eq!(
        vec![MatchIndex(1, "bar".to_string())],
        fuzzymatch(&words, "abar", tenths(5))
    );
    assert_eq!(
        vec![MatchIndex(0, "foo".to_string())],
        fuzzymatch(&words, "fo.o", tenths(5))
    );
    assert_eq!(
        vec![MatchIndex(1, "bar".to_string())],
        fuzzymatch(&words, "b.ar", tenths(5))
    );
}

#[test]
fn should_match_a_character_deletion() {
    let words = keys(&["qux", "bar", "zzz"]);
    assert_eq!(
        vec![MatchIndex(0, "qux".to_string())],
        fuzzymatch(&words, "qu", tenths(5))
    );
    assert_eq!(
        vec![MatchIndex(1, "bar".to_string())],
        fuzzymatch(&words, "ba", tenths(5))
    );
    assert_eq!(
        vec![MatchIndex(0, "qux".to_string())],
        fuzzymatch(&words, "ux", tenths(5))
    );
    assert_eq!(
        vec![MatchIndex(1, "bar".to_string())],
        fuzzymatch(&words, "ar", tenths(5))
    );
    assert_eq!(
        vec![MatchIndex(0, "qux".to_string())],
        fuzzymatch(&words, "qx", tenths(5))
    );
    assert_eq!(
        vec![MatchIndex(1, "bar".to_string())],
        fuzzymatch(&words, "br", tenths(5))
    );
}

#[test]
fn should_match_a_character_swap() {
    let words = keys(&["qux", "bar", "zzz"]);
    assert_eq!(
        vec![MatchIndex(0, "qux".to_string())],
        fuzzymatch(&words, "quk", tenths(5))
    );
    assert_eq!(
        vec![MatchIndex(1, "bar".to_string())],
        fuzzymatch(&words, "bam", tenths(5))
    );
    assert_eq!(
        vec![MatchIndex(0, "qux".to_string())],
        fuzzymatch(&words, "lux", tenths(5))
    );
    assert_eq!(
        vec![MatchIndex(1, "bar".to_string())],
        fuzzymatch(&words, "car", tenths(5))
    );
    assert_eq!(
        vec![MatchIndex(0, "qux".to_string())],
        fuzzymatch(&words, "qix", tenths(5))
    );
    assert_eq!(
        vec![MatchIndex(1, "bar".to_string())],
        fuzzymatch(&words, "bor", tenths(5))
    );
}

#[test]
fn edit_distance_should_be_prioritized() {
    let words = keys(&["candyjake", "candyjane", "abc"]);
    assert_eq!(
        vec![
            MatchIndex(1, "candyjane".to_string()),
            MatchIndex(0, "candyjake".to_string())
        ],
        fuzzymatch(&words, "candycane", tenths(7))
    );
}

#[test]
fn should_not_match_if_under_threshold() {
    let words = keys(&["applehorse", "pearcat", "grapechicken", "abc"]);
    assert_eq!(
        Vec::<MatchIndex>::new(),
        fuzzymatch(&words, "applecat", tenths(8))
    );
    assert_eq!(
        Vec::<MatchIndex>::new(),
        fuzzymatch(&words, "pearchicken", tenths(8))
    );
    assert_eq!(
        Vec::<MatchIndex>::new(),
        fuzzymatch(&words, "grapehorse", tenths(8))
    );
}

#[test]
fn should_match_string_that_contains() {
    let words = keys(&["applehorse", "pearcat", "grapechicken", "abc"]);
    assert_eq!(
        vec![MatchIndex(0, "applehorse".to_string())],
        fuzzymatch(&words, "appleh", tenths(5))
    );
    assert_eq!(
        vec![MatchIndex(1, "pearcat".to_string())],
        fuzzymatch(&words, "pearc", tenths(5))
    );
    assert_eq!(
        vec![MatchIndex(2, "grapechicken".to_string())],
        fuzzymatch(&words, "grapec", tenths(5))
    );
}

#[test]
fn should_match_initals_with_caps() {
    let words = keys(&[
        "Fuzzy Match",
        "Jungle Adventure",
        "Pacific Cruiseship",
        "Desert Airway",
    ]);
    assert_eq!(
        vec![MatchIndex(0, "Fuzzy Match".to_string())],
        fuzzymatch(&words, "FM", tenths(7))
    );
    assert_eq!(
        vec![MatchIndex(1, "Jungle Adventure".to_string())],
        fuzzymatch(&words, "JA", tenths(7))
    );
    assert_eq!(
        vec![MatchIndex(2, "Pacific Cruiseship".to_string())],
        fuzzymatch(&words, "PC", tenths(7))
    );
}

#[test]
fn should_match_case_invariant_initals_with_caps() {
    let words = keys(&[
        "fuzzy match",
        "jungle adventure",
        "pacific cruiseship",
        "desert airway",
    ]);
    assert_eq!(
        vec![MatchIndex(0, "fuzzy match".to_string())],
        fuzzymatch(&words, "FM", tenths(7))
    );
    assert_eq!(
        vec![MatchIndex(1, "jungle adventure".to_string())],
        fuzzymatch(&words, "JA", tenths(7))
    );
    assert_eq!(
        vec![MatchIndex(2, "pacific cruiseship".to_string())],
        fuzzymatch(&words, "PC", tenths(7))
    );
}

#[test]
fn should_match_kebab_initials() {
    let words = keys(&[
        "fuzzy-match",
        "jungle-adventure",
        "pacific-cruiseship",
        "desert-airway",
    ]);
    assert_eq!(
        vec![MatchIndex(0, "fuzzy-match".to_string())],
        fuzzymatch(&words, "FM", tenths(7))
    );
    assert_eq!(
        vec![MatchIndex(1, "jungle-adventure".to_string())],
        fuzzymatch(&words, "JA", tenths(7))
    );
    assert_eq!(
        vec![MatchIndex(2, "pacific-cruiseship".to_string())],
        fuzzymatch(&words, "PC", tenths(7))
    );
}

#[test]
fn should_match_snake_initials() {
    let words = keys(&[
        "fuzzy_match",
        "jungle_adventure",
        "pacific_cruiseship",
        "desert_airway",
    ]);
    assert_eq!(
        vec![MatchIndex(0, "fuzzy_match".to_string())],
        fuzzymatch(&words, "FM", tenths(7))
    );
    assert_eq!(
        vec![MatchIndex(1, "jungle_adventure".to_string())],
        fuzzymatch(&words, "JA", tenths(7))
    );
    assert_eq!(
        vec![MatchIndex(2, "pacific_cruiseship".to_string())],
        fuzzymatch(&words, "PC", tenths(7))
    );
}

#[test]
fn should_match_title_case_initals_with_caps() {
    let words = keys(&[
        "FuzzyMatch",
        "JungleAdventure",
        "PacificCruiseship",
        "DesertAirway",
    ]);
    assert_eq!(
        vec![MatchIndex(0, "FuzzyMatch".to_string())],
        fuzzymatch(&words, "FM", tenths(7))
    );
    assert_eq!(
        vec![MatchIndex(1, "JungleAdventure".to_string())],
        fuzzymatch(&words, "JA", tenths(7))
    );
    assert_eq!(
        vec![MatchIndex(3, "DesertAirway".to_string())],
        fuzzymatch(&words, "DA", tenths(7))
    );
}

#[test]
fn should_match_initals_with_lowercase() {
    let words = keys(&[
        "Fuzzy Match",
        "Jungle Adventure",
        "Pacific Cruiseship",
        "Desert Airway",
    ]);
    assert_eq!(
        vec![MatchIndex(0, "Fuzzy Match".to_string())],
        fuzzymatch(&words, "fm", tenths(7))
    );
    assert_eq!(
        vec![MatchIndex(1, "Jungle Adventure".to_string())],
        fuzzymatch(&words, "ja", tenths(7))
    );
    assert_eq!(
        vec![MatchIndex(2, "Pacific Cruiseship".to_string())],
        fuzzymatch(&words, "pc", tenths(7))
    );
}

#[test]
fn exact_match_should_only_produce_a_single_result() {
    let words = keys(&["blue", "BLUE", "bLUe"]);
    assert_eq!(
        vec![MatchIndex(1, "BLUE".to_string())],
        fuzzymatch(&words, "BLUE", tenths(7))
    );
}

#[test]
fn case_insensitive_match_should_prioritize_over_initials() {
    let words = keys(&["blue", "Big Lucky Umbrella", "BLu", "abc"]);
    assert_eq!(
        vec![
            MatchIndex(2, "BLu".to_string()),
            MatchIndex(1, "Big Lucky Umbrella".to_string()),
            MatchIndex(0, "blue".to_string())
        ],
        fuzzymatch(&words, "BLU", tenths(7))
    );
}

#[test]
fn intial_match_should_prioritize_over_contains() {
    let words = keys(&["BORK", "Big Orange Rat", "abc"]);
    assert_eq!(
        vec![
            MatchIndex(1, "Big Orange Rat".to_string()),
            MatchIndex(0, "BORK".to_string())
        ],
        fuzzymatch(&words, "BOR", tenths(7))
    );
}

#[test]
fn contains_match_should_prioritize_over_edit_distance_match() {
    let words = keys(&["BARB", "BARKBONE", "abc"]);
    assert_eq!(
        vec![
            MatchIndex(1, "BARKBONE".to_string()),
            MatchIndex(0, "BARB".to_string())
        ],
        fuzzymatch(&words, "bark", tenths(4))
    );
}

#[test]
fn fuzzymatch_should_return_no_match_if_empty() {
    let words: Vec<String> = vec![];
    assert_eq!(
        Vec::<MatchIndex>::new(),
        fuzzymatch(&words, "any", tenths(7))
    );
}

#[test]
fn fuzzymatch_should_return_no_match_if_no_term() {
    let words = keys(&["apple", "pear", "banana", "orange"]);
    assert_eq!(Vec::<MatchIndex>::new(), fuzzymatch(&words, "", tenths(7)));
}

#[test]
fn fuzzymatch_should_fail_if_no_match() {
    let words = keys(&["apple", "pear", "banana", "orange"]);
    assert_eq!(
        Vec::<MatchIndex>::new(),
        fuzzymatch(&words, "melon", tenths(7))
    );
}
