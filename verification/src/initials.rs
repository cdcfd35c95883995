//! Initials extraction: a key is cut into words (on whitespace, on
//! punctuation, and at case transitions), and the first character of each
//! word, uppercased, forms the key's initials abbreviation.

use vstd::prelude::*;

use crate::text::{
    char_is_alphanumeric, char_is_upper, char_is_whitespace, chars_of, is_alphanumeric, is_upper,
    is_whitespace, string_of_chars, to_uppercase, upper_of,
};

verus! {

/// A word boundary inside a single piece: an uppercase character that is not
/// the first of the piece and is not preceded by whitespace.
pub open spec fn case_boundary(w: Seq<char>, i: int) -> bool {
    0 < i < w.len() && char_is_upper(w[i]) && !char_is_whitespace(w[i - 1])
}

/// The pieces of `w` from position `i` on, where the piece currently being
/// scanned started at `start`.
pub open spec fn split_case_from(w: Seq<char>, start: int, i: int) -> Seq<Seq<char>>
    recommends
        0 <= start <= i <= w.len(),
    decreases w.len() - i,
{
    if i < 0 || i >= w.len() {
        seq![w.subrange(start, w.len() as int)]
    } else if case_boundary(w, i) {
        seq![w.subrange(start, i)] + split_case_from(w, i, i + 1)
    } else {
        split_case_from(w, start, i + 1)
    }
}

/// The pieces of `w` after splitting at internal case-transition boundaries.
/// An empty input has no pieces; otherwise every boundary starts a new piece.
pub open spec fn spec_split_case(w: Seq<char>) -> Seq<Seq<char>> {
    if w.len() == 0 {
        Seq::empty()
    } else {
        split_case_from(w, 0, 1)
    }
}

/// Splits a piece at case-transition boundaries: a new word starts
/// immediately before any uppercase character that is not the piece's first
/// character and is not preceded by whitespace.
pub fn split_case(word: &str) -> (r: Vec<String>)
    ensures
        r.deep_view() == spec_split_case(word@),
{
    let cs = chars_of(word);
    let mut words: Vec<String> = Vec::new();
    if cs.len() == 0 {
        proof {
            assert(words.deep_view() =~= spec_split_case(word@));
        }
        return words;
    }
    let n = cs.len();
    let mut start: usize = 0;
    let mut i: usize = 1;
    while i < n
        invariant
            cs@ == word@,
            n == cs@.len(),
            0 < n,
            0 <= start < i <= n,
            words.deep_view() + split_case_from(word@, start as int, i as int)
                =~~= spec_split_case(word@),
        decreases n - i,
    {
        let c = cs[i];
        if is_upper(c) && !is_whitespace(cs[i - 1]) {
            let piece = segment_string(&cs, start, i);
            proof {
                let before = words.deep_view();
                assert(split_case_from(word@, start as int, i as int) =~~= seq![
                    word@.subrange(start as int, i as int),
                ] + split_case_from(word@, i as int, i + 1));
                assert((before + (seq![word@.subrange(start as int, i as int)]
                    + split_case_from(word@, i as int, i + 1))) =~~= (before.push(
                    word@.subrange(start as int, i as int),
                ) + split_case_from(word@, i as int, i + 1)));
            }
            words.push(piece);
            start = i;
        }
        i = i + 1;
    }
    let last = segment_string(&cs, start, n);
    words.push(last);
    proof {
        assert(words.deep_view() =~~= spec_split_case(word@));
    }
    words
}

/// The characters of `v` from `from` (inclusive) to `to` (exclusive), as a string.
fn segment_string(v: &Vec<char>, from: usize, to: usize) -> (s: String)
    requires
        from <= to <= v@.len(),
    ensures
        s@ == v@.subrange(from as int, to as int),
{
    let mut seg: Vec<char> = Vec::new();
    let mut k = from;
    while k < to
        invariant
            from <= k <= to <= v@.len(),
            seg@ == v@.subrange(from as int, k as int),
        decreases to - k,
    {
        seg.push(v[k]);
        k = k + 1;
        proof {
            assert(seg@ =~= v@.subrange(from as int, k as int));
        }
    }
    string_of_chars(&seg)
}

/// Whether a word starts at position `i` of `w`: the character is
/// alphanumeric and either begins the string, follows a non-alphanumeric
/// character, or is uppercase (a case-transition boundary).
pub open spec fn starts_word(w: Seq<char>, i: int) -> bool {
    char_is_alphanumeric(w[i]) && (i == 0 || !char_is_alphanumeric(w[i - 1]) || char_is_upper(
        w[i],
    ))
}

/// The first characters of the words of `w` from position `i` on.
pub open spec fn initial_chars_from(w: Seq<char>, i: int) -> Seq<char>
    decreases w.len() - i,
{
    if i < 0 || i >= w.len() {
        Seq::empty()
    } else if starts_word(w, i) {
        seq![w[i]] + initial_chars_from(w, i + 1)
    } else {
        initial_chars_from(w, i + 1)
    }
}

/// The first character of every word of `w`, in order.
pub open spec fn initial_chars(w: Seq<char>) -> Seq<char> {
    initial_chars_from(w, 0)
}

/// The uppercase concatenation of the first character of every word of the
/// key. Words are delimited by whitespace, by non-alphanumeric characters,
/// and by case-transition boundaries.
pub fn to_initials(word: &str) -> (r: String)
    ensures
        r@ == upper_of(initial_chars(word@)),
{
    let cs = chars_of(word);
    let n = cs.len();
    let mut acc: Vec<char> = Vec::new();
    let mut i: usize = 0;
    while i < n
        invariant
            cs@ == word@,
            n == cs@.len(),
            i <= n,
            acc@ + initial_chars_from(word@, i as int) =~~= initial_chars(word@),
        decreases n - i,
    {
        let c = cs[i];
        if is_alphanumeric(c) && (i == 0 || !is_alphanumeric(cs[i - 1]) || is_upper(c)) {
            proof {
                assert(initial_chars_from(word@, i as int) =~~= seq![word@[i as int]]
                    + initial_chars_from(word@, i + 1));
            }
            acc.push(c);
        }
        i = i + 1;
    }
    proof {
        assert(acc@ =~= initial_chars(word@));
    }
    let joined = string_of_chars(&acc);
    to_uppercase(joined.as_str())
}

} // verus!
