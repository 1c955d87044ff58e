use jofi::distance::{bounded_damerau_levenshtein, typo_substring_match_chars};

fn chars(text: &str) -> Vec<char> {
    text.chars().collect()
}

fn matched(pattern: &str, text: &str, max: usize) -> Option<(usize, usize, usize)> {
    typo_substring_match_chars(&chars(pattern), &chars(text), max)
        .map(|found| (found.distance, found.start, found.matched_len))
}

#[test]
fn each_edit_counts_one() {
    for typed in ["chrmoe", "chrme", "chroome", "chrame"] {
        assert_eq!(bounded_damerau_levenshtein(typed, "chrome", 2), Some(1));
        assert_eq!(bounded_damerau_levenshtein("chrome", typed, 2), Some(1));
    }
    assert_eq!(bounded_damerau_levenshtein("chrome", "chrome", 0), Some(0));
}

#[test]
fn distances_above_the_bound_are_not_told() {
    assert_eq!(bounded_damerau_levenshtein("kitten", "sitting", 3), Some(3));
    assert_eq!(bounded_damerau_levenshtein("kitten", "sitting", 2), None);
    assert_eq!(bounded_damerau_levenshtein("", "abc", 3), Some(3));
    assert_eq!(bounded_damerau_levenshtein("", "abc", 2), None);
    assert_eq!(bounded_damerau_levenshtein("abcdef", "a", usize::MAX), Some(5));
}

#[test]
fn no_character_takes_part_in_two_edits() {
    assert_eq!(bounded_damerau_levenshtein("ca", "abc", 5), Some(3));
}

#[test]
fn characters_count_not_bytes() {
    assert_eq!(bounded_damerau_levenshtein("\u{e9}t\u{e9}", "ete", 2), Some(2));
}

#[test]
fn closest_part_of_a_text() {
    assert_eq!(matched("fire", "myfirefox", 1), Some((0, 2, 4)));
    assert_eq!(matched("frie", "myfirefox", 1), Some((1, 2, 4)));
    assert_eq!(matched("zzzz", "myfirefox", 2), None);
    assert_eq!(matched("fire", "", 2), None);
}
