use jofi::desktop::DesktopEntry;
use jofi::distance::bounded_damerau_levenshtein;
use jofi::history::History;
use jofi::search::{normalize, typo_substring_match, SearchIndex, WeightedField};

fn entry(name: &str, keywords: &[&str]) -> DesktopEntry {
    DesktopEntry {
        id: format!("{}.desktop", name.to_lowercase().replace(' ', "-")),
        path: b"/tmp/fake.desktop".to_vec(),
        name: name.to_string(),
        generic_name: None,
        comment: None,
        keywords: keywords.iter().map(|s| s.to_string()).collect(),
        exec_line: "/bin/true".to_string(),
        icon: None,
        terminal: false,
        categories: Vec::new(),
        source_rank: 0,
    }
}

#[test]
fn normalizes_case_accents_and_punctuation() {
    assert_eq!(normalize("FiRé-Fox!!"), "fire fox");
}

#[test]
fn handles_transposition_typo() {
    let index = SearchIndex::new(vec![entry("Chrome", &[])]);
    let results = index.search("chrmoe", 5);
    assert_eq!(results[0].entry.name, "Chrome");
}

#[test]
fn ranks_exact_prefix_above_typo() {
    let index = SearchIndex::new(vec![entry("Firefox", &[]), entry("Fireplace", &[])]);
    let results = index.search("fire", 5);
    assert_eq!(results[0].entry.name, "Firefox");
}

#[test]
fn matches_keywords_for_scripts() {
    let index = SearchIndex::new(vec![entry(
        "Disconnect iPhone Hotspot",
        &["wifi", "tether"],
    )]);
    let results = index.search("wifi", 5);
    assert_eq!(results[0].entry.name, "Disconnect iPhone Hotspot");
}

#[test]
fn typo_checks_all_words_in_field() {
    let index = SearchIndex::new(vec![entry("Google Chrome", &[])]);
    let results = index.search("crome", 5);
    assert_eq!(results[0].entry.name, "Google Chrome");
    assert!(results[0].reason.contains("crome:name"));
}

#[test]
fn typo_substring_matches_inside_full_field() {
    let token_chars = "goglecrome".chars().collect::<Vec<_>>();
    let field = WeightedField::new("google chrome".to_string(), 1, "test");
    let typo_match = typo_substring_match(&token_chars, &field, 2).unwrap();
    assert_eq!(typo_match.distance, 2);
}

#[test]
fn typo_substring_search_matches_compact_multiword_name() {
    let index = SearchIndex::new(vec![entry("Google Chrome", &[])]);
    let results = index.search("goglecrome", 5);
    assert_eq!(results[0].entry.name, "Google Chrome");
    assert!(results[0].reason.contains("goglecrome:name"));
}

#[test]
fn typo_substring_does_not_match_unrelated_text() {
    let index = SearchIndex::new(vec![entry("Google Chrome", &[])]);
    let results = index.search("abcdef", 5);
    assert!(results.is_empty());
}

#[test]
fn empty_query_uses_history_order() {
    let mut history = History::default();
    history.increment("Play Song");
    history.increment("Play Song");
    history.increment("Firefox");
    let index = SearchIndex::with_history(
        vec![entry("Firefox", &[]), entry("Play Song", &[])],
        &history,
    );
    let results = index.search("", 5);
    assert_eq!(results[0].entry.name, "Play Song");
    assert_eq!(results[0].reason, "history:2");
}

#[test]
fn bounded_damerau_supports_adjacent_swap() {
    assert_eq!(bounded_damerau_levenshtein("chrmoe", "chrome", 2), Some(1));
    assert_eq!(bounded_damerau_levenshtein("abcdef", "ghijkl", 2), None);
}
