use jofi::desktop::DesktopEntry;
use jofi::history::History;
use jofi::search::{
    best_typo_substring_match, score_token, subsequence_score, typo_budget, SearchIndex,
    WeightedField,
};
use jofi::distance::TypoSubstringMatch;

fn entry(name: &str, rank: u8) -> DesktopEntry {
    DesktopEntry {
        id: format!("{}.desktop", name.to_lowercase().replace(' ', "-")),
        path: Vec::new(),
        name: name.to_string(),
        generic_name: None,
        comment: None,
        keywords: Vec::new(),
        exec_line: "x".to_string(),
        icon: None,
        terminal: false,
        categories: Vec::new(),
        source_rank: rank,
    }
}

fn chars(text: &str) -> Vec<char> {
    text.chars().collect()
}

fn score(token: &str, field: &str) -> Option<i32> {
    score_token(&chars(token), &WeightedField::new(field.to_string(), 1, "x"))
}

fn found(index: &SearchIndex, query: &str) -> Vec<(String, i32, String)> {
    index
        .search(query, 10)
        .into_iter()
        .map(|result| (result.entry.name, result.score, result.reason))
        .collect()
}

fn launched(names: &[(&str, usize)]) -> History {
    let mut history = History::default();
    for (name, count) in names {
        for _ in 0..*count {
            history.increment(name);
        }
    }
    history
}

#[test]
fn ways_to_match_a_field() {
    assert_eq!(score("firefox", "firefox"), Some(10_000));
    assert_eq!(score("fire", "firefox"), Some(8_993));
    assert_eq!(score("fox", "firefox"), Some(7_460));
    assert_eq!(score("fox", "\u{e9}fox"), Some(7_480));
    assert_eq!(score("chrmoe", "chrome"), Some(5_694));
    assert_eq!(score("frefox", "myfirefoxapp"), Some(6_500 - 1_000 - 3 * 12));
    assert_eq!(score("adg", "axxdxxg"), Some(4_413));
    assert_eq!(score("zzz", "firefox"), None);
}

#[test]
fn best_word_of_a_field_counts() {
    assert_eq!(score("chrme", "chroms chrome"), Some(6_700 - 1_000 - 6));
}

#[test]
fn characters_in_order() {
    assert_eq!(subsequence_score(&chars("abc"), "a-b-c"), Some(4_500 - 40 - 5));
    assert_eq!(subsequence_score(&chars("ca"), "abc"), None);
    assert_eq!(subsequence_score(&chars(""), "abc"), Some(4_497));
    assert_eq!(subsequence_score(&chars("b"), "\u{e9}b"), Some(4_500 - 40 - 3));
}

#[test]
fn longer_words_may_hold_more_errors() {
    for (word, errors) in [("", 0), ("a", 0), ("ab", 1), ("abcd", 1), ("abcde", 2), ("abcdefghij", 2)]
    {
        assert_eq!(typo_budget(&chars(word)), errors);
    }
}

#[test]
fn closer_matches_are_better() {
    let make = |distance: usize, start: usize, matched_len: usize| TypoSubstringMatch {
        distance,
        start,
        matched_len,
    };
    assert_eq!(best_typo_substring_match(make(1, 9, 9), make(2, 0, 0)).distance, 1);
    assert_eq!(best_typo_substring_match(make(1, 2, 0), make(1, 1, 9)).start, 1);
    assert_eq!(best_typo_substring_match(make(1, 1, 3), make(1, 1, 2)).matched_len, 2);
}

#[test]
fn whole_query_scores() {
    let index = SearchIndex::new(vec![entry("Chrome", 0)]);
    assert_eq!(
        found(&index, "Chrome"),
        vec![("Chrome".to_string(), 120_000 + 100_000 + 250, "exact-name,chrome:name".to_string())]
    );
    assert_eq!(
        found(&index, "chr"),
        vec![(
            "Chrome".to_string(),
            100_000 - 6 + 89_940 + 250,
            "prefix-name,chr:name".to_string()
        )]
    );
    assert_eq!(
        found(&index, "chrmoe"),
        vec![("Chrome".to_string(), 56_940 + 250, "chrmoe:name".to_string())]
    );
    assert!(found(&index, "chrome zzz").is_empty());
}

#[test]
fn prefix_of_the_id() {
    let mut other = entry("Browser", 3);
    other.id = "org.mozilla.Firefox.desktop".to_string();
    let index = SearchIndex::new(vec![other]);
    let results = found(&index, "org.moz");
    let id_len = "org mozilla firefox desktop".len() as i32;
    assert_eq!(results[0].2, "prefix-id,org:id,moz:id");
    assert_eq!(
        results[0].1,
        (70_000 - id_len) + (9_000 - id_len) * 4 + (7_500 - 40) * 4 + (10 - 3) * 25
    );
}

#[test]
fn acronyms() {
    let index = SearchIndex::new(vec![entry("Visual Studio Code", 0)]);
    let results = found(&index, "vsc");
    assert!(results[0].2.starts_with("acronym,vsc:"));
}

#[test]
fn launches_raise_scores() {
    let history = launched(&[("Alpha", 3)]);
    let index = SearchIndex::with_history(vec![entry("Alpha", 0), entry("Beta", 20)], &history);
    assert_eq!(
        found(&index, ""),
        vec![
            ("Alpha".to_string(), 20_030, "history:3".to_string()),
            ("Beta".to_string(), 0, "empty-query".to_string()),
        ]
    );
    assert_eq!(
        found(&index, "alpha"),
        vec![(
            "Alpha".to_string(),
            120_000 + 100_000 + 250 + 20_030,
            "exact-name,alpha:name,history:3".to_string()
        )]
    );
    assert_eq!(found(&index, "beta")[0].1, 220_000);
}

#[test]
fn launch_scores_stop_growing() {
    let history = launched(&[("Alpha", 12_000), ("Beta", 9_999)]);
    let index = SearchIndex::with_history(vec![entry("Alpha", 0), entry("Beta", 0)], &history);
    let results = found(&index, "");
    assert_eq!(results[0].1, 120_000);
    assert_eq!(results[1].1, 119_990);
}

#[test]
fn ties_go_by_directory_and_name() {
    let index =
        SearchIndex::new(vec![entry("beta", 20), entry("Alpha", 20), entry("gamma", 12)]);
    let names: Vec<String> = index.entries().iter().map(|entry| entry.name.clone()).collect();
    assert_eq!(names, vec!["gamma", "Alpha", "beta"]);
    assert_eq!(index.len(), 3);
    assert!(!index.is_empty());
    assert!(SearchIndex::new(Vec::new()).is_empty());
}

#[test]
fn fewer_results_are_the_first_ones() {
    let index = SearchIndex::new(vec![entry("Firefox", 0), entry("Fireplace", 0), entry("Fir", 0)]);
    let all: Vec<String> =
        index.search("fir", 9).into_iter().map(|result| result.entry.name).collect();
    assert_eq!(all.len(), 3);
    assert_eq!(all[0], "Fir");
    for limit in 0..4 {
        let some: Vec<String> =
            index.search("fir", limit).into_iter().map(|result| result.entry.name).collect();
        assert_eq!(some, all[..limit.min(3)]);
    }
    assert_eq!(index.search("", 2).len(), 2);
}

#[test]
fn every_single_typo_in_a_word_is_found() {
    let index = SearchIndex::new(vec![entry("Telegram Desktop", 0)]);
    let word = chars("telegram");
    for at in 0..word.len() {
        let mut deleted = word.clone();
        deleted.remove(at);
        let mut replaced = word.clone();
        replaced[at] = 'z';
        let mut inserted = word.clone();
        inserted.insert(at, 'q');
        let mut swapped = word.clone();
        swapped.swap(at, (at + 1).min(word.len() - 1));
        for typed in [deleted, replaced, inserted, swapped] {
            let query: String = typed.into_iter().collect();
            assert_eq!(found(&index, &query).len(), 1, "{}", query);
        }
    }
}

#[test]
fn case_accents_and_punctuation_do_not_matter() {
    let index = SearchIndex::new(vec![entry("Caf\u{e9} Noir", 0)]);
    assert_eq!(found(&index, "CAFE"), found(&index, "caf\u{e9}!"));
    assert_eq!(found(&index, "CAFE").len(), 1);
}

#[test]
fn every_searched_field_counts() {
    let mut one = entry("Zed", 0);
    one.generic_name = Some("Editor".to_string());
    one.comment = Some("Write things".to_string());
    one.keywords = vec!["code".to_string()];
    one.categories = vec!["Development".to_string()];
    let index = SearchIndex::new(vec![one]);
    for (query, reason) in [
        ("editor", "editor:generic-name"),
        ("write", "write:comment"),
        ("code", "code:keyword"),
        ("development", "development:category"),
    ] {
        assert_eq!(found(&index, query)[0].2, reason);
    }
}

#[test]
fn results_can_be_copied() {
    let index = SearchIndex::new(vec![entry("Alpha", 0)]);
    let result = index.search("alpha", 1).remove(0);
    let copy = result.clone();
    assert_eq!(copy.entry, result.entry);
    assert_eq!(copy.score, result.score);
    assert_eq!(copy.reason, result.reason);
}

#[test]
fn directories_and_launches_only_add_to_the_score() {
    let score_of = |rank: u8, launches: usize, query: &str| {
        let history = launched(&[("Chrome", launches)]);
        let index = SearchIndex::with_history(vec![entry("Chrome", rank)], &history);
        found(&index, query).first().map(|result| result.1)
    };
    for query in ["chrome", "chrmoe", "c", "desktop"] {
        let base = score_of(200, 0, query).unwrap();
        for (rank, boost) in [(0, 250), (1, 225), (9, 25), (10, 0)] {
            assert_eq!(score_of(rank, 0, query), Some(base + boost));
            assert_eq!(score_of(rank, 2, query), Some(base + boost + 20_020));
        }
    }
    assert_eq!(score_of(0, 50, "zzzz"), None);
}

#[test]
fn indexes_can_be_copied() {
    let history = launched(&[("Beta", 1)]);
    let index = SearchIndex::with_history(vec![entry("Alpha", 0), entry("Beta", 1)], &history);
    let copy = index.clone();
    assert_eq!(copy.len(), 2);
    assert_eq!(found(&copy, ""), found(&index, ""));
    assert_eq!(found(&copy, "alpha"), found(&index, "alpha"));
}
