use jofi::desktop::DesktopEntry;
use jofi::report::{
    profile_plan, profile_queries, query_profile, truncate, ProfileError, QueryProfile, Timings,
};
use jofi::search::SearchIndex;

#[test]
fn truncates_with_an_ellipsis() {
    assert_eq!(truncate("abc", 3), "abc");
    assert_eq!(truncate("abcd", 3), "ab\u{2026}");
    assert_eq!(truncate("\u{e9}\u{e8}\u{ea}", 2), "\u{e9}\u{2026}");
    assert_eq!(truncate("ab", 1), "\u{2026}");
    assert_eq!(truncate("ab", 0), "\u{2026}");
    assert_eq!(truncate("", 0), "");
}

#[test]
fn usual_queries() {
    assert_eq!(profile_queries(Vec::new()), vec!["firefox", "chrmoe", "hotspot"]);
    assert_eq!(profile_queries(vec!["x".to_string()]), vec!["x"]);
}

#[test]
fn timings_of_runs() {
    let mut timings = Timings::new();
    assert_eq!(timings, Timings { total: 0, min: u128::MAX, max: 0 });
    for elapsed in [30, 10, 20] {
        timings.record(elapsed);
    }
    assert_eq!(timings, Timings { total: 60, min: 10, max: 30 });
}

#[test]
fn profiles_need_a_run() {
    assert_eq!(profile_plan(0, vec!["x".to_string()]), Err(ProfileError::NoRuns));
    assert_eq!(profile_plan(1, vec!["x".to_string()]), Ok(vec!["x".to_string()]));
    assert_eq!(profile_plan(2, Vec::new()).unwrap().len(), 3);
}

#[test]
fn profiles_of_queries() {
    let entry = DesktopEntry {
        id: "alpha.desktop".to_string(),
        path: Vec::new(),
        name: "Alpha".to_string(),
        generic_name: None,
        comment: None,
        keywords: Vec::new(),
        exec_line: "x".to_string(),
        icon: None,
        terminal: false,
        categories: Vec::new(),
        source_rank: 0,
    };
    let index = SearchIndex::new(vec![entry]);
    let timings = Timings { total: 60, min: 10, max: 30 };
    assert_eq!(
        query_profile("alp".to_string(), 3, timings, &index.search("alp", 5)),
        QueryProfile {
            query: "alp".to_string(),
            runs: 3,
            timings,
            result_count: 1,
            best_match: Some("Alpha".to_string()),
        }
    );
    let none = query_profile("zzz".to_string(), 3, timings, &index.search("zzz", 5));
    assert_eq!(none.result_count, 0);
    assert_eq!(none.best_match, None);
}
