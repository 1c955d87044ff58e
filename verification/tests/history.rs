use jofi::history::{parse_history, History};

#[test]
fn parses_tofi_history_lines() {
    let counts = parse_history("881 Google Chrome\n62 Play Song\nnot valid\n");
    assert_eq!(counts.get("Google Chrome"), Some(&881));
    assert_eq!(counts.get("Play Song"), Some(&62));
    assert_eq!(counts.len(), 2);
}

#[test]
fn increments_saturating_count() {
    let mut history = History::default();
    history.increment("Firefox");
    history.increment("Firefox");
    assert_eq!(history.count_for("Firefox"), 2);
}

#[test]
fn reads_lines_leniently() {
    let counts = parse_history("  5   Spaced  \n+7 Plus\n-1 Minus\n4294967296 Big\n9\n9 \n\n3 A B\r\n");
    assert_eq!(counts.get("Spaced"), Some(&5));
    assert_eq!(counts.get("Plus"), Some(&7));
    assert_eq!(counts.get("A B"), Some(&3));
    assert_eq!(counts.len(), 3);
}

#[test]
fn later_lines_replace_earlier_ones() {
    let history = History::from_text("1 A\n2 B\n3 A\n");
    assert_eq!(history.count_for("A"), 3);
    assert_eq!(history.len(), 2);
}

#[test]
fn counts_stop_at_the_greatest_number() {
    let mut history = History::from_text("4294967295 A\n");
    history.increment("A");
    assert_eq!(history.count_for("A"), u32::MAX);
    assert_eq!(history.count_for("B"), 0);
}

#[test]
fn saves_most_launched_first() {
    let history = History::from_text("2 b\n9 z\n2 a\n");
    assert_eq!(history.to_text(), "9 z\n2 a\n2 b\n");
    assert_eq!(History::default().to_text(), "");
}

#[test]
fn saved_history_loads_again() {
    let mut history = History::from_text("2 Google Chrome\n0 never\n");
    history.increment("\u{e9}t\u{e9}");
    let again = History::from_text(&history.to_text());
    assert_eq!(again.len(), 3);
    assert_eq!(again.count_for("Google Chrome"), 2);
    assert_eq!(again.count_for("\u{e9}t\u{e9}"), 1);
    assert_eq!(again.to_text(), history.to_text());
}

#[test]
fn own_file_goes_before_that_of_tofi() {
    let (own, copy) = History::load_with_tofi_fallback(Some("1 A\n"), Some("2 B\n"));
    assert_eq!(own.count_for("A"), 1);
    assert_eq!(own.count_for("B"), 0);
    assert!(copy.is_none());
    let (taken, copy) = History::load_with_tofi_fallback(None, Some("2 B\nbad\n3 C\n"));
    assert_eq!(taken.count_for("B"), 2);
    assert_eq!(copy, Some("3 C\n2 B\n".to_string()));
    let (nothing, copy) = History::load_with_tofi_fallback(None, None);
    assert!(nothing.is_empty());
    assert!(copy.is_none());
}

#[test]
fn copies_are_independent() {
    let mut history = History::from_text("1 A\n");
    let copy = history.clone();
    history.increment("A");
    assert_eq!(copy.count_for("A"), 1);
    assert_eq!(copy.len(), 1);
    assert!(!copy.is_empty());
}
