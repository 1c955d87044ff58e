use jofi::order::{sort_by_rank, text_before, RankKey};

fn key(weight: i64, rank: u8, name: &str) -> RankKey {
    RankKey { weight, rank, name: name.chars().collect() }
}

#[test]
fn texts_are_ordered_as_std_orders_them() {
    let samples = ["", "a", "aa", "ab", "b", "\u{7f}", "\u{80}", "\u{ffff}", "\u{10000}"];
    for a in samples {
        for b in samples {
            let left: Vec<char> = a.chars().collect();
            let right: Vec<char> = b.chars().collect();
            assert_eq!(text_before(&left, &right), a < b);
        }
    }
}

#[test]
fn weight_then_rank_then_name() {
    let items = vec!["light", "late", "named b", "named a", "heavy"];
    let keys = vec![key(1, 0, "x"), key(5, 2, "x"), key(5, 1, "b"), key(5, 1, "a"), key(9, 9, "z")];
    assert_eq!(
        sort_by_rank(items, keys),
        vec!["heavy", "named a", "named b", "late", "light"]
    );
}

#[test]
fn equal_keys_keep_their_order() {
    let items = vec![1, 2, 3, 4];
    let keys = vec![key(0, 0, "b"), key(0, 0, "a"), key(0, 0, "b"), key(0, 0, "a")];
    assert_eq!(sort_by_rank(items, keys), vec![2, 4, 1, 3]);
    assert!(key(1, 0, "").before(&key(0, 0, "")));
    assert!(!key(0, 0, "").before(&key(0, 0, "")));
}
