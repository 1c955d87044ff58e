//! Optimal string alignment: how many typing errors lie between two texts.
use vstd::prelude::*;

use crate::text::to_chars;

verus! {

pub open spec fn min2(x: nat, y: nat) -> nat {
    if x <= y {
        x
    } else {
        y
    }
}

/// Whether the last two of the first `i` characters of `a` are the last two of the first `j`
/// characters of `b`, swapped.
pub open spec fn swapped(a: Seq<char>, b: Seq<char>, i: nat, j: nat) -> bool {
    i > 1 && j > 1 && a[i - 1] == b[j - 2] && a[i - 2] == b[j - 1]
}

/// The cheapest way to reach a pair of prefixes: from the pair without the last character of the
/// first text (`above`), of the second (`left`), of both (`diagonal`, one edit unless the two
/// characters are the `same`), or without the last two of both where these are a `swap`.
pub open spec fn cheapest(
    above: nat,
    left: nat,
    diagonal: nat,
    before: nat,
    same: bool,
    swap: bool,
) -> nat {
    let replaced = if same {
        diagonal
    } else {
        diagonal + 1
    };
    let edited = min2(min2(above + 1, left + 1), replaced);
    if swap {
        min2(edited, before + 1)
    } else {
        edited
    }
}

/// The least number of edits that turns the first `i` characters of `a` into the first `j`
/// characters of `b`, where an edit inserts, deletes or replaces one character or swaps two
/// adjacent ones, and no character takes part in two edits. With `free`, what precedes the match
/// in `b` may be left out at no cost.
pub open spec fn alignment(a: Seq<char>, b: Seq<char>, free: bool, i: nat, j: nat) -> nat
    decreases i + j,
{
    if i == 0 {
        if free {
            0
        } else {
            j
        }
    } else if j == 0 {
        i
    } else {
        cheapest(
            alignment(a, b, free, (i - 1) as nat, j),
            alignment(a, b, free, i, (j - 1) as nat),
            alignment(a, b, free, (i - 1) as nat, (j - 1) as nat),
            if swapped(a, b, i, j) {
                alignment(a, b, free, (i - 2) as nat, (j - 2) as nat)
            } else {
                0
            },
            a[i - 1] == b[j - 1],
            swapped(a, b, i, j),
        )
    }
}

/// The number of edits between two texts.
pub open spec fn distance(a: Seq<char>, b: Seq<char>) -> nat {
    alignment(a, b, false, a.len(), b.len())
}

proof fn lemma_alignment_bounds(a: Seq<char>, b: Seq<char>, free: bool, i: nat, j: nat)
    ensures
        alignment(a, b, free, i, j) <= i || alignment(a, b, free, i, j) <= j,
        free ==> alignment(a, b, free, i, j) <= i,
        !free ==> alignment(a, b, free, i, j) >= i - j,
        !free ==> alignment(a, b, free, i, j) >= j - i,
    decreases i + j,
{
    if i > 0 && j > 0 {
        lemma_alignment_bounds(a, b, free, (i - 1) as nat, j);
        lemma_alignment_bounds(a, b, free, i, (j - 1) as nat);
        lemma_alignment_bounds(a, b, free, (i - 1) as nat, (j - 1) as nat);
        if i > 1 && j > 1 {
            lemma_alignment_bounds(a, b, free, (i - 2) as nat, (j - 2) as nat);
        }
    }
}

/// Whether every prefix of `b` takes more than `limit` edits.
spec fn row_exceeds(a: Seq<char>, b: Seq<char>, free: bool, i: nat, limit: nat) -> bool {
    forall|j: nat| j <= b.len() ==> #[trigger] alignment(a, b, free, i, j) > limit
}

proof fn lemma_row_exceeds_step(
    a: Seq<char>,
    b: Seq<char>,
    free: bool,
    i: nat,
    j: nat,
    limit: nat,
)
    requires
        i > 0,
        j <= b.len(),
        row_exceeds(a, b, free, i, limit),
    ensures
        alignment(a, b, free, i + 1, j) > limit,
    decreases j,
{
    assert(alignment(a, b, free, i, 0) > limit);
    assert(alignment(a, b, free, i, j) > limit);
    if j > 0 {
        lemma_row_exceeds_step(a, b, free, i, (j - 1) as nat, limit);
        assert(alignment(a, b, free, i, (j - 1) as nat) > limit);
        if j > 1 {
            // A swap costs no less than replacing one character and deleting the other.
            assert(alignment(a, b, free, i, (j - 1) as nat) <= alignment(
                a,
                b,
                free,
                (i - 1) as nat,
                (j - 2) as nat,
            ) + 1);
        }
    }
}

proof fn lemma_row_exceeds(a: Seq<char>, b: Seq<char>, free: bool, i: nat, last: nat, limit: nat)
    requires
        0 < i <= last,
        row_exceeds(a, b, free, i, limit),
    ensures
        row_exceeds(a, b, free, last, limit),
    decreases last - i,
{
    if i < last {
        assert forall|j: nat| j <= b.len() implies #[trigger] alignment(a, b, free, i + 1, j)
            > limit by {
            lemma_row_exceeds_step(a, b, free, i, j, limit);
        }
        lemma_row_exceeds(a, b, free, i + 1, last, limit);
    }
}

/// The alignment of two prefixes, or `cap` if it is more.
spec fn capped(a: Seq<char>, b: Seq<char>, free: bool, i: int, j: int, cap: usize) -> nat {
    min2(alignment(a, b, free, i as nat, j as nat), cap as nat)
}

/// Whether `row` holds the capped alignments of the first `i` characters of `a`.
spec fn is_row(
    row: Seq<usize>,
    a: Seq<char>,
    b: Seq<char>,
    free: bool,
    i: int,
    cap: usize,
) -> bool {
    &&& row.len() == b.len() + 1
    &&& forall|j: int| 0 <= j <= b.len() ==> #[trigger] row[j] == capped(a, b, free, i, j, cap)
}

fn min_usize(x: usize, y: usize) -> (res: usize)
    ensures
        res == min2(x as nat, y as nat),
{
    if x <= y {
        x
    } else {
        y
    }
}

fn capped_cheapest(
    above: usize,
    left: usize,
    diagonal: usize,
    before: usize,
    same: bool,
    swap: bool,
    cap: usize,
) -> (res: usize)
    ensures
        res == min2(
            cheapest(above as nat, left as nat, diagonal as nat, before as nat, same, swap),
            cap as nat,
        ),
{
    let replaced: usize = if same {
        diagonal
    } else {
        diagonal.saturating_add(1)
    };
    let mut value: usize = min_usize(
        min_usize(above.saturating_add(1), left.saturating_add(1)),
        replaced,
    );
    if swap {
        value = min_usize(value, before.saturating_add(1));
    }
    min_usize(value, cap)
}

proof fn lemma_capped_cheapest(
    above: nat,
    left: nat,
    diagonal: nat,
    before: nat,
    same: bool,
    swap: bool,
    cap: nat,
)
    ensures
        min2(
            cheapest(
                min2(above, cap),
                min2(left, cap),
                min2(diagonal, cap),
                min2(before, cap),
                same,
                swap,
            ),
            cap,
        ) == min2(cheapest(above, left, diagonal, before, same, swap), cap),
{
}

/// One value of the alignment table from the values above it, to its left, and diagonally before
/// it by one and by two.
fn cell(
    a: &[char],
    b: &[char],
    free: bool,
    i: usize,
    j: usize,
    cap: usize,
    above: usize,
    left: usize,
    diagonal: usize,
    before: usize,
) -> (res: usize)
    requires
        i < a@.len(),
        j < b@.len(),
        above == capped(a@, b@, free, i as int, j + 1, cap),
        left == capped(a@, b@, free, i + 1, j as int, cap),
        diagonal == capped(a@, b@, free, i as int, j as int, cap),
        i > 0 && j > 0 ==> before == capped(a@, b@, free, i - 1, j - 1, cap),
    ensures
        res == capped(a@, b@, free, i + 1, j + 1, cap),
{
    let same: bool = a[i] == b[j];
    let swap: bool = i > 0 && j > 0 && a[i] == b[j - 1] && a[i - 1] == b[j];
    let skipped: usize = if swap {
        before
    } else {
        0
    };
    proof {
        let row = (i + 1) as nat;
        let column = (j + 1) as nat;
        assert(swap == swapped(a@, b@, row, column));
        lemma_capped_cheapest(
            alignment(a@, b@, free, i as nat, column),
            alignment(a@, b@, free, row, j as nat),
            alignment(a@, b@, free, i as nat, j as nat),
            if swap {
                alignment(a@, b@, free, (i - 1) as nat, (j - 1) as nat)
            } else {
                0
            },
            same,
            swap,
            cap as nat,
        );
    }
    capped_cheapest(above, left, diagonal, skipped, same, swap, cap)
}

/// Computes row `i + 1` of the alignment table from the two rows above it, and its least value.
fn fill_row(
    curr: &mut Vec<usize>,
    prev: &Vec<usize>,
    prev_prev: &Vec<usize>,
    a: &[char],
    b: &[char],
    free: bool,
    i: usize,
    cap: usize,
) -> (least: usize)
    requires
        i < a@.len(),
        old(curr)@.len() == b@.len() + 1,
        is_row(prev@, a@, b@, free, i as int, cap),
        prev_prev@.len() == b@.len() + 1,
        i > 0 ==> is_row(prev_prev@, a@, b@, free, i - 1, cap),
    ensures
        is_row(final(curr)@, a@, b@, free, i + 1, cap),
        forall|j: int| 0 <= j < final(curr)@.len() ==> least <= #[trigger] final(curr)@[j],
{
    let n: usize = a.len();
    let m: usize = b.len();
    curr[0] = min_usize(i + 1, cap);
    let mut least: usize = curr[0];
    let mut j: usize = 0;
    while j < m
        invariant
            j <= m,
            m == b@.len(),
            i < n == a@.len(),
            curr@.len() == m + 1,
            is_row(prev@, a@, b@, free, i as int, cap),
            prev_prev@.len() == m + 1,
            i > 0 ==> is_row(prev_prev@, a@, b@, free, i - 1, cap),
            forall|k: int|
                0 <= k <= j ==> #[trigger] curr@[k] == capped(a@, b@, free, i + 1, k, cap),
            forall|k: int| 0 <= k <= j ==> least <= #[trigger] curr@[k],
        decreases m - j,
    {
        let before: usize = if j > 0 {
            prev_prev[j - 1]
        } else {
            0
        };
        let value: usize = cell(
            a,
            b,
            free,
            i,
            j,
            cap,
            prev[j + 1],
            curr[j],
            prev[j],
            before,
        );
        curr[j + 1] = value;
        if value < least {
            least = value;
        }
        j += 1;
    }
    least
}

/// A cap that tells the distances up to `max_distance` from those above.
spec fn cap_above(max_distance: usize) -> usize {
    if max_distance == usize::MAX {
        usize::MAX
    } else {
        (max_distance + 1) as usize
    }
}

/// The last row of the alignment table, its values capped just above `max_distance`; nothing if
/// they are all above `max_distance`.
fn last_row(a: &[char], b: &[char], free: bool, max_distance: usize) -> (res: Option<Vec<usize>>)
    ensures
        match res {
            Some(row) => is_row(row@, a@, b@, free, a@.len() as int, cap_above(max_distance)),
            None => row_exceeds(a@, b@, free, a@.len(), max_distance as nat),
        },
{
    let n: usize = a.len();
    let m: usize = b.len();
    let cap: usize = max_distance.saturating_add(1);
    let mut prev: Vec<usize> = Vec::new();
    let mut prev_prev: Vec<usize> = Vec::new();
    let mut curr: Vec<usize> = Vec::new();
    let mut j: usize = 0;
    while j < m
        invariant
            j <= m == b@.len(),
            prev@.len() == j,
            prev_prev@.len() == j,
            curr@.len() == j,
            forall|k: int|
                0 <= k < j ==> #[trigger] prev@[k] == capped(a@, b@, free, 0, k, cap),
        decreases m - j,
    {
        prev.push(
            if free {
                0
            } else {
                min_usize(j, cap)
            },
        );
        prev_prev.push(cap);
        curr.push(cap);
        j += 1;
    }
    prev.push(
        if free {
            0
        } else {
            min_usize(m, cap)
        },
    );
    prev_prev.push(cap);
    curr.push(cap);
    assert(is_row(prev@, a@, b@, free, 0, cap));

    let mut i: usize = 0;
    while i < n
        invariant
            i <= n == a@.len(),
            cap == cap_above(max_distance),
            prev@.len() == b@.len() + 1,
            curr@.len() == b@.len() + 1,
            is_row(prev@, a@, b@, free, i as int, cap),
            i > 0 ==> is_row(prev_prev@, a@, b@, free, i - 1, cap),
            prev_prev@.len() == b@.len() + 1,
        decreases n - i,
    {
        let least: usize = fill_row(&mut curr, &prev, &prev_prev, a, b, free, i, cap);
        if least > max_distance {
            proof {
                let row = (i + 1) as nat;
                assert forall|k: nat| k <= b@.len() implies #[trigger] alignment(
                    a@,
                    b@,
                    free,
                    row,
                    k,
                ) > max_distance by {
                    assert(least <= curr@[k as int]);
                }
                lemma_row_exceeds(a@, b@, free, row, n as nat, max_distance as nat);
            }
            return None;
        }
        std::mem::swap(&mut prev_prev, &mut prev);
        std::mem::swap(&mut prev, &mut curr);
        i += 1;
    }
    Some(prev)
}

/// The number of edits between two texts, if it is at most `max_distance`.
pub fn bounded_distance(a: &[char], b: &[char], max_distance: usize) -> (res: Option<usize>)
    ensures
        distance(a@, b@) <= max_distance ==> (res matches Some(found) && found == distance(a@, b@)),
        distance(a@, b@) > max_distance ==> res is None,
{
    let n: usize = a.len();
    let m: usize = b.len();
    proof {
        lemma_alignment_bounds(a@, b@, false, n as nat, m as nat);
    }
    let gap: usize = if n < m {
        m - n
    } else {
        n - m
    };
    if gap > max_distance {
        return None;
    }
    match last_row(a, b, false, max_distance) {
        Some(row) => {
            let found: usize = row[m];
            proof {
                let cap = cap_above(max_distance);
                assert(row@[m as int] == capped(a@, b@, false, n as int, m as int, cap));
            }
            if found <= max_distance {
                Some(found)
            } else {
                None
            }
        },
        None => {
            assert(alignment(a@, b@, false, a@.len(), b@.len()) > max_distance);
            None
        },
    }
}

/// The number of edits between two strings, if it is at most `max_distance`. An edit inserts,
/// deletes or replaces one character, or swaps two adjacent ones.
pub fn bounded_damerau_levenshtein(a: &str, b: &str, max_distance: usize) -> (res: Option<usize>)
    ensures
        distance(a@, b@) <= max_distance ==> (res matches Some(found) && found == distance(a@, b@)),
        distance(a@, b@) > max_distance ==> res is None,
{
    let a_chars: Vec<char> = to_chars(a);
    let b_chars: Vec<char> = to_chars(b);
    bounded_distance(a_chars.as_slice(), b_chars.as_slice(), max_distance)
}

// ---------------------------------------------------------------------------------------------
// Matches inside a text
// ---------------------------------------------------------------------------------------------

/// Where a pattern was found inside a text, and with how many edits.
#[derive(Debug, Clone, Copy, PartialEq, Eq)]
pub struct TypoSubstringMatch {
    pub distance: usize,
    pub start: usize,
    pub matched_len: usize,
}

/// The number of edits between a pattern and the closest part of a text that ends at `end`.
pub open spec fn distance_to_part(pattern: Seq<char>, text: Seq<char>, end: nat) -> nat {
    alignment(pattern, text, true, pattern.len(), end)
}

/// The first of the ends from 1 to `last` that is closest to the pattern.
pub open spec fn closest_end(pattern: Seq<char>, text: Seq<char>, last: nat) -> nat
    decreases last,
{
    if last <= 1 {
        1
    } else {
        let end = closest_end(pattern, text, (last - 1) as nat);
        if distance_to_part(pattern, text, last) < distance_to_part(pattern, text, end) {
            last
        } else {
            end
        }
    }
}

/// The match that ends at `end`. A part shorter than the pattern counts from the text's start.
pub open spec fn match_ending_at(
    pattern: Seq<char>,
    text: Seq<char>,
    end: nat,
) -> TypoSubstringMatch {
    TypoSubstringMatch {
        distance: distance_to_part(pattern, text, end) as usize,
        start: if end < pattern.len() {
            0
        } else {
            (end - pattern.len()) as usize
        },
        matched_len: min2(pattern.len(), end) as usize,
    }
}

/// The closest match of a pattern inside a text, if it takes at most `max_distance` edits.
pub open spec fn closest_match(
    pattern: Seq<char>,
    text: Seq<char>,
    max_distance: nat,
) -> Option<TypoSubstringMatch> {
    let end = closest_end(pattern, text, text.len());
    if pattern.len() > 0 && text.len() > 0 && distance_to_part(pattern, text, end) <= max_distance {
        Some(match_ending_at(pattern, text, end))
    } else {
        None
    }
}

/// Whether a match comes before another: by distance, then by start, then by length.
pub open spec fn match_precedes(a: TypoSubstringMatch, b: TypoSubstringMatch) -> bool {
    a.distance < b.distance || (a.distance == b.distance && (a.start < b.start || (a.start
        == b.start && a.matched_len <= b.matched_len)))
}

/// The closest end is closer than every end before it and at least as close as every other.
pub proof fn lemma_closest_end(pattern: Seq<char>, text: Seq<char>, last: nat)
    requires
        last > 0,
    ensures
        1 <= closest_end(pattern, text, last) <= last,
        forall|end: nat|
            1 <= end <= last ==> distance_to_part(
                pattern,
                text,
                closest_end(pattern, text, last),
            ) <= #[trigger] distance_to_part(pattern, text, end),
        forall|end: nat|
            1 <= end < closest_end(pattern, text, last) ==> distance_to_part(
                pattern,
                text,
                closest_end(pattern, text, last),
            ) < #[trigger] distance_to_part(pattern, text, end),
    decreases last,
{
    if last > 1 {
        lemma_closest_end(pattern, text, (last - 1) as nat);
    }
}

/// The closest match precedes the match at every other end.
pub proof fn lemma_closest_match(pattern: Seq<char>, text: Seq<char>, max_distance: nat, end: nat)
    requires
        pattern.len() <= usize::MAX,
        text.len() <= usize::MAX,
        pattern.len() > 0,
        1 <= end <= text.len(),
        distance_to_part(pattern, text, end) <= max_distance,
    ensures
        closest_match(pattern, text, max_distance) matches Some(found) && match_precedes(
            found,
            match_ending_at(pattern, text, end),
        ),
{
    lemma_closest_end(pattern, text, text.len());
    let best = closest_end(pattern, text, text.len());
    lemma_alignment_bounds(pattern, text, true, pattern.len(), best);
    lemma_alignment_bounds(pattern, text, true, pattern.len(), end);
    assert(distance_to_part(pattern, text, best) <= distance_to_part(pattern, text, end));
}

/// The closest match of a pattern inside a text, if it takes at most `max_distance` edits.
pub fn typo_substring_match_chars(
    pattern: &[char],
    text: &[char],
    max_distance: usize,
) -> (res: Option<TypoSubstringMatch>)
    ensures
        res == closest_match(pattern@, text@, max_distance as nat),
{
    let n: usize = pattern.len();
    let m: usize = text.len();
    if n == 0 || m == 0 {
        return None;
    }
    proof {
        lemma_closest_end(pattern@, text@, m as nat);
    }
    match last_row(pattern, text, true, max_distance) {
        Some(row) => {
            let ghost cap = cap_above(max_distance);
            proof {
                assert forall|end: int| 0 <= end <= m implies #[trigger] row@[end] == min2(
                    distance_to_part(pattern@, text@, end as nat),
                    cap as nat,
                ) && distance_to_part(pattern@, text@, end as nat) <= usize::MAX by {
                    lemma_alignment_bounds(pattern@, text@, true, n as nat, end as nat);
                    assert(row@[end] == capped(pattern@, text@, true, n as int, end, cap));
                }
            }
            let mut best: usize = 1;
            let mut last: usize = 1;
            while last < m
                invariant
                    n == pattern@.len(),
                    m == text@.len(),
                    row@.len() == m + 1,
                    1 <= best <= m,
                    1 <= last <= m,
                    cap == cap_above(max_distance),
                    forall|k: int|
                        0 <= k <= m ==> #[trigger] row@[k] == min2(
                            distance_to_part(pattern@, text@, k as nat),
                            cap as nat,
                        ) && distance_to_part(pattern@, text@, k as nat) <= usize::MAX,
                    distance_to_part(
                        pattern@,
                        text@,
                        closest_end(pattern@, text@, last as nat),
                    ) <= max_distance ==> best == closest_end(pattern@, text@, last as nat),
                    distance_to_part(
                        pattern@,
                        text@,
                        closest_end(pattern@, text@, last as nat),
                    ) > max_distance ==> row@[best as int] > max_distance,
                decreases m - last,
            {
                let end: usize = last + 1;
                proof {
                    lemma_closest_end(pattern@, text@, last as nat);
                    let old_best = closest_end(pattern@, text@, last as nat) as int;
                    assert(row@[old_best] <= usize::MAX);
                    assert(row@[end as int] <= usize::MAX);
                }
                if row[end] < row[best] {
                    best = end;
                }
                last = end;
            }
            let found: usize = row[best];
            if found <= max_distance {
                Some(
                    TypoSubstringMatch {
                        distance: found,
                        start: if best < n {
                            0
                        } else {
                            best - n
                        },
                        matched_len: min_usize(n, best),
                    },
                )
            } else {
                None
            }
        },
        None => {
            let ghost end = closest_end(pattern@, text@, m as nat);
            assert(alignment(pattern@, text@, true, n as nat, end) > max_distance);
            None
        },
    }
}

// ---------------------------------------------------------------------------------------------
// Laws
// ---------------------------------------------------------------------------------------------

proof fn lemma_alignment_symmetric(a: Seq<char>, b: Seq<char>, i: nat, j: nat)
    ensures
        alignment(a, b, false, i, j) == alignment(b, a, false, j, i),
    decreases i + j,
{
    if i > 0 && j > 0 {
        lemma_alignment_symmetric(a, b, (i - 1) as nat, j);
        lemma_alignment_symmetric(a, b, i, (j - 1) as nat);
        lemma_alignment_symmetric(a, b, (i - 1) as nat, (j - 1) as nat);
        if i > 1 && j > 1 {
            lemma_alignment_symmetric(a, b, (i - 2) as nat, (j - 2) as nat);
        }
    }
}

/// The distance is the same in both directions.
pub proof fn lemma_distance_symmetric(a: Seq<char>, b: Seq<char>)
    ensures
        distance(a, b) == distance(b, a),
{
    lemma_alignment_symmetric(a, b, a.len(), b.len());
}

proof fn lemma_alignment_zero(a: Seq<char>, b: Seq<char>, i: nat, j: nat)
    requires
        i <= a.len(),
        j <= b.len(),
        alignment(a, b, false, i, j) == 0,
    ensures
        i == j,
        a.take(i as int) =~= b.take(j as int),
    decreases i + j,
{
    if i > 0 && j > 0 {
        lemma_alignment_zero(a, b, (i - 1) as nat, (j - 1) as nat);
        let head_a = a.take(i - 1);
        let head_b = b.take(j - 1);
        assert forall|k: int| 0 <= k < i implies a[k] == b[k] by {
            if k < i - 1 {
                assert(head_a[k] == a[k]);
                assert(head_b[k] == b[k]);
            }
        }
    }
}

proof fn lemma_common_tail(a: Seq<char>, b: Seq<char>, i: nat, j: nat, len: nat)
    requires
        i + len <= a.len(),
        j + len <= b.len(),
        forall|d: int| 0 <= d < len ==> #[trigger] a[i + d] == b[j + d],
    ensures
        alignment(a, b, false, i + len, j + len) <= alignment(a, b, false, i, j),
    decreases len,
{
    if len > 0 {
        lemma_common_tail(a, b, i, j, (len - 1) as nat);
        assert(a[i + (len - 1)] == b[j + (len - 1)]);
    }
}

/// Two texts are at distance zero exactly if they are equal.
pub proof fn lemma_distance_zero(a: Seq<char>, b: Seq<char>)
    ensures
        distance(a, b) == 0 <==> a == b,
{
    if distance(a, b) == 0 {
        lemma_alignment_zero(a, b, a.len(), b.len());
        assert(a.take(a.len() as int) =~= a);
        assert(b.take(b.len() as int) =~= b);
    }
    if a == b {
        lemma_common_tail(a, b, 0, 0, a.len());
    }
}

/// The distance is at least the difference of the lengths and at most the greater length.
pub proof fn lemma_distance_bounds(a: Seq<char>, b: Seq<char>)
    ensures
        distance(a, b) >= a.len() - b.len(),
        distance(a, b) >= b.len() - a.len(),
        distance(a, b) <= a.len() || distance(a, b) <= b.len(),
{
    lemma_alignment_bounds(a, b, false, a.len(), b.len());
}

/// One character typed too many is one edit.
pub proof fn lemma_one_insertion(text: Seq<char>, at: int, ch: char)
    requires
        0 <= at <= text.len(),
    ensures
        distance(text, text.insert(at, ch)) == 1,
{
    let typed = text.insert(at, ch);
    lemma_common_tail(text, typed, 0, 0, at as nat);
    let i = at as nat;
    assert(alignment(text, typed, false, i, i + 1) <= 1);
    lemma_common_tail(text, typed, i, i + 1, (text.len() - at) as nat);
    lemma_distance_bounds(text, typed);
}

/// One character left out is one edit.
pub proof fn lemma_one_deletion(text: Seq<char>, at: int)
    requires
        0 <= at < text.len(),
    ensures
        distance(text, text.remove(at)) == 1,
{
    let typed = text.remove(at);
    assert(typed.insert(at, text[at]) =~= text);
    lemma_one_insertion(typed, at, text[at]);
    lemma_distance_symmetric(typed, text);
}

/// One wrong character is one edit.
pub proof fn lemma_one_replacement(text: Seq<char>, at: int, ch: char)
    requires
        0 <= at < text.len(),
        text[at] != ch,
    ensures
        distance(text, text.update(at, ch)) == 1,
{
    let typed = text.update(at, ch);
    let i = at as nat;
    lemma_common_tail(text, typed, 0, 0, i);
    assert(alignment(text, typed, false, i + 1, i + 1) <= 1);
    lemma_common_tail(text, typed, i + 1, i + 1, (text.len() - at - 1) as nat);
    lemma_distance_zero(text, typed);
    assert(typed[at] == ch);
}

/// Two adjacent characters in the wrong order are one edit.
pub proof fn lemma_one_swap(text: Seq<char>, at: int)
    requires
        0 <= at < text.len() - 1,
        text[at] != text[at + 1],
    ensures
        distance(text, text.update(at, text[at + 1]).update(at + 1, text[at])) == 1,
{
    let typed = text.update(at, text[at + 1]).update(at + 1, text[at]);
    let i = at as nat;
    lemma_common_tail(text, typed, 0, 0, i);
    assert(swapped(text, typed, i + 2, i + 2));
    assert(alignment(text, typed, false, i + 2, i + 2) <= 1);
    lemma_common_tail(text, typed, i + 2, i + 2, (text.len() - at - 2) as nat);
    lemma_distance_zero(text, typed);
    assert(typed[at] == text[at + 1]);
}

proof fn lemma_alignment_prefix(
    a: Seq<char>,
    b: Seq<char>,
    other: Seq<char>,
    free: bool,
    i: nat,
    j: nat,
)
    requires
        forall|k: int| 0 <= k < j ==> #[trigger] b[k] == other[k],
    ensures
        alignment(a, b, free, i, j) == alignment(a, other, free, i, j),
    decreases i + j,
{
    if i > 0 && j > 0 {
        lemma_alignment_prefix(a, b, other, free, (i - 1) as nat, j);
        lemma_alignment_prefix(a, b, other, free, i, (j - 1) as nat);
        lemma_alignment_prefix(a, b, other, free, (i - 1) as nat, (j - 1) as nat);
        if i > 1 && j > 1 {
            lemma_alignment_prefix(a, b, other, free, (i - 2) as nat, (j - 2) as nat);
            assert(b[j - 2] == other[j - 2]);
        }
        assert(b[j - 1] == other[j - 1]);
    }
}

proof fn lemma_free_start_at_most(a: Seq<char>, b: Seq<char>, from: nat, i: nat, j: nat)
    requires
        from + j <= b.len(),
    ensures
        alignment(a, b, true, i, from + j) <= alignment(a, b.skip(from as int), false, i, j),
    decreases i + j,
{
    let part = b.skip(from as int);
    lemma_alignment_bounds(a, b, true, i, from + j);
    if i > 0 && j > 0 {
        lemma_free_start_at_most(a, b, from, (i - 1) as nat, j);
        lemma_free_start_at_most(a, b, from, i, (j - 1) as nat);
        lemma_free_start_at_most(a, b, from, (i - 1) as nat, (j - 1) as nat);
        assert((from + j - 1) as nat == from + (j - 1) as nat);
        assert(part[j - 1] == b[from + j - 1]);
        if i > 1 && j > 1 {
            lemma_free_start_at_most(a, b, from, (i - 2) as nat, (j - 2) as nat);
            assert((from + j - 2) as nat == from + (j - 2) as nat);
            assert(part[j - 2] == b[from + j - 2]);
        }
    }
}

/// Each way to reach a pair of prefixes costs at least what the cheapest does.
proof fn lemma_alignment_at_most(a: Seq<char>, b: Seq<char>, free: bool, i: nat, j: nat)
    requires
        i > 0,
        j > 0,
    ensures
        alignment(a, b, free, i, j) <= alignment(a, b, free, (i - 1) as nat, j) + 1,
        alignment(a, b, free, i, j) <= alignment(a, b, free, i, (j - 1) as nat) + 1,
        alignment(a, b, free, i, j) <= alignment(a, b, free, (i - 1) as nat, (j - 1) as nat) + (
        if a[i - 1] == b[j - 1] {
            0nat
        } else {
            1nat
        }),
        swapped(a, b, i, j) ==> alignment(a, b, free, i, j) <= alignment(
            a,
            b,
            free,
            (i - 2) as nat,
            (j - 2) as nat,
        ) + 1,
{
}

#[verifier::spinoff_prover]
proof fn lemma_free_start_attained(a: Seq<char>, b: Seq<char>, i: nat, j: nat) -> (from: nat)
    requires
        j <= b.len(),
    ensures
        from <= j,
        alignment(a, b.skip(from as int), false, i, (j - from) as nat) <= alignment(
            a,
            b,
            true,
            i,
            j,
        ),
    decreases i + j,
{
    if i == 0 {
        j
    } else if j == 0 {
        0
    } else {
        let whole = alignment(a, b, true, i, j);
        let above = alignment(a, b, true, (i - 1) as nat, j);
        let left = alignment(a, b, true, i, (j - 1) as nat);
        let diagonal = alignment(a, b, true, (i - 1) as nat, (j - 1) as nat);
        if whole == above + 1 {
            let from = lemma_free_start_attained(a, b, (i - 1) as nat, j);
            let part = b.skip(from as int);
            let len = (j - from) as nat;
            assert(alignment(a, part, false, i, len) <= alignment(a, part, false, (i - 1) as nat, len)
                + 1) by {
                if len > 0 {
                    lemma_alignment_at_most(a, part, false, i, len);
                }
            }
            from
        } else if whole == left + 1 {
            let from = lemma_free_start_attained(a, b, i, (j - 1) as nat);
            let part = b.skip(from as int);
            let len = (j - from) as nat;
            lemma_alignment_at_most(a, part, false, i, len);
            assert((len - 1) as nat == (j - 1 - from) as nat);
            from
        } else if swapped(a, b, i, j) && whole == alignment(
            a,
            b,
            true,
            (i - 2) as nat,
            (j - 2) as nat,
        ) + 1 {
            let from = lemma_free_start_attained(a, b, (i - 2) as nat, (j - 2) as nat);
            let part = b.skip(from as int);
            let len = (j - from) as nat;
            assert(part[len - 1] == b[j - 1]);
            assert(part[len - 2] == b[j - 2]);
            lemma_alignment_at_most(a, part, false, i, len);
            assert((len - 2) as nat == (j - 2 - from) as nat);
            from
        } else {
            let from = lemma_free_start_attained(a, b, (i - 1) as nat, (j - 1) as nat);
            let part = b.skip(from as int);
            let len = (j - from) as nat;
            assert(part[len - 1] == b[j - 1]);
            lemma_alignment_at_most(a, part, false, i, len);
            assert((len - 1) as nat == (j - 1 - from) as nat);
            from
        }
    }
}

/// `distance_to_part` is the least distance between the pattern and any part of the text that
/// ends at `end`: no part is closer, and one part is as close.
pub proof fn lemma_distance_to_part(pattern: Seq<char>, text: Seq<char>, end: nat)
    requires
        end <= text.len(),
    ensures
        forall|from: int|
            0 <= from <= end ==> distance_to_part(pattern, text, end) <= distance(
                pattern,
                #[trigger] text.subrange(from, end as int),
            ),
        exists|from: int|
            0 <= from <= end && distance_to_part(pattern, text, end) == distance(
                pattern,
                #[trigger] text.subrange(from, end as int),
            ),
{
    assert forall|from: int| 0 <= from <= end implies distance_to_part(pattern, text, end)
        <= distance(pattern, #[trigger] text.subrange(from, end as int)) by {
        let len = (end - from) as nat;
        lemma_free_start_at_most(pattern, text, from as nat, pattern.len(), len);
        lemma_alignment_prefix(
            pattern,
            text.skip(from),
            text.subrange(from, end as int),
            false,
            pattern.len(),
            len,
        );
    }
    let from = lemma_free_start_attained(pattern, text, pattern.len(), end);
    let part = text.subrange(from as int, end as int);
    lemma_alignment_prefix(
        pattern,
        text.skip(from as int),
        part,
        false,
        pattern.len(),
        (end - from) as nat,
    );
    assert(distance_to_part(pattern, text, end) <= distance(pattern, part));
}

proof fn lemma_prefix_distance(a: Seq<char>, b: Seq<char>, i: nat, j: nat)
    requires
        i <= a.len(),
        j <= b.len(),
    ensures
        alignment(a, b, false, i, j) == distance(a.take(i as int), b.take(j as int)),
{
    let short_a = a.take(i as int);
    let short_b = b.take(j as int);
    lemma_alignment_prefix(a, b, short_b, false, i, j);
    lemma_alignment_symmetric(a, short_b, i, j);
    lemma_alignment_prefix(short_b, a, short_a, false, j, i);
    lemma_alignment_symmetric(short_b, short_a, j, i);
}

/// From an empty text every character is one edit. Between texts that both end in a character, the
/// distance is the least of four ways: to delete the one character, to insert the other, to put the
/// one in place of the other, at no cost if they are the same, and, where the last two characters of
/// the one are those of the other in the other order, to swap them.
pub proof fn lemma_distance_ways(a: Seq<char>, x: char, b: Seq<char>, y: char)
    ensures
        ({
            let d = distance(a.push(x), b.push(y));
            let deleted = distance(a, b.push(y)) + 1;
            let inserted = distance(a.push(x), b) + 1;
            let replaced = distance(a, b) + if x == y {
                0int
            } else {
                1int
            };
            let swap = a.len() > 0 && b.len() > 0 && x == b.last() && y == a.last();
            let moved = distance(a.drop_last(), b.drop_last()) + 1;
            &&& distance(a, seq![]) == a.len()
            &&& distance(seq![], b) == b.len()
            &&& d <= deleted
            &&& d <= inserted
            &&& d <= replaced
            &&& swap ==> d <= moved
            &&& d == deleted || d == inserted || d == replaced || (swap && d == moved)
        }),
{
    let ax = a.push(x);
    let by = b.push(y);
    let i = a.len();
    let j = b.len();
    lemma_prefix_distance(ax, by, i, (j + 1) as nat);
    lemma_prefix_distance(ax, by, (i + 1) as nat, j);
    lemma_prefix_distance(ax, by, i, j);
    assert(ax.take(i as int) =~= a);
    assert(by.take(j as int) =~= b);
    assert(ax.take((i + 1) as int) =~= ax);
    assert(by.take((j + 1) as int) =~= by);
    if i > 0 && j > 0 {
        lemma_prefix_distance(ax, by, (i - 1) as nat, (j - 1) as nat);
        assert(ax.take(i - 1) =~= a.drop_last());
        assert(by.take(j - 1) =~= b.drop_last());
    }
}

/// A pattern has a match inside a text just where some part of the text is close enough to it. The
/// match tells the least distance to any part; of the ends of the closest parts it takes the first,
/// and counts as many characters back from it as the pattern has, or all there are.
pub proof fn lemma_closest_part(pattern: Seq<char>, text: Seq<char>, max_distance: nat)
    requires
        pattern.len() <= usize::MAX,
        text.len() <= usize::MAX,
    ensures
        pattern.len() == 0 || text.len() == 0 ==> closest_match(pattern, text, max_distance) is None,
        closest_match(pattern, text, max_distance) is None && pattern.len() > 0 ==> forall|
            from: int,
            end: int,
        |
            0 <= from <= end <= text.len() && end > 0 ==> distance(
                pattern,
                #[trigger] text.subrange(from, end),
            ) > max_distance,
        closest_match(pattern, text, max_distance) is Some ==> {
            let found = closest_match(pattern, text, max_distance)->0;
            &&& found.distance <= max_distance
            &&& forall|from: int, end: int|
                0 <= from <= end <= text.len() && end > 0 ==> found.distance <= distance(
                    pattern,
                    #[trigger] text.subrange(from, end),
                )
            &&& exists|from: int, end: int|
                {
                    &&& 0 <= from <= end <= text.len()
                    &&& end > 0
                    &&& found.distance == distance(pattern, #[trigger] text.subrange(from, end))
                    &&& found.start == if end > pattern.len() {
                        end - pattern.len()
                    } else {
                        0
                    }
                    &&& found.matched_len == if end > pattern.len() {
                        pattern.len() as int
                    } else {
                        end
                    }
                    &&& forall|other: int, before: int|
                        0 <= other <= before < end && before > 0 ==> found.distance < distance(
                            pattern,
                            #[trigger] text.subrange(other, before),
                        )
                }
        },
{
    if pattern.len() > 0 && text.len() > 0 {
        lemma_closest_end(pattern, text, text.len());
        let best = closest_end(pattern, text, text.len());
        let least = distance_to_part(pattern, text, best);
        lemma_alignment_bounds(pattern, text, true, pattern.len(), best);
        assert forall|from: int, end: int| 0 <= from <= end <= text.len() && end > 0 implies least
            <= distance(pattern, #[trigger] text.subrange(from, end)) && (end < best ==> least
            < distance(pattern, text.subrange(from, end))) by {
            lemma_distance_to_part(pattern, text, end as nat);
            assert(least <= distance_to_part(pattern, text, end as nat));
        }
        lemma_distance_to_part(pattern, text, best);
        let from = choose|from: int|
            0 <= from <= best && distance_to_part(pattern, text, best) == distance(
                pattern,
                #[trigger] text.subrange(from, best as int),
            );
        assert(least == distance(pattern, text.subrange(from, best as int)));
    } else {
        assert forall|from: int, end: int|
            pattern.len() > 0 && 0 <= from <= end <= text.len() && end > 0 implies distance(
            pattern,
            #[trigger] text.subrange(from, end),
        ) > max_distance by {}
    }
}

} // verus!
