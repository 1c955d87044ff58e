//! What the command line prints: shortened texts, and the timings of a profile.
use vstd::prelude::*;

use crate::search::SearchResult;
use crate::text::{from_chars, option_view, string_views, to_chars};

verus! {

/// A text, or its start and an ellipsis where it has more than `max_chars` characters. The ellipsis
/// stands even where there is no room for it.
pub open spec fn truncated(text: Seq<char>, max_chars: nat) -> Seq<char> {
    if text.len() <= max_chars {
        text
    } else if max_chars == 0 {
        seq!['\u{2026}']
    } else {
        text.take(max_chars - 1).push('\u{2026}')
    }
}

/// The text, or its start and an ellipsis where it has more than `max_chars` characters.
pub fn truncate(text: &str, max_chars: usize) -> (res: String)
    ensures
        res@ == truncated(text@, max_chars as nat),
{
    let chars: Vec<char> = to_chars(text);
    if chars.len() <= max_chars {
        return text.to_owned();
    }
    let kept: usize = if max_chars > 0 {
        max_chars - 1
    } else {
        0
    };
    let head = vstd::slice::slice_subrange(chars.as_slice(), 0, kept);
    let mut out: String = from_chars(head);
    out.push('\u{2026}');
    assert(out@ =~= truncated(text@, max_chars as nat));
    out
}

/// A shortened text starts as the whole one does and fits, unless it is to have no characters at
/// all.
pub proof fn lemma_truncated(text: Seq<char>, max_chars: nat)
    requires
        max_chars > 0,
    ensures
        truncated(text, max_chars).len() <= max_chars,
        text.len() <= max_chars ==> truncated(text, max_chars) == text,
        text.len() > max_chars ==> truncated(text, max_chars).len() == max_chars && truncated(
            text,
            max_chars,
        ).drop_last() == text.take(max_chars - 1),
{
    if text.len() > max_chars {
        assert(truncated(text, max_chars).drop_last() =~= text.take(max_chars - 1));
    }
}

/// The queries of a profile: the given ones, or else these.
pub open spec fn queries_of(given: Seq<Seq<char>>) -> Seq<Seq<char>> {
    if given.len() == 0 {
        seq!["firefox"@, "chrmoe"@, "hotspot"@]
    } else {
        given
    }
}

/// The queries of a profile: the given ones, or else the usual ones.
pub fn profile_queries(given: Vec<String>) -> (res: Vec<String>)
    ensures
        string_views(res@) == queries_of(string_views(given@)),
{
    if given.len() > 0 {
        assert(string_views(given@).len() > 0);
        return given;
    }
    assert(string_views(given@).len() == 0);
    let mut out: Vec<String> = Vec::new();
    out.push("firefox".to_owned());
    out.push("chrmoe".to_owned());
    out.push("hotspot".to_owned());
    assert(string_views(out@) =~= seq!["firefox"@, "chrmoe"@, "hotspot"@]);
    out
}

/// Why there is no profile.
#[derive(Debug, Clone, Copy, PartialEq, Eq, Structural)]
pub enum ProfileError {
    /// No runs are asked for.
    NoRuns,
}

/// The model of queries that may be missing.
pub open spec fn plan_view(res: Result<Vec<String>, ProfileError>) -> Result<
    Seq<Seq<char>>,
    ProfileError,
> {
    match res {
        Ok(queries) => Ok(string_views(queries@)),
        Err(error) => Err(error),
    }
}

/// The queries of a profile with `runs` runs of each. A profile needs a run.
pub fn profile_plan(runs: usize, given: Vec<String>) -> (res: Result<Vec<String>, ProfileError>)
    ensures
        plan_view(res) == if runs == 0 {
            Err(ProfileError::NoRuns)
        } else {
            Ok(queries_of(string_views(given@)))
        },
{
    if runs == 0 {
        return Err(ProfileError::NoRuns);
    }
    Ok(profile_queries(given))
}

/// The timings of some runs in nanoseconds.
#[derive(Debug, Clone, Copy, PartialEq, Eq)]
pub struct Timings {
    pub total: u128,
    pub min: u128,
    pub max: u128,
}

/// The sum of some durations.
pub open spec fn sum(durations: Seq<u128>) -> int
    decreases durations.len(),
{
    if durations.len() == 0 {
        0
    } else {
        sum(durations.drop_last()) + durations.last()
    }
}

/// Whether timings are those of some runs: their sum, and the least and the greatest of them. Of no
/// runs the least is the greatest number there is, and the greatest is zero.
pub open spec fn times(timings: Timings, durations: Seq<u128>) -> bool {
    &&& timings.total == sum(durations)
    &&& forall|i: int| 0 <= i < durations.len() ==> timings.min <= #[trigger] durations[i] <= timings.max
    &&& if durations.len() == 0 {
        timings.min == u128::MAX && timings.max == 0
    } else {
        durations.contains(timings.min) && durations.contains(timings.max)
    }
}

impl Timings {
    /// The timings of no runs.
    pub fn new() -> (res: Self)
        ensures
            times(res, seq![]),
            res == (Timings { total: 0, min: u128::MAX, max: 0 }),
    {
        Timings { total: 0, min: u128::MAX, max: 0 }
    }

    /// Takes in one more run.
    pub fn record(&mut self, elapsed: u128)
        requires
            old(self).total + elapsed <= u128::MAX,
        ensures
            final(self).total == old(self).total + elapsed,
            final(self).min == if elapsed < old(self).min {
                elapsed
            } else {
                old(self).min
            },
            final(self).max == if elapsed > old(self).max {
                elapsed
            } else {
                old(self).max
            },
            forall|durations: Seq<u128>| #[trigger]
                times(*old(self), durations) ==> times(*final(self), durations.push(elapsed)),
    {
        let ghost before = *self;
        self.total = self.total + elapsed;
        if elapsed < self.min {
            self.min = elapsed;
        }
        if elapsed > self.max {
            self.max = elapsed;
        }
        proof {
            assert forall|durations: Seq<u128>| #[trigger] times(before, durations) implies times(
                *self,
                durations.push(elapsed),
            ) by {
                let more = durations.push(elapsed);
                assert(more.drop_last() =~= durations);
                assert(more[durations.len() as int] == elapsed);
                assert forall|i: int| 0 <= i < more.len() implies self.min <= #[trigger] more[i]
                    <= self.max by {
                    if i < durations.len() {
                        assert(more[i] == durations[i]);
                    }
                }
                if durations.len() > 0 {
                    let i = choose|i: int| 0 <= i < durations.len() && durations[i] == before.min;
                    let k = choose|k: int| 0 <= k < durations.len() && durations[k] == before.max;
                    assert(more[i] == before.min);
                    assert(more[k] == before.max);
                }
            }
        }
    }
}

/// What the runs of one query came to.
#[derive(Debug, PartialEq, Eq)]
pub struct QueryProfile {
    pub query: String,
    pub runs: usize,
    pub timings: Timings,
    /// How many results the last run gave.
    pub result_count: usize,
    /// The name of the best result of the last run.
    pub best_match: Option<String>,
}

/// The model of a [`QueryProfile`].
#[verifier::ext_equal]
pub struct ProfileView {
    pub query: Seq<char>,
    pub runs: nat,
    pub timings: Timings,
    pub result_count: nat,
    pub best_match: Option<Seq<char>>,
}

impl View for QueryProfile {
    type V = ProfileView;

    open spec fn view(&self) -> ProfileView {
        ProfileView {
            query: self.query@,
            runs: self.runs as nat,
            timings: self.timings,
            result_count: self.result_count as nat,
            best_match: option_view(self.best_match),
        }
    }
}

/// What the runs of one query came to, from their timings and the results of the last one.
pub fn query_profile(
    query: String,
    runs: usize,
    timings: Timings,
    results: &Vec<SearchResult>,
) -> (res: QueryProfile)
    ensures
        res@ == (ProfileView {
            query: query@,
            runs: runs as nat,
            timings,
            result_count: results@.len(),
            best_match: if results@.len() > 0 {
                Some(results@[0].entry.name@)
            } else {
                None
            },
        }),
{
    let best_match: Option<String> = if results.len() > 0 {
        Some(results[0].entry.name.clone())
    } else {
        None
    };
    QueryProfile { query, runs, timings, result_count: results.len(), best_match }
}

/// The total lies between the least and the greatest duration, each taken once for every run.
pub proof fn lemma_times(timings: Timings, durations: Seq<u128>)
    requires
        times(timings, durations),
        durations.len() > 0,
    ensures
        timings.min <= timings.max,
        timings.min * durations.len() <= timings.total <= timings.max * durations.len(),
{
    lemma_sum(durations, timings.min as int, timings.max as int);
    assert(timings.min <= durations[0] <= timings.max);
}

proof fn lemma_sum(durations: Seq<u128>, least: int, greatest: int)
    requires
        forall|i: int| 0 <= i < durations.len() ==> least <= #[trigger] durations[i] <= greatest,
    ensures
        least * durations.len() <= sum(durations) <= greatest * durations.len(),
    decreases durations.len(),
{
    if durations.len() > 0 {
        let head = durations.drop_last();
        assert forall|i: int| 0 <= i < head.len() implies least <= #[trigger] head[i] <= greatest by {
            assert(head[i] == durations[i]);
        }
        lemma_sum(head, least, greatest);
        let count = head.len() as int;
        assert(least * (count + 1) == least * count + least) by (nonlinear_arith);
        assert(greatest * (count + 1) == greatest * count + greatest) by (nonlinear_arith);
        assert(least <= durations[durations.len() - 1] <= greatest);
    }
}

} // verus!
