//! What holds of every index, every list of results and every score, told by the entries, scores and
//! texts themselves.
use vstd::prelude::*;

use crate::desktop::EntryView;
use crate::order::{
    key_less, key_views, lemma_precedes_strict, lemma_rank_order, precedes, rank_order, ranked,
    text_less, RankKey,
};
use crate::search::{
    doc_key, doc_result, found, hits, indexed, normalized, result_key, result_views, search_results,
    DocView, ResultView, SearchResult,
};
use crate::text::decimal;
use crate::unicode::lowercase;

verus! {

// ---------------------------------------------------------------------------------------------
// The order of results
// ---------------------------------------------------------------------------------------------

/// Where the entries that match a query stand in the index.
proof fn lemma_hit_places(docs: Seq<DocView>, query: Seq<char>) -> (places: Seq<int>)
    ensures
        places.len() == hits(docs, query).len(),
        forall|i: int|
            0 <= i < places.len() ==> 0 <= #[trigger] places[i] < docs.len() && doc_result(
                docs[places[i]],
                query,
            ) == Some(hits(docs, query)[i]),
        forall|i: int, j: int|
            0 <= i < j < places.len() ==> #[trigger] places[i] < #[trigger] places[j],
        forall|p: int|
            0 <= p < docs.len() && doc_result(#[trigger] docs[p], query) is Some
                ==> places.contains(p),
    decreases docs.len(),
{
    if docs.len() == 0 {
        Seq::empty()
    } else {
        let before = docs.drop_last();
        let last = docs.len() - 1;
        let old_places = lemma_hit_places(before, query);
        let places = if doc_result(docs.last(), query) is Some {
            old_places.push(last)
        } else {
            old_places
        };
        assert forall|i: int| 0 <= i < places.len() implies 0 <= #[trigger] places[i] < docs.len()
            && doc_result(docs[places[i]], query) == Some(hits(docs, query)[i]) by {
            if i < old_places.len() {
                assert(places[i] == old_places[i]);
                assert(before[old_places[i]] == docs[places[i]]);
            }
        }
        assert forall|p: int|
            0 <= p < docs.len() && doc_result(
                #[trigger] docs[p],
                query,
            ) is Some implies places.contains(p) by {
            if p < last {
                assert(before[p] == docs[p]);
                assert(old_places.contains(p));
                let i = choose|i: int| 0 <= i < old_places.len() && old_places[i] == p;
                assert(places[i] == p);
            } else {
                assert(places[places.len() - 1] == p);
            }
        }
        places
    }
}

/// What is listed for a query, and from which places of the index. Results stand by score, the
/// greatest first; those of one score by directory, the first searched first; those of one
/// directory by lowercase name; and those of one such name as they stand in the index. Each comes
/// from another entry. An entry that matches and is not listed comes after all that are, and only the
/// limit keeps it out.
pub proof fn lemma_results(docs: Seq<DocView>, query: Seq<char>, limit: nat) -> (places: Seq<int>)
    requires
        query.len() > 0,
    ensures
        ({
            let results = found(docs, query, limit);
            &&& places.len() == results.len()
            &&& results.len() <= limit
            &&& forall|i: int|
                0 <= i < results.len() ==> 0 <= #[trigger] places[i] < docs.len() && doc_result(
                    docs[places[i]],
                    query,
                ) == Some(results[i])
            &&& forall|i: int, j: int|
                0 <= i < j < results.len() ==> #[trigger] places[i] != #[trigger] places[j]
            &&& forall|i: int, j: int|
                0 <= i < j < results.len() ==> {
                    let a = #[trigger] results[i];
                    let b = #[trigger] results[j];
                    ||| a.score > b.score
                    ||| (a.score == b.score && a.entry.source_rank < b.entry.source_rank)
                    ||| (a.score == b.score && a.entry.source_rank == b.entry.source_rank
                        && text_less(lowercase(a.entry.name), lowercase(b.entry.name)))
                    ||| (a.score == b.score && a.entry.source_rank == b.entry.source_rank
                        && lowercase(a.entry.name) == lowercase(b.entry.name) && places[i]
                        < places[j])
                }
            &&& forall|i: int, p: int|
                0 <= i < results.len() && 0 <= p < docs.len() && !places.contains(p) && doc_result(
                    #[trigger] docs[p],
                    query,
                ) is Some ==> {
                    let a = #[trigger] results[i];
                    let b = doc_result(docs[p], query)->0;
                    ||| a.score > b.score
                    ||| (a.score == b.score && a.entry.source_rank < b.entry.source_rank)
                    ||| (a.score == b.score && a.entry.source_rank == b.entry.source_rank
                        && text_less(lowercase(a.entry.name), lowercase(b.entry.name)))
                    ||| (a.score == b.score && a.entry.source_rank == b.entry.source_rank
                        && lowercase(a.entry.name) == lowercase(b.entry.name) && places[i] < p)
                }
            &&& forall|p: int|
                0 <= p < docs.len() && !places.contains(p) && doc_result(
                    #[trigger] docs[p],
                    query,
                ) is Some ==> results.len() == limit
        }),
{
    let all = hits(docs, query);
    let at = lemma_hit_places(docs, query);
    let keys = Seq::new(all.len(), |i: int| result_key(all[i]));
    let order = rank_order(keys);
    lemma_rank_order(keys);
    let results = found(docs, query, limit);
    let places = Seq::new(results.len(), |i: int| at[order[i]]);
    assert forall|i: int| 0 <= i < results.len() implies results[i] == all[order[i]] && 0
        <= #[trigger] places[i] < docs.len() && doc_result(docs[places[i]], query) == Some(
        results[i],
    ) by {
        assert(0 <= order[i] < keys.len());
        assert(places[i] == at[order[i]]);
    }
    assert forall|i: int, j: int| 0 <= i < j < results.len() implies #[trigger] places[i]
        != #[trigger] places[j] && precedes(keys, order[i], order[j]) by {
        assert(precedes(keys, order[i], order[j]));
        lemma_precedes_strict(keys, order[i], order[j], order[i]);
        if order[i] < order[j] {
            assert(at[order[i]] < at[order[j]]);
        } else {
            assert(at[order[j]] < at[order[i]]);
        }
    }
    assert forall|i: int, j: int| 0 <= i < j < results.len() implies {
        let a = #[trigger] results[i];
        let b = #[trigger] results[j];
        ||| a.score > b.score
        ||| (a.score == b.score && a.entry.source_rank < b.entry.source_rank)
        ||| (a.score == b.score && a.entry.source_rank == b.entry.source_rank && text_less(
            lowercase(a.entry.name),
            lowercase(b.entry.name),
        ))
        ||| (a.score == b.score && a.entry.source_rank == b.entry.source_rank && lowercase(
            a.entry.name,
        ) == lowercase(b.entry.name) && places[i] < places[j])
    } by {
        assert(places[i] != places[j]);
        assert(precedes(keys, order[i], order[j]));
        assert(keys[order[i]] == result_key(results[i]));
        assert(keys[order[j]] == result_key(results[j]));
        if order[i] < order[j] {
            assert(at[order[i]] < at[order[j]]);
        }
    }
    assert forall|p: int|
        0 <= p < docs.len() && !places.contains(p) && doc_result(
            #[trigger] docs[p],
            query,
        ) is Some implies results.len() == limit && exists|m: int|
        results.len() <= m < order.len() && at[#[trigger] order[m]] == p by {
        assert(at.contains(p));
        let k = choose|k: int| 0 <= k < at.len() && at[k] == p;
        assert(order.contains(k));
        let m = choose|m: int| 0 <= m < order.len() && order[m] == k;
        if m < results.len() {
            assert(places[m] == p);
        }
        assert(at[order[m]] == p);
    }
    assert forall|i: int, p: int|
        0 <= i < results.len() && 0 <= p < docs.len() && !places.contains(p) && doc_result(
            #[trigger] docs[p],
            query,
        ) is Some implies {
        let a = #[trigger] results[i];
        let b = doc_result(docs[p], query)->0;
        ||| a.score > b.score
        ||| (a.score == b.score && a.entry.source_rank < b.entry.source_rank)
        ||| (a.score == b.score && a.entry.source_rank == b.entry.source_rank && text_less(
            lowercase(a.entry.name),
            lowercase(b.entry.name),
        ))
        ||| (a.score == b.score && a.entry.source_rank == b.entry.source_rank && lowercase(
            a.entry.name,
        ) == lowercase(b.entry.name) && places[i] < p)
    } by {
        let m = choose|m: int| results.len() <= m < order.len() && at[#[trigger] order[m]] == p;
        assert(precedes(keys, order[i], order[m]));
        assert(0 <= order[m] < keys.len());
        assert(0 <= order[i] < keys.len());
        assert(keys[order[i]] == result_key(results[i]));
        assert(keys[order[m]] == result_key(all[order[m]]));
        assert(doc_result(docs[at[order[m]]], query) == Some(all[order[m]]));
        assert(places[i] == at[order[i]]);
        if order[i] < order[m] {
            assert(at[order[i]] < at[order[m]]);
        }
    }
    places
}

/// For a query of which anything is left in its normal form, no result has a lower score than one
/// that is listed after it, and no entry that matches and was left out has a higher score than one
/// that is listed.
pub proof fn lemma_best_first(docs: Seq<DocView>, query: Seq<char>, limit: nat)
    requires
        normalized(query).len() > 0,
    ensures
        ({
            let results = search_results(docs, query, limit);
            &&& results.len() <= limit
            &&& forall|i: int, j: int|
                0 <= i < j < results.len() ==> (#[trigger] results[i]).score >= (
                #[trigger] results[j]).score
            &&& forall|i: int, j: int|
                0 <= i < j < results.len() && (#[trigger] results[i]).score == (
                #[trigger] results[j]).score ==> results[i].entry.source_rank
                    <= results[j].entry.source_rank
            &&& forall|p: int, i: int|
                0 <= p < docs.len() && 0 <= i < results.len() && doc_result(
                    #[trigger] docs[p],
                    normalized(query),
                ) is Some && !results.contains(doc_result(docs[p], normalized(query))->0)
                    ==> doc_result(docs[p], normalized(query))->0.score <= (
                #[trigger] results[i]).score
            &&& results.len() < limit ==> forall|p: int|
                0 <= p < docs.len() && doc_result(#[trigger] docs[p], normalized(query)) is Some
                    ==> results.contains(doc_result(docs[p], normalized(query))->0)
        }),
{
    let form = normalized(query);
    let results = search_results(docs, query, limit);
    let places = lemma_results(docs, form, limit);
    assert forall|p: int|
        0 <= p < docs.len() && doc_result(#[trigger] docs[p], form) is Some && places.contains(
            p,
        ) implies results.contains(doc_result(docs[p], form)->0) by {
        let i = choose|i: int| 0 <= i < places.len() && places[i] == p;
        assert(doc_result(docs[places[i]], form) == Some(results[i]));
    }
    assert forall|p: int, i: int|
        0 <= p < docs.len() && 0 <= i < results.len() && doc_result(
            #[trigger] docs[p],
            form,
        ) is Some && !results.contains(doc_result(docs[p], form)->0) implies doc_result(
        docs[p],
        form,
    )->0.score <= (#[trigger] results[i]).score by {
        assert(!places.contains(p));
        let a = results[i];
    }
}

// ---------------------------------------------------------------------------------------------
// The index
// ---------------------------------------------------------------------------------------------

/// The order of the index, and which entry stands where. Every entry stands in it once, with the
/// number of launches that the history has for its name, or none. The most launched stand first;
/// those with as many launches by directory, then by lowercase name, then as they were given.
pub proof fn lemma_index(entries: Seq<EntryView>, counts: Map<Seq<char>, u32>) -> (places: Seq<int>)
    ensures
        ({
            let docs = indexed(entries, counts);
            &&& docs.len() == entries.len()
            &&& places.len() == docs.len()
            &&& forall|p: int| 0 <= p < entries.len() ==> #[trigger] places.contains(p)
            &&& forall|i: int, j: int|
                0 <= i < j < docs.len() ==> #[trigger] places[i] != #[trigger] places[j]
            &&& forall|i: int|
                0 <= i < docs.len() ==> 0 <= #[trigger] places[i] < entries.len() && docs[i].entry
                    == entries[places[i]] && docs[i].history_count == if counts.contains_key(
                    entries[places[i]].name,
                ) {
                    counts[entries[places[i]].name]
                } else {
                    0
                }
            &&& forall|i: int, j: int|
                0 <= i < j < docs.len() ==> {
                    let a = #[trigger] docs[i];
                    let b = #[trigger] docs[j];
                    let same = a.history_count == b.history_count;
                    ||| a.history_count > b.history_count
                    ||| (same && a.entry.source_rank < b.entry.source_rank)
                    ||| (same && a.entry.source_rank == b.entry.source_rank && text_less(
                        lowercase(a.entry.name),
                        lowercase(b.entry.name),
                    ))
                    ||| (same && a.entry.source_rank == b.entry.source_rank && lowercase(
                        a.entry.name,
                    ) == lowercase(b.entry.name) && places[i] < places[j])
                }
        }),
{
    let given = Seq::new(
        entries.len(),
        |i: int|
            DocView {
                entry: entries[i],
                history_count: crate::history::count_of(counts, entries[i].name),
            },
    );
    let keys = Seq::new(given.len(), |i: int| doc_key(given[i]));
    let order = rank_order(keys);
    lemma_rank_order(keys);
    let docs = indexed(entries, counts);
    assert forall|i: int| 0 <= i < docs.len() implies docs[i] == given[order[i]] && 0
        <= #[trigger] order[i] < entries.len() && docs[i].entry == entries[order[i]] by {}
    assert forall|i: int, j: int| 0 <= i < j < docs.len() implies #[trigger] order[i]
        != #[trigger] order[j] by {
        assert(precedes(keys, order[i], order[j]));
        lemma_precedes_strict(keys, order[i], order[j], order[i]);
    }
    assert forall|i: int, j: int| 0 <= i < j < docs.len() implies {
        let a = #[trigger] docs[i];
        let b = #[trigger] docs[j];
        let same = a.history_count == b.history_count;
        ||| a.history_count > b.history_count
        ||| (same && a.entry.source_rank < b.entry.source_rank)
        ||| (same && a.entry.source_rank == b.entry.source_rank && text_less(
            lowercase(a.entry.name),
            lowercase(b.entry.name),
        ))
        ||| (same && a.entry.source_rank == b.entry.source_rank && lowercase(a.entry.name)
            == lowercase(b.entry.name) && order[i] < order[j])
    } by {
        assert(precedes(keys, order[i], order[j]));
        assert(keys[order[i]] == doc_key(docs[i]));
        assert(keys[order[j]] == doc_key(docs[j]));
    }
    order
}

/// While nothing is left of the query, the index is listed from its start, as far as the limit goes:
/// each entry with the score and the reason of its launches.
pub proof fn lemma_nothing_asked(docs: Seq<DocView>, query: Seq<char>, limit: nat, i: int)
    requires
        normalized(query).len() == 0,
        0 <= i < docs.len(),
        i < limit,
    ensures
        ({
            let results = search_results(docs, query, limit);
            let count = docs[i].history_count;
            &&& results.len() == if docs.len() < limit {
                docs.len()
            } else {
                limit
            }
            &&& results[i].entry == docs[i].entry
            &&& count == 0 ==> results[i].score == 0 && results[i].reason == "empty-query"@
            &&& 0 < count < 10_000 ==> results[i].score == 20_000 + 10 * count
            &&& count >= 10_000 ==> results[i].score == 120_000
            &&& count > 0 ==> results[i].reason == "history:"@ + decimal(count as nat)
        }),
{
}

/// Nothing is listed of an empty index, nor where nothing may be listed. A search is a search for
/// the normal form of what was typed.
pub proof fn lemma_nothing_listed(docs: Seq<DocView>, query: Seq<char>, limit: nat)
    ensures
        search_results(seq![], query, limit).len() == 0,
        search_results(docs, query, 0).len() == 0,
        search_results(docs, query, limit) == found(docs, normalized(query), limit),
{
}

/// What the models of results hold: all of their parts, in order.
pub proof fn lemma_result_model(result: SearchResult, results: Seq<SearchResult>)
    ensures
        result_views(results).len() == results.len(),
        forall|i: int| 0 <= i < results.len() ==> #[trigger] result_views(results)[i] == results[i]@,
        result@ == (ResultView {
            score: result.score,
            reason: result.reason@,
            entry: result.entry@,
        }),
{
}

// ---------------------------------------------------------------------------------------------
// Lists by rank
// ---------------------------------------------------------------------------------------------

/// Items are listed by their keys: a greater weight first, then a smaller rank, then a smaller name,
/// and items of equal keys as they were given. Each item is listed once.
pub proof fn lemma_listed_by_key<T>(items: Seq<T>, keys: Seq<RankKey>) -> (places: Seq<int>)
    requires
        items.len() == keys.len(),
    ensures
        ({
            let listed = ranked(items, key_views(keys));
            &&& listed.len() == items.len()
            &&& places.len() == items.len()
            &&& forall|p: int| 0 <= p < items.len() ==> #[trigger] places.contains(p)
            &&& forall|i: int|
                0 <= i < items.len() ==> 0 <= #[trigger] places[i] < items.len() && listed[i]
                    == items[places[i]]
            &&& forall|i: int, j: int|
                0 <= i < j < items.len() ==> {
                    let a = keys[#[trigger] places[i]];
                    let b = keys[#[trigger] places[j]];
                    ||| a.weight > b.weight
                    ||| (a.weight == b.weight && a.rank < b.rank)
                    ||| (a.weight == b.weight && a.rank == b.rank && text_less(a.name@, b.name@))
                    ||| (a.weight == b.weight && a.rank == b.rank && a.name@ == b.name@ && places[i]
                        < places[j])
                }
        }),
{
    let views = key_views(keys);
    let order = rank_order(views);
    lemma_rank_order(views);
    assert forall|i: int, j: int| 0 <= i < j < items.len() implies {
        let a = keys[#[trigger] order[i]];
        let b = keys[#[trigger] order[j]];
        ||| a.weight > b.weight
        ||| (a.weight == b.weight && a.rank < b.rank)
        ||| (a.weight == b.weight && a.rank == b.rank && text_less(a.name@, b.name@))
        ||| (a.weight == b.weight && a.rank == b.rank && a.name@ == b.name@ && order[i] < order[j])
    } by {
        assert(precedes(views, order[i], order[j]));
        assert(views[order[i]] == keys[order[i]]@);
        assert(views[order[j]] == keys[order[j]]@);
    }
    order
}

/// One key comes before another by a greater weight, or else by a smaller rank, or else by a smaller
/// name.
pub proof fn lemma_key_before(a: RankKey, b: RankKey)
    ensures
        key_less(a@, b@) <==> {
            ||| a.weight > b.weight
            ||| (a.weight == b.weight && a.rank < b.rank)
            ||| (a.weight == b.weight && a.rank == b.rank && text_less(a.name@, b.name@))
        },
{
}

} // verus!
