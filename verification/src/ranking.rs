//! What holds of every search.
use vstd::prelude::*;

use crate::desktop::EntryView;
use crate::distance::{
    closest_match, distance, lemma_closest_end, lemma_one_deletion, lemma_one_insertion, lemma_one_replacement, lemma_one_swap,
};
use crate::history::count_of;
use crate::order::{key_less, lemma_ranked, rank_order, ranked};
use crate::search::{
    ascii_normal_form, ascii_spaced, at_most, best_field, best_word_score, budget, compacted,
    doc_key, doc_result, fields_of, folded, hits, indexed, initials, is_normal, launch_score,
    lemma_compacted, match_score, normal_form, normalized, occurrence, occurs_at, result_key, search_results,
    source_boost, spaced, subsequence_gaps, token_score, whole_query_score, with_tokens, word_score,
    DocView, FieldView, ResultView, Scored,
};
use crate::text::{
    ascii, ascii_lower, byte_len, lemma_byte_len_concat, lemma_word_len, position, white_space, word_len, words,
};
use crate::unicode::{
    alphanumeric, ascii_alphanumeric, combining_mark, compatibility_decomposition,
    lowercase_mapping,
};

verus! {

// ---------------------------------------------------------------------------------------------
// The index
// ---------------------------------------------------------------------------------------------

/// An index holds each entry once, with its launch count, and an entry never stands after one that
/// it goes before: by launches, then by directory, then by lowercase name.
pub proof fn lemma_indexed(entries: Seq<EntryView>, counts: Map<Seq<char>, u32>)
    ensures
        indexed(entries, counts).len() == entries.len(),
        forall|i: int|
            0 <= i < entries.len() ==> entries.contains(
                (#[trigger] indexed(entries, counts)[i]).entry,
            ) && indexed(entries, counts)[i].history_count == count_of(
                counts,
                indexed(entries, counts)[i].entry.name,
            ),
        forall|e: int|
            0 <= e < entries.len() ==> indexed(entries, counts).contains(
                (DocView {
                    entry: #[trigger] entries[e],
                    history_count: count_of(counts, entries[e].name),
                }),
            ),
        forall|i: int, j: int|
            0 <= i < j < entries.len() ==> !key_less(
                doc_key(#[trigger] indexed(entries, counts)[j]),
                doc_key(#[trigger] indexed(entries, counts)[i]),
            ),
{
    let docs = Seq::new(
        entries.len(),
        |i: int| DocView { entry: entries[i], history_count: count_of(counts, entries[i].name) },
    );
    let keys = Seq::new(docs.len(), |i: int| doc_key(docs[i]));
    lemma_ranked(docs, keys);
    let order = rank_order(keys);
    let index = indexed(entries, counts);
    assert forall|i: int| 0 <= i < entries.len() implies entries.contains(
        (#[trigger] index[i]).entry,
    ) && index[i].history_count == count_of(counts, index[i].entry.name) by {
        assert(index[i] == docs[order[i]]);
        assert(entries[order[i]] == index[i].entry);
    }
    assert forall|e: int| 0 <= e < entries.len() implies index.contains(
        (DocView {
            entry: #[trigger] entries[e],
            history_count: count_of(counts, entries[e].name),
        }),
    ) by {
        assert(order.contains(e));
        let i = choose|i: int| 0 <= i < order.len() && order[i] == e;
        assert(index[i] == docs[e]);
    }
    assert forall|i: int, j: int| 0 <= i < j < entries.len() implies !key_less(
        doc_key(#[trigger] index[j]),
        doc_key(#[trigger] index[i]),
    ) by {
        assert(order[i] != order[j]);
        assert(index[i] == docs[order[i]]);
        assert(index[j] == docs[order[j]]);
    }
}

/// More launches never lower the score, and any launch raises it.
pub proof fn lemma_launch_score(fewer: u32, more: u32)
    requires
        fewer <= more,
    ensures
        launch_score(fewer) <= launch_score(more),
        fewer == 0 && more > 0 ==> launch_score(fewer) + 20_000 < launch_score(more),
        0 <= launch_score(more) <= 120_000,
{
}

// ---------------------------------------------------------------------------------------------
// Matching
// ---------------------------------------------------------------------------------------------

/// Whether a word of the query is found in one of some fields.
pub open spec fn found_in(token: Seq<char>, fields: Seq<FieldView>) -> bool {
    exists|f: int|
        0 <= f < fields.len() && (#[trigger] fields[f]).text.len() > 0 && token_score(
            token,
            fields[f].text,
        ) is Some
}

/// Whether every word of a query is found in some field of an entry.
pub open spec fn matches_query(entry: EntryView, query: Seq<char>) -> bool {
    forall|k: int|
        0 <= k < words(query).len() ==> found_in(#[trigger] words(query)[k], fields_of(entry))
}

proof fn lemma_best_field(token: Seq<char>, fields: Seq<FieldView>)
    ensures
        best_field(token, fields) is Some <==> found_in(token, fields),
    decreases fields.len(),
{
    if fields.len() > 0 {
        let head = fields.drop_last();
        lemma_best_field(token, head);
        if found_in(token, head) {
            let f = choose|f: int|
                0 <= f < head.len() && (#[trigger] head[f]).text.len() > 0 && token_score(
                    token,
                    head[f].text,
                ) is Some;
            assert(fields[f] == head[f]);
        }
        if found_in(token, fields) {
            let f = choose|f: int|
                0 <= f < fields.len() && (#[trigger] fields[f]).text.len() > 0 && token_score(
                    token,
                    fields[f].text,
                ) is Some;
            if f < head.len() {
                assert(head[f] == fields[f]);
            }
        }
        if best_field(token, fields) is Some && !found_in(token, head) {
            assert(fields[fields.len() - 1] == fields.last());
        }
    }
}

proof fn lemma_with_tokens(start: Scored, fields: Seq<FieldView>, tokens: Seq<Seq<char>>)
    ensures
        with_tokens(start, fields, tokens) is Some <==> forall|k: int|
            0 <= k < tokens.len() ==> found_in(#[trigger] tokens[k], fields),
    decreases tokens.len(),
{
    if tokens.len() > 0 {
        let head = tokens.drop_last();
        lemma_with_tokens(start, fields, head);
        lemma_best_field(tokens.last(), fields);
        if with_tokens(start, fields, tokens) is Some {
            assert forall|k: int| 0 <= k < tokens.len() implies found_in(
                #[trigger] tokens[k],
                fields,
            ) by {
                if k < head.len() {
                    assert(head[k] == tokens[k]);
                }
            }
        }
        if forall|k: int| 0 <= k < tokens.len() ==> found_in(#[trigger] tokens[k], fields) {
            assert forall|k: int| 0 <= k < head.len() implies found_in(
                #[trigger] head[k],
                fields,
            ) by {
                assert(head[k] == tokens[k]);
            }
            assert(found_in(tokens[tokens.len() - 1], fields));
        }
    }
}

/// An entry is a result for a query just where every word of the query is found in some field of
/// it; launches and directories play no part in that.
pub proof fn lemma_matches(doc: DocView, query: Seq<char>)
    ensures
        doc_result(doc, query) is Some <==> matches_query(doc.entry, query),
{
    reveal(doc_result);
    lemma_with_tokens(whole_query_score(doc.entry, query), fields_of(doc.entry), words(query));
}

// ---------------------------------------------------------------------------------------------
// Typing errors
// ---------------------------------------------------------------------------------------------

proof fn lemma_best_word_score(token: Seq<char>, list: Seq<Seq<char>>, w: int)
    requires
        0 <= w < list.len(),
        word_score(token, list[w]) is Some,
    ensures
        best_word_score(token, list) is Some,
    decreases list.len(),
{
    if w < list.len() - 1 {
        assert(list.drop_last()[w] == list[w]);
        lemma_best_word_score(token, list.drop_last(), w);
    }
}

/// What differs from a word of a field by no more typing errors than its length allows is found in
/// that field.
pub proof fn lemma_typo_found(token: Seq<char>, field: Seq<char>, word: Seq<char>)
    requires
        words(field).contains(word),
        distance(token, word) <= budget(token),
    ensures
        token_score(token, field) is Some,
{
    let w = choose|w: int| 0 <= w < words(field).len() && words(field)[w] == word;
    lemma_best_word_score(token, words(field), w);
}

/// A word of a field is found in it.
pub proof fn lemma_word_found(field: Seq<char>, word: Seq<char>)
    requires
        words(field).contains(word),
    ensures
        token_score(word, field) is Some,
{
    crate::distance::lemma_distance_zero(word, word);
    lemma_typo_found(word, field, word);
}

/// A word of at least two characters is found though two adjacent characters in it are in the wrong
/// order.
pub proof fn lemma_swap_found(field: Seq<char>, word: Seq<char>, at: int)
    requires
        words(field).contains(word),
        0 <= at < word.len() - 1,
    ensures
        token_score(word.update(at, word[at + 1]).update(at + 1, word[at]), field) is Some,
{
    let typed = word.update(at, word[at + 1]).update(at + 1, word[at]);
    if word[at] != word[at + 1] {
        lemma_one_swap(word, at);
        crate::distance::lemma_distance_symmetric(word, typed);
        lemma_typo_found(typed, field, word);
    } else {
        assert(typed =~= word);
        lemma_word_found(field, word);
    }
}

/// A word of at least two characters is found though one character in it is wrong.
pub proof fn lemma_replacement_found(field: Seq<char>, word: Seq<char>, at: int, ch: char)
    requires
        words(field).contains(word),
        0 <= at < word.len(),
        word.len() >= 2,
    ensures
        token_score(word.update(at, ch), field) is Some,
{
    let typed = word.update(at, ch);
    if word[at] != ch {
        lemma_one_replacement(word, at, ch);
        crate::distance::lemma_distance_symmetric(word, typed);
        lemma_typo_found(typed, field, word);
    } else {
        assert(typed =~= word);
        lemma_word_found(field, word);
    }
}

/// A word is found though one character too many was typed.
pub proof fn lemma_insertion_found(field: Seq<char>, word: Seq<char>, at: int, ch: char)
    requires
        words(field).contains(word),
        0 <= at <= word.len(),
        word.len() > 0,
    ensures
        token_score(word.insert(at, ch), field) is Some,
{
    let typed = word.insert(at, ch);
    lemma_one_insertion(word, at, ch);
    crate::distance::lemma_distance_symmetric(word, typed);
    lemma_typo_found(typed, field, word);
}

/// A word of at least three characters is found though one character of it was left out.
pub proof fn lemma_deletion_found(field: Seq<char>, word: Seq<char>, at: int)
    requires
        words(field).contains(word),
        0 <= at < word.len(),
        word.len() >= 3,
    ensures
        token_score(word.remove(at), field) is Some,
{
    let typed = word.remove(at);
    lemma_one_deletion(word, at);
    crate::distance::lemma_distance_symmetric(word, typed);
    lemma_typo_found(typed, field, word);
}

// ---------------------------------------------------------------------------------------------
// Scores
// ---------------------------------------------------------------------------------------------

/// The directories that are searched first never have less of an advantage than the later ones.
pub proof fn lemma_source_boost(earlier: u8, later: u8)
    requires
        earlier <= later,
    ensures
        0 <= source_boost(later) <= source_boost(earlier) <= 250,
{
}

/// The score of an entry for a query before directories and launches count, if the entry matches.
pub open spec fn base_score(entry: EntryView, query: Seq<char>) -> Option<i32> {
    match with_tokens(whole_query_score(entry, query), fields_of(entry), words(query)) {
        Some(scored) => Some(scored.score),
        None => None,
    }
}

/// What the directory and the launches of an entry add to its score.
pub open spec fn boost(doc: DocView) -> int {
    source_boost(doc.entry.source_rank) + launch_score(doc.history_count)
}

/// Directories and launches only add to the score: entries that differ in nothing but their directory
/// match the same queries, whatever their launches, and have the same score but for what the
/// directory and the launches of each add. Scores wrap round at the limits of their numbers.
pub proof fn lemma_boosts(a: DocView, b: DocView, query: Seq<char>)
    requires
        b.entry == (EntryView { source_rank: b.entry.source_rank, ..a.entry }),
    ensures
        doc_result(a, query) is Some <==> doc_result(b, query) is Some,
        base_score(a.entry, query) == base_score(b.entry, query),
        doc_result(a, query) is Some <==> base_score(a.entry, query) is Some,
        doc_result(a, query) matches Some(result) ==> result.score == base_score(
            a.entry,
            query,
        )->0.wrapping_add(source_boost(a.entry.source_rank)).wrapping_add(
            launch_score(a.history_count),
        ),
        doc_result(b, query) matches Some(result) ==> result.score == base_score(
            a.entry,
            query,
        )->0.wrapping_add(source_boost(b.entry.source_rank)).wrapping_add(
            launch_score(b.history_count),
        ),
        doc_result(a, query) is Some && base_score(a.entry, query)->0 + boost(a) <= i32::MAX
            ==> doc_result(a, query)->0.score - boost(a) == base_score(a.entry, query)->0,
        doc_result(a, query) is Some && base_score(a.entry, query)->0 + boost(a) <= i32::MAX
            && base_score(a.entry, query)->0 + boost(b) <= i32::MAX ==> doc_result(
            a,
            query,
        )->0.score - boost(a) == doc_result(b, query)->0.score - boost(b),
        0 <= boost(a) <= 120_250,
{
    reveal(doc_result);
    assert(fields_of(a.entry) =~= fields_of(b.entry));
    lemma_source_boost(a.entry.source_rank, 255);
    lemma_source_boost(b.entry.source_rank, 255);
    lemma_launch_score(0, a.history_count);
    lemma_launch_score(0, b.history_count);
}

/// A text has no more characters than bytes.
pub proof fn lemma_len_in_bytes(text: Seq<char>)
    ensures
        text.len() <= byte_len(text),
    decreases text.len(),
{
    if text.len() > 0 {
        lemma_len_in_bytes(text.drop_first());
    }
}

/// A part of a text has no more bytes than the text.
pub proof fn lemma_part_in_bytes(text: Seq<char>, from: int, to: int)
    requires
        0 <= from <= to <= text.len(),
    ensures
        byte_len(text.subrange(from, to)) <= byte_len(text),
{
    let head = text.take(from);
    let part = text.subrange(from, to);
    let tail = text.skip(to);
    lemma_byte_len_concat(head, part);
    lemma_byte_len_concat(head + part, tail);
    assert(head + part + tail =~= text);
}

pub(crate) proof fn lemma_words_in_bytes(text: Seq<char>)
    ensures
        forall|w: int|
            0 <= w < words(text).len() ==> byte_len(#[trigger] words(text)[w]) <= byte_len(text),
    decreases text.len(),
{
    if text.len() > 0 {
        lemma_word_len(text);
        if white_space(text[0]) {
            lemma_words_in_bytes(text.drop_first());
            lemma_part_in_bytes(text, 1, text.len() as int);
            assert(text.subrange(1, text.len() as int) =~= text.drop_first());
            assert forall|w: int| 0 <= w < words(text).len() implies byte_len(
                #[trigger] words(text)[w],
            ) <= byte_len(text) by {
                assert(words(text)[w] == words(text.drop_first())[w]);
            }
        } else {
            let len = word_len(text) as int;
            let rest = text.skip(len);
            lemma_words_in_bytes(rest);
            lemma_part_in_bytes(text, 0, len);
            lemma_part_in_bytes(text, len, text.len() as int);
            assert(text.subrange(0, len) =~= text.take(len));
            assert(text.subrange(len, text.len() as int) =~= rest);
            assert forall|w: int| 0 <= w < words(text).len() implies byte_len(
                #[trigger] words(text)[w],
            ) <= byte_len(text) by {
                if w > 0 {
                    assert(words(text)[w] == words(rest)[w - 1]);
                }
            }
        }
    }
}

proof fn lemma_word_scores(token: Seq<char>, list: Seq<Seq<char>>)
    requires
        forall|w: int| 0 <= w < list.len() ==> byte_len(#[trigger] list[w]) <= 10_000_000,
    ensures
        best_word_score(token, list) matches Some(score) ==> score <= 6_700,
    decreases list.len(),
{
    if list.len() > 0 {
        let head = list.drop_last();
        assert forall|w: int| 0 <= w < head.len() implies byte_len(#[trigger] head[w])
            <= 10_000_000 by {
            assert(head[w] == list[w]);
        }
        lemma_word_scores(token, head);
        assert(byte_len(list[list.len() - 1]) <= 10_000_000);
    }
}

proof fn lemma_match_score(token: Seq<char>, text: Seq<char>, max_distance: nat)
    requires
        text.len() <= 10_000_000,
        token.len() <= 10_000_000,
        max_distance <= 2,
    ensures
        closest_match(token, text, max_distance) matches Some(found) ==> match_score(token, found)
            <= 6_500,
{
    if text.len() > 0 {
        lemma_closest_end(token, text, text.len());
    }
}

pub(crate) proof fn lemma_gaps_in_bytes(token: Seq<char>, field: Seq<char>)
    ensures
        subsequence_gaps(token, field) matches Some(gaps) ==> gaps <= byte_len(field),
    decreases token.len(),
{
    if token.len() > 0 {
        let at = position(field, token[0]) as int;
        if at < field.len() {
            let rest = field.skip(at + 1);
            lemma_gaps_in_bytes(token.drop_first(), rest);
            lemma_byte_len_concat(field.take(at), field.skip(at));
            assert(field.take(at) + field.skip(at) =~= field);
            lemma_part_in_bytes(field.skip(at), 1, field.len() - at);
            assert(field.skip(at).subrange(1, field.len() - at) =~= rest);
        }
    }
}

/// Of texts of a usual size, none scores a word of the query as high as one that equals it, and a
/// text that the word does not stand in scores less than one that it starts.
pub proof fn lemma_token_score(token: Seq<char>, field: Seq<char>)
    requires
        byte_len(field) <= 10_000_000,
        token.len() <= 10_000_000,
    ensures
        token_score(token, token) == Some(10_000i32),
        token_score(token, field) matches Some(score) ==> score <= 10_000 && (score == 10_000
            <==> field == token),
        token.is_prefix_of(field) && field != token ==> token_score(token, field) is Some
            && token_score(token, field)->0 == 9_000 - byte_len(field),
        occurrence(field, token, 0) is None ==> (token_score(token, field) matches Some(score)
            ==> score <= 6_700),
{
    lemma_len_in_bytes(field);
    if token.is_prefix_of(field) {
        assert(occurs_at(field, token, 0));
    }
    if let Some(at) = occurrence(field, token, 0) {
        lemma_occurrence(field, token, 0);
        lemma_part_in_bytes(field, 0, at as int);
        assert(field.subrange(0, at as int) =~= field.take(at as int));
    } else {
        lemma_words_in_bytes(field);
        assert forall|w: int| 0 <= w < words(field).len() implies byte_len(
            #[trigger] words(field)[w],
        ) <= 10_000_000 by {
            assert(byte_len(words(field)[w]) <= byte_len(field));
        }
        lemma_word_scores(token, words(field));
        lemma_compacted(field);
        lemma_match_score(token, field, budget(token));
        lemma_match_score(token, compacted(field), budget(token));
        lemma_gaps_in_bytes(token, field);
    }
}

proof fn lemma_occurrence(text: Seq<char>, part: Seq<char>, from: nat)
    ensures
        occurrence(text, part, from) matches Some(at) ==> occurs_at(text, part, at as int),
    decreases text.len() + 1 - from,
{
    if from + part.len() <= text.len() && !occurs_at(text, part, from as int) {
        lemma_occurrence(text, part, from + 1);
    }
}

/// Of entries whose name and id are of a usual size, only those that the query names in full have
/// the highest score for the query as a whole.
pub proof fn lemma_whole_query(entry: EntryView, query: Seq<char>)
    requires
        byte_len(normalized(entry.name)) <= 10_000_000,
        byte_len(normalized(entry.id)) <= 10_000_000,
        byte_len(initials(normalized(entry.name))) <= 10_000_000,
    ensures
        whole_query_score(entry, query).score <= 120_000,
        whole_query_score(entry, query).score == 120_000 <==> normalized(entry.name) == query,
{
}

// ---------------------------------------------------------------------------------------------
// Results
// ---------------------------------------------------------------------------------------------

/// Whether the Unicode tables leave every character of a text alone: none is a combining mark, and each
/// is its own lowercase.
pub open spec fn left_alone(text: Seq<char>) -> bool {
    forall|i: int|
        0 <= i < text.len() ==> !combining_mark(#[trigger] text[i]) && lowercase_mapping(text[i])
            == seq![text[i]]
}

proof fn lemma_folded_kept(text: Seq<char>)
    requires
        left_alone(text),
    ensures
        folded(text) == text,
    decreases text.len(),
{
    if text.len() > 0 {
        let head = text.drop_last();
        assert forall|i: int| 0 <= i < head.len() implies !combining_mark(#[trigger] head[i])
            && lowercase_mapping(head[i]) == seq![head[i]] by {
            assert(head[i] == text[i]);
        }
        lemma_folded_kept(head);
        let last = text[text.len() - 1];
        assert(lowercase_mapping(last) == seq![last]);
        assert(head + seq![last] =~= text);
    } else {
        assert(folded(text) =~= text);
    }
}

proof fn lemma_spaced_kept(text: Seq<char>)
    requires
        forall|i: int|
            0 <= i < text.len() ==> (#[trigger] text[i] == ' ' || alphanumeric(text[i])),
        text.len() > 0 ==> text[0] != ' ',
        forall|i: int|
            0 <= i < text.len() - 1 && #[trigger] text[i] == ' ' ==> text[i + 1] != ' ',
    ensures
        spaced(text) == text,
    decreases text.len(),
{
    if text.len() > 0 {
        let head = text.drop_last();
        assert forall|i: int| 0 <= i < head.len() implies (#[trigger] head[i] == ' '
            || alphanumeric(head[i])) by {
            assert(head[i] == text[i]);
        }
        assert forall|i: int| 0 <= i < head.len() - 1 && #[trigger] head[i] == ' ' implies head[i
            + 1] != ' ' by {
            assert(head[i] == text[i]);
        }
        lemma_spaced_kept(head);
        let last = text[text.len() - 1];
        if last == ' ' {
            assert(text[text.len() - 2] != ' ');
            assert(head.last() == text[text.len() - 2]);
        }
        assert(head.push(last) =~= text);
    } else {
        assert(spaced(text) =~= text);
    }
}

/// A text in normal form is its own normal form, wherever the Unicode tables leave it alone: it is its
/// own decomposition, and each of its characters is its own lowercase and no combining mark.
pub proof fn lemma_normalized_again(text: Seq<char>)
    requires
        is_normal(text),
        compatibility_decomposition(text) == text,
        left_alone(text),
    ensures
        normalized(text) == text,
{
    lemma_folded_kept(text);
    assert(text.len() > 0 ==> text[0] != ' ');
    assert(text.len() > 0 ==> text[text.len() - 1] != ' ');
    lemma_spaced_kept(text);
}

proof fn lemma_spaced_shape(text: Seq<char>)
    requires
        !alphanumeric(' '),
    ensures
        forall|i: int|
            0 <= i < spaced(text).len() ==> (#[trigger] spaced(text)[i] == ' ' || alphanumeric(
                spaced(text)[i],
            )),
        spaced(text).len() > 0 ==> spaced(text)[0] != ' ',
        forall|i: int|
            0 <= i < spaced(text).len() - 1 && #[trigger] spaced(text)[i] == ' ' ==> spaced(text)[i
                + 1] != ' ',
    decreases text.len(),
{
    if text.len() > 0 {
        lemma_spaced_shape(text.drop_last());
        let before = spaced(text.drop_last());
        let after = spaced(text);
        assert forall|i: int| 0 <= i < before.len() implies #[trigger] after[i] == before[i] by {}
        assert forall|i: int|
            0 <= i < after.len() - 1 && #[trigger] after[i] == ' ' implies after[i + 1] != ' ' by {
            assert(after[i] == before[i]);
            if i + 1 < before.len() {
                assert(after[i + 1] == before[i + 1]);
            }
        }
    }
}

/// Every normal form is made of alphanumeric characters and single spaces between them, the space
/// being none of the former.
pub proof fn lemma_normal_form(decomposed: Seq<char>)
    requires
        !alphanumeric(' '),
    ensures
        is_normal(normal_form(decomposed)),
{
    let full = spaced(folded(decomposed));
    let form = normal_form(decomposed);
    lemma_spaced_shape(folded(decomposed));
    assert forall|i: int| 0 <= i < form.len() implies #[trigger] form[i] == full[i] by {}
    assert forall|i: int| 0 <= i < form.len() && #[trigger] form[i] == ' ' implies 0 < i
        < form.len() - 1 && form[i + 1] != ' ' by {
        assert(form[i] == full[i]);
        if i == form.len() - 1 {
            if full.len() > form.len() {
                assert(full[i + 1] == full.last());
            } else {
                assert(full.last() == ' ');
            }
        } else {
            assert(form[i + 1] == full[i + 1]);
        }
    }
}

/// Normalising a text twice is normalising it once, wherever the Unicode tables leave its normal form
/// alone. The space is not alphanumeric.
pub proof fn lemma_normalized_twice(text: Seq<char>)
    requires
        !alphanumeric(' '),
        compatibility_decomposition(normalized(text)) == normalized(text),
        left_alone(normalized(text)),
    ensures
        normalized(normalized(text)) == normalized(text),
{
    lemma_normal_form(compatibility_decomposition(text));
    lemma_normalized_again(normalized(text));
}

proof fn lemma_ascii_spaced_kept(text: Seq<char>)
    requires
        forall|i: int|
            0 <= i < text.len() ==> (#[trigger] text[i] == ' ' || (ascii_alphanumeric(text[i])
                && ascii_lower(text[i]) == text[i])),
        text.len() > 0 ==> text[0] != ' ',
        forall|i: int|
            0 <= i < text.len() - 1 && #[trigger] text[i] == ' ' ==> text[i + 1] != ' ',
    ensures
        ascii_spaced(text) == text,
    decreases text.len(),
{
    if text.len() > 0 {
        let head = text.drop_last();
        assert forall|i: int| 0 <= i < head.len() implies (#[trigger] head[i] == ' ' || (
        ascii_alphanumeric(head[i]) && ascii_lower(head[i]) == head[i])) by {
            assert(head[i] == text[i]);
        }
        assert forall|i: int| 0 <= i < head.len() - 1 && #[trigger] head[i] == ' ' implies head[i
            + 1] != ' ' by {
            assert(head[i] == text[i]);
        }
        lemma_ascii_spaced_kept(head);
        let last = text[text.len() - 1];
        if last == ' ' {
            assert(text[text.len() - 2] != ' ');
            assert(head.last() == text[text.len() - 2]);
        }
        assert(head.push(last) =~= text);
    } else {
        assert(ascii_spaced(text) =~= text);
    }
}

proof fn lemma_ascii_spaced(text: Seq<char>)
    requires
        ascii(text),
    ensures
        forall|i: int|
            0 <= i < ascii_spaced(text).len() ==> (#[trigger] ascii_spaced(text)[i] == ' ' || (
            ascii_alphanumeric(ascii_spaced(text)[i]) && ascii_lower(ascii_spaced(text)[i])
                == ascii_spaced(text)[i])),
        ascii_spaced(text).len() > 0 ==> ascii_spaced(text)[0] != ' ',
        forall|i: int|
            0 <= i < ascii_spaced(text).len() - 1 && #[trigger] ascii_spaced(text)[i] == ' '
                ==> ascii_spaced(text)[i + 1] != ' ',
    decreases text.len(),
{
    if text.len() > 0 {
        let head = text.drop_last();
        assert forall|i: int| 0 <= i < head.len() implies (#[trigger] head[i] as u32) < 0x80 by {
            assert(head[i] == text[i]);
        }
        lemma_ascii_spaced(head);
        let before = ascii_spaced(head);
        let after = ascii_spaced(text);
        assert forall|i: int| 0 <= i < before.len() implies #[trigger] after[i] == before[i] by {}
        assert forall|i: int|
            0 <= i < after.len() - 1 && #[trigger] after[i] == ' ' implies after[i + 1] != ' ' by {
            assert(after[i] == before[i]);
            if i + 1 < before.len() {
                assert(after[i + 1] == before[i + 1]);
            }
        }
    }
}

/// Normalising an ASCII text twice is normalising it once; the normal form is ASCII again.
pub proof fn lemma_ascii_normalized_twice(text: Seq<char>)
    requires
        ascii(text),
    ensures
        ascii(ascii_normal_form(text)),
        ascii_normal_form(ascii_normal_form(text)) == ascii_normal_form(text),
{
    lemma_ascii_spaced(text);
    let spaced_text = ascii_spaced(text);
    let form = ascii_normal_form(text);
    assert forall|i: int| 0 <= i < form.len() implies #[trigger] form[i] == spaced_text[i] by {}
    assert forall|i: int| 0 <= i < form.len() implies (#[trigger] form[i] as u32) < 0x80 by {
        assert(form[i] == spaced_text[i]);
    }
    assert forall|i: int| 0 <= i < form.len() - 1 && #[trigger] form[i] == ' ' implies form[i + 1]
        != ' ' by {
        assert(form[i] == spaced_text[i]);
    }
    lemma_ascii_spaced_kept(form);
    if form.len() > 0 && form.last() == ' ' {
        let at = form.len() - 1;
        assert(spaced_text[at] == ' ');
        assert(spaced_text.len() > form.len());
        assert(spaced_text[at + 1] != ' ');
        assert(spaced_text.last() == spaced_text[at + 1]);
    }
}

/// Two queries with the same normal form have the same results.
pub proof fn lemma_same_normal_form(docs: Seq<DocView>, a: Seq<char>, b: Seq<char>, limit: nat)
    requires
        normalized(a) == normalized(b),
    ensures
        search_results(docs, a, limit) == search_results(docs, b, limit),
{
}

proof fn lemma_hits(docs: Seq<DocView>, query: Seq<char>)
    ensures
        forall|i: int|
            0 <= i < hits(docs, query).len() ==> exists|d: int|
                0 <= d < docs.len() && doc_result(#[trigger] docs[d], query) == Some(
                    #[trigger] hits(docs, query)[i],
                ),
        forall|d: int|
            0 <= d < docs.len() && doc_result(#[trigger] docs[d], query) is Some ==> hits(
                docs,
                query,
            ).contains(doc_result(docs[d], query)->0),
    decreases docs.len(),
{
    if docs.len() > 0 {
        let head = docs.drop_last();
        lemma_hits(head, query);
        let before = hits(head, query);
        let all = hits(docs, query);
        assert forall|i: int| 0 <= i < all.len() implies exists|d: int|
            0 <= d < docs.len() && doc_result(#[trigger] docs[d], query) == Some(
                #[trigger] all[i],
            ) by {
            if i < before.len() {
                assert(before[i] == all[i]);
                let d = choose|d: int|
                    0 <= d < head.len() && doc_result(#[trigger] head[d], query) == Some(before[i]);
                assert(docs[d] == head[d]);
            } else {
                assert(doc_result(docs[docs.len() - 1], query) == Some(all[i]));
            }
        }
        assert forall|d: int|
            0 <= d < docs.len() && doc_result(
                #[trigger] docs[d],
                query,
            ) is Some implies all.contains(doc_result(docs[d], query)->0) by {
            if d < head.len() {
                assert(head[d] == docs[d]);
                let i = choose|i: int|
                    0 <= i < before.len() && before[i] == doc_result(head[d], query)->0;
                assert(all[i] == before[i]);
            } else {
                assert(all[all.len() - 1] == doc_result(docs[d], query)->0);
            }
        }
    }
}

/// Whether a result is that of an entry of the index.
pub open spec fn result_of_index(result: ResultView, docs: Seq<DocView>, query: Seq<char>) -> bool {
    exists|d: int|
        0 <= d < docs.len() && doc_result(#[trigger] docs[d], normalized(query)) == Some(result)
}

/// What a search for something finds: at most `limit` results, each of an entry of the index that
/// matches, the best first; and a matching entry that is not listed is no better than any that is.
pub proof fn lemma_search(docs: Seq<DocView>, query: Seq<char>, limit: nat)
    requires
        normalized(query).len() > 0,
    ensures
        search_results(docs, query, limit).len() <= limit,
        forall|i: int|
            0 <= i < search_results(docs, query, limit).len() ==> result_of_index(
                #[trigger] search_results(docs, query, limit)[i],
                docs,
                query,
            ),
        forall|i: int, j: int|
            0 <= i < j < search_results(docs, query, limit).len() ==> !key_less(
                result_key(#[trigger] search_results(docs, query, limit)[j]),
                result_key(#[trigger] search_results(docs, query, limit)[i]),
            ),
        forall|result: ResultView, i: int|
            #[trigger] result_of_index(result, docs, query) && 0 <= i < search_results(
                docs,
                query,
                limit,
            ).len() && !search_results(docs, query, limit).contains(result) ==> !key_less(
                result_key(result),
                result_key(#[trigger] search_results(docs, query, limit)[i]),
            ),
        forall|result: ResultView| #[trigger]
            result_of_index(result, docs, query) && search_results(docs, query, limit).len() < limit
                ==> search_results(docs, query, limit).contains(result),
{
    let form = normalized(query);
    let all = hits(docs, form);
    let keys = Seq::new(all.len(), |i: int| result_key(all[i]));
    lemma_hits(docs, form);
    lemma_ranked(all, keys);
    let order = rank_order(keys);
    let full = ranked(all, keys);
    let results = search_results(docs, query, limit);
    assert(results == at_most(full, limit));
    assert forall|i: int| 0 <= i < results.len() implies result_of_index(
        #[trigger] results[i],
        docs,
        query,
    ) by {
        assert(results[i] == all[order[i]]);
        let d = choose|d: int|
            0 <= d < docs.len() && doc_result(#[trigger] docs[d], form) == Some(all[order[i]]);
        assert(doc_result(docs[d], form) == Some(results[i]));
    }
    assert forall|i: int, j: int| 0 <= i < j < results.len() implies !key_less(
        result_key(#[trigger] results[j]),
        result_key(#[trigger] results[i]),
    ) by {
        assert(order[i] != order[j]);
        assert(results[i] == all[order[i]]);
        assert(results[j] == all[order[j]]);
    }
    assert forall|result: ResultView| #[trigger] result_of_index(result, docs, query) implies exists|
        p: int,
    |
        0 <= p < full.len() && full[p] == result by {
        let d = choose|d: int|
            0 <= d < docs.len() && doc_result(#[trigger] docs[d], form) == Some(result);
        assert(all.contains(result));
        let q = choose|q: int| 0 <= q < all.len() && all[q] == result;
        assert(order.contains(q));
        let p = choose|p: int| 0 <= p < order.len() && order[p] == q;
        assert(full[p] == result);
    }
    assert forall|result: ResultView, i: int|
        #[trigger] result_of_index(result, docs, query) && 0 <= i < results.len()
            && !results.contains(result) implies !key_less(
        result_key(result),
        result_key(#[trigger] results[i]),
    ) by {
        let p = choose|p: int| 0 <= p < full.len() && full[p] == result;
        if p < results.len() {
            assert(results[p] == result);
        }
        assert(order[i] != order[p]);
        assert(results[i] == all[order[i]]);
        assert(full[p] == all[order[p]]);
    }
    assert forall|result: ResultView|
        #[trigger] result_of_index(result, docs, query) && results.len()
            < limit implies results.contains(result) by {
        let p = choose|p: int| 0 <= p < full.len() && full[p] == result;
        assert(results[p] == result);
    }
}

/// While nothing is searched for, the first entries of the index are listed.
pub proof fn lemma_empty_query(docs: Seq<DocView>, query: Seq<char>, limit: nat)
    requires
        normalized(query).len() == 0,
    ensures
        search_results(docs, query, limit).len() == if docs.len() <= limit {
            docs.len()
        } else {
            limit
        },
        forall|i: int|
            0 <= i < search_results(docs, query, limit).len() ==> (#[trigger] search_results(
                docs,
                query,
                limit,
            )[i]).entry == docs[i].entry,
{
}

/// To ask for fewer results gives the first of them.
pub proof fn lemma_fewer_results(docs: Seq<DocView>, query: Seq<char>, fewer: nat, more: nat)
    requires
        fewer <= more,
    ensures
        search_results(docs, query, fewer) == at_most(search_results(docs, query, more), fewer),
{
    let form = normalized(query);
    if form.len() == 0 {
        assert(search_results(docs, query, fewer) =~= at_most(
            search_results(docs, query, more),
            fewer,
        ));
    } else {
        let all = hits(docs, form);
        let full = ranked(all, Seq::new(all.len(), |i: int| result_key(all[i])));
        assert(at_most(full, fewer) =~= at_most(at_most(full, more), fewer));
    }
}

} // verus!
