//! What holds of every score and of every normal form.
use vstd::prelude::*;

use crate::desktop::EntryView;
use crate::distance::{
    closest_match, distance, lemma_closest_end, match_precedes, TypoSubstringMatch,
};
use crate::ranking::{
    lemma_gaps_in_bytes, lemma_len_in_bytes, lemma_part_in_bytes, lemma_words_in_bytes,
};
use crate::search::{
    ascii_normal_form, ascii_spaced, best_field, best_word_score, budget, compacted, doc_result,
    field_match, fields_of, folded, initials, is_normal, launch_score, lemma_compacted, match_score,
    normal_form, normalized, occurrence, occurs_at, source_boost, spaced, subsequence_gaps,
    subsequence_value, token_score, whole_query_score, with_tokens, word_score, DocView, FieldView,
    Scored,
};
use crate::text::{
    ascii_lower, byte_len, decimal, joined, lemma_position_unique, position, white_space, words,
};
use crate::unicode::{
    alphanumeric, ascii_alphanumeric, combining_mark, compatibility_decomposition,
    lowercase_mapping,
};

verus! {

// ---------------------------------------------------------------------------------------------
// Normal form
// ---------------------------------------------------------------------------------------------

/// A combining mark leaves no trace in the normal form; every other character leaves its lowercase.
pub proof fn lemma_folded_char(before: Seq<char>, ch: char)
    ensures
        folded(seq![]) == Seq::<char>::empty(),
        combining_mark(ch) ==> folded(before.push(ch)) == folded(before),
        !combining_mark(ch) ==> folded(before.push(ch)) == folded(before) + lowercase_mapping(ch),
{
    assert(before.push(ch).drop_last() =~= before);
}

/// A letter or digit stays. Anything else comes to one space after a letter or digit, and to nothing
/// at the start or after a space.
pub proof fn lemma_spaced_char(before: Seq<char>, ch: char)
    ensures
        spaced(seq![]) == Seq::<char>::empty(),
        alphanumeric(ch) ==> spaced(before.push(ch)) == spaced(before).push(ch),
        !alphanumeric(ch) && spaced(before).len() > 0 && spaced(before).last() != ' ' ==> spaced(
            before.push(ch),
        ) == spaced(before).push(' '),
        !alphanumeric(ch) && (spaced(before).len() == 0 || spaced(before).last() == ' ') ==> spaced(
            before.push(ch),
        ) == spaced(before),
{
    assert(before.push(ch).drop_last() =~= before);
}

/// The normal form of a text is that of its decomposition: folded, with single spaces, and without
/// the space at its end.
pub proof fn lemma_normal_end(text: Seq<char>)
    ensures
        ({
            let all = spaced(folded(compatibility_decomposition(text)));
            &&& normalized(text) == normal_form(compatibility_decomposition(text))
            &&& all.len() > 0 && all.last() == ' ' ==> normalized(text) == all.take(all.len() - 1)
            &&& all.len() == 0 || all.last() != ' ' ==> normalized(text) == all
        }),
{
    let all = spaced(folded(compatibility_decomposition(text)));
    if all.len() > 0 {
        assert(all.drop_last() =~= all.take(all.len() - 1));
    }
}

/// The same of ASCII texts: letters and digits stay, in lowercase, and anything else comes to one
/// space between them.
pub proof fn lemma_ascii_char(before: Seq<char>, ch: char)
    ensures
        ascii_spaced(seq![]) == Seq::<char>::empty(),
        ascii_alphanumeric(ch) ==> ascii_spaced(before.push(ch)) == ascii_spaced(before).push(
            ascii_lower(ch),
        ),
        !ascii_alphanumeric(ch) && ascii_spaced(before).len() > 0 && ascii_spaced(before).last()
            != ' ' ==> ascii_spaced(before.push(ch)) == ascii_spaced(before).push(' '),
        !ascii_alphanumeric(ch) && (ascii_spaced(before).len() == 0 || ascii_spaced(before).last()
            == ' ') ==> ascii_spaced(before.push(ch)) == ascii_spaced(before),
        ascii_spaced(before).len() > 0 && ascii_spaced(before).last() == ' ' ==> ascii_normal_form(
            before,
        ) == ascii_spaced(before).take(ascii_spaced(before).len() - 1),
        ascii_spaced(before).len() == 0 || ascii_spaced(before).last() != ' ' ==> ascii_normal_form(
            before,
        ) == ascii_spaced(before),
        ascii_alphanumeric(ch) <==> (48 <= ch as u32 <= 57 || 65 <= ch as u32 <= 90 || 97
            <= ch as u32 <= 122),
{
    assert(before.push(ch).drop_last() =~= before);
    crate::text_laws::lemma_ascii_lower(ch);
    let all = ascii_spaced(before);
    if all.len() > 0 {
        assert(all.drop_last() =~= all.take(all.len() - 1));
    }
}

/// An acronym has the first character of each word, in order.
pub proof fn lemma_initials(text: Seq<char>)
    ensures
        initials(text).len() == words(text).len(),
        forall|i: int|
            0 <= i < words(text).len() ==> #[trigger] initials(text)[i] == words(text)[i][0],
{
}

/// Without its white space a text has all its other characters, in order.
pub proof fn lemma_compacted_char(before: Seq<char>, ch: char)
    ensures
        compacted(seq![]) == Seq::<char>::empty(),
        white_space(ch) ==> compacted(before.push(ch)) == compacted(before),
        !white_space(ch) ==> compacted(before.push(ch)) == compacted(before).push(ch),
{
    assert(before.push(ch).drop_last() =~= before);
}

// ---------------------------------------------------------------------------------------------
// A word of the query in a field
// ---------------------------------------------------------------------------------------------

/// A word of one character may hold no typing error, one of up to four characters one, a longer one
/// two.
pub proof fn lemma_budget(token: Seq<char>)
    ensures
        token.len() <= 1 ==> budget(token) == 0,
        2 <= token.len() <= 4 ==> budget(token) == 1,
        token.len() >= 5 ==> budget(token) == 2,
{
}

proof fn lemma_first_occurrence(text: Seq<char>, part: Seq<char>, from: nat, at: int)
    requires
        from <= at,
        at + part.len() <= text.len(),
        text.subrange(at, at + part.len()) == part,
        forall|k: int|
            0 <= k < at ==> #[trigger] text.subrange(k, k + part.len()) != part,
    ensures
        occurrence(text, part, from) == Some(at as nat),
    decreases at - from,
{
    if from < at {
        assert(text.subrange(from as int, from as int + part.len()) != part);
        assert(!occurs_at(text, part, from as int));
        lemma_first_occurrence(text, part, from + 1, at);
    }
}

proof fn lemma_no_occurrence(text: Seq<char>, part: Seq<char>, from: nat)
    requires
        forall|k: int|
            0 <= k && k + part.len() <= text.len() ==> #[trigger] text.subrange(k, k + part.len())
                != part,
    ensures
        occurrence(text, part, from) is None,
    decreases text.len() + 1 - from,
{
    if from + part.len() <= text.len() {
        assert(text.subrange(from as int, from as int + part.len()) != part);
        lemma_no_occurrence(text, part, from + 1);
    }
}

/// A field that equals the word scores most; one that starts with it, less by its bytes; one that
/// holds it later, less by ten for each byte before the first place where it stands.
pub proof fn lemma_exact_scores(token: Seq<char>, field: Seq<char>, at: int)
    requires
        byte_len(field) <= 10_000_000,
        0 <= at,
        at + token.len() <= field.len(),
        field.subrange(at, at + token.len()) == token,
        forall|k: int|
            0 <= k < at ==> #[trigger] field.subrange(k, k + token.len()) != token,
    ensures
        token_score(token, field) is Some,
        field.len() == token.len() ==> token_score(token, field)->0 == 10_000,
        at == 0 && field.len() > token.len() ==> token_score(token, field)->0 == 9_000 - byte_len(
            field,
        ),
        at > 0 ==> token_score(token, field)->0 == 7_500 - 10 * byte_len(field.take(at)),
{
    lemma_first_occurrence(field, token, 0, at);
    lemma_part_in_bytes(field, 0, at);
    assert(field.subrange(0, at) =~= field.take(at));
    if at == 0 {
        assert(token.is_prefix_of(field));
        if field.len() == token.len() {
            assert(field =~= token);
        }
    } else {
        assert(field.subrange(0, 0 + token.len() as int) != token);
        assert(field != token);
    }
}

proof fn lemma_best_of_words(token: Seq<char>, list: Seq<Seq<char>>)
    ensures
        best_word_score(token, list) is None <==> forall|w: int|
            0 <= w < list.len() ==> word_score(token, #[trigger] list[w]) is None,
        best_word_score(token, list) is Some ==> (exists|w: int|
            0 <= w < list.len() && word_score(token, #[trigger] list[w]) == best_word_score(
                token,
                list,
            )),
        forall|w: int|
            0 <= w < list.len() && word_score(token, #[trigger] list[w]) is Some ==> word_score(
                token,
                list[w],
            )->0 <= best_word_score(token, list)->0,
    decreases list.len(),
{
    if list.len() > 0 {
        let head = list.drop_last();
        lemma_best_of_words(token, head);
        let last = list.len() - 1;
        assert forall|w: int| 0 <= w < list.len() && w != last implies #[trigger] list[w]
            == head[w] by {}
        if best_word_score(token, head) is Some {
            let w = choose|w: int|
                0 <= w < head.len() && word_score(token, #[trigger] head[w]) == best_word_score(
                    token,
                    head,
                );
            assert(list[w] == head[w]);
        }
        assert(list[last] == list.last());
        if best_word_score(token, list) is None {
            assert forall|w: int| 0 <= w < list.len() implies word_score(
                token,
                #[trigger] list[w],
            ) is None by {
                if w < last {
                    assert(head[w] == list[w]);
                }
            }
        }
        if forall|w: int| 0 <= w < list.len() ==> word_score(token, #[trigger] list[w]) is None {
            assert forall|w: int| 0 <= w < head.len() implies word_score(
                token,
                #[trigger] head[w],
            ) is None by {
                assert(head[w] == list[w]);
            }
            assert(word_score(token, list[last]) is None);
        }
        assert forall|w: int|
            0 <= w < list.len() && word_score(token, #[trigger] list[w]) is Some implies word_score(
            token,
            list[w],
        )->0 <= best_word_score(token, list)->0 by {
            if w < last {
                assert(head[w] == list[w]);
                assert(word_score(token, head[w]) is Some);
            }
        }
    }
}

proof fn lemma_scored_by_words(token: Seq<char>, field: Seq<char>)
    requires
        forall|k: int|
            0 <= k && k + token.len() <= field.len() ==> #[trigger] field.subrange(
                k,
                k + token.len(),
            ) != token,
        best_word_score(token, words(field)) is Some,
    ensures
        token_score(token, field) == best_word_score(token, words(field)),
{
    lemma_no_occurrence(field, token, 0);
    if token.is_prefix_of(field) {
        assert(field.subrange(0, 0 + token.len() as int) =~= token);
    }
    if field == token {
        assert(token.is_prefix_of(field));
    }
}

proof fn lemma_word_value(token: Seq<char>, word: Seq<char>)
    requires
        byte_len(word) <= 10_000_000,
    ensures
        word_score(token, word) is Some <==> distance(token, word) <= budget(token),
        word_score(token, word) is Some ==> word_score(token, word)->0 == 6_700 - 1_000 * distance(
            token,
            word,
        ) - byte_len(word),
{
}

/// A field that does not hold the word but one that differs from it by typing errors alone, and by no
/// more of them than its length allows, scores by the best of such words: less by a thousand for
/// each error, and by the bytes of the word.
pub proof fn lemma_typo_scores(token: Seq<char>, field: Seq<char>, errors: nat, w: int)
    requires
        byte_len(field) <= 10_000_000,
        forall|k: int|
            0 <= k && k + token.len() <= field.len() ==> #[trigger] field.subrange(
                k,
                k + token.len(),
            ) != token,
        errors == if token.len() <= 1 {
            0nat
        } else if token.len() <= 4 {
            1
        } else {
            2
        },
        0 <= w < words(field).len(),
        distance(token, words(field)[w]) <= errors,
    ensures
        token_score(token, field) is Some,
        token_score(token, field)->0 >= 6_700 - 1_000 * distance(token, words(field)[w]) - byte_len(
            words(field)[w],
        ),
        exists|v: int|
            0 <= v < words(field).len() && distance(token, #[trigger] words(field)[v]) <= errors
                && token_score(token, field)->0 == 6_700 - 1_000 * distance(token, words(field)[v])
                - byte_len(words(field)[v]),
{
    let list = words(field);
    lemma_best_of_words(token, list);
    lemma_words_in_bytes(field);
    lemma_word_value(token, list[w]);
    assert(best_word_score(token, list) is Some);
    lemma_scored_by_words(token, field);
    let v = choose|v: int|
        0 <= v < list.len() && word_score(token, #[trigger] list[v]) == best_word_score(
            token,
            list,
        );
    lemma_word_value(token, list[v]);
    assert(distance(token, list[v]) <= errors);
}

proof fn lemma_no_close_word(token: Seq<char>, field: Seq<char>, errors: nat)
    requires
        forall|k: int|
            0 <= k && k + token.len() <= field.len() ==> #[trigger] field.subrange(
                k,
                k + token.len(),
            ) != token,
        errors == budget(token),
        forall|w: int|
            0 <= w < words(field).len() ==> distance(token, #[trigger] words(field)[w]) > errors,
    ensures
        token_score(token, field) == match field_match(token, field, errors) {
            Some(found) => Some(match_score(token, found)),
            None => subsequence_value(token, field),
        },
{
    lemma_no_occurrence(field, token, 0);
    if token.is_prefix_of(field) {
        assert(field.subrange(0, 0 + token.len() as int) =~= token);
    }
    if field == token {
        assert(token.is_prefix_of(field));
    }
    lemma_best_of_words(token, words(field));
}

proof fn lemma_match_value(token: Seq<char>, text: Seq<char>, errors: nat)
    requires
        text.len() <= 10_000_000,
        token.len() <= 10_000_000,
        errors <= 2,
    ensures
        closest_match(token, text, errors) is Some ==> {
            let found = closest_match(token, text, errors)->0;
            match_score(token, found) == 6_500 - 1_000 * found.distance - 12 * found.start - 40 * (
            if found.matched_len > token.len() {
                found.matched_len - token.len()
            } else {
                token.len() - found.matched_len
            })
        },
{
    if text.len() > 0 {
        lemma_closest_end(token, text, text.len());
    }
}

/// Where no word of the field is close enough either, its closest part counts, with or without the
/// white space of the field, whichever takes fewer errors, starts earlier or is shorter: less by a
/// thousand for each error, by twelve for each character before it and by forty for each by which
/// its length is off.
pub proof fn lemma_part_scores(token: Seq<char>, field: Seq<char>, errors: nat)
    requires
        byte_len(field) <= 10_000_000,
        token.len() <= 10_000_000,
        forall|k: int|
            0 <= k && k + token.len() <= field.len() ==> #[trigger] field.subrange(
                k,
                k + token.len(),
            ) != token,
        errors == if token.len() <= 1 {
            0nat
        } else if token.len() <= 4 {
            1
        } else {
            2
        },
        forall|w: int|
            0 <= w < words(field).len() ==> distance(token, #[trigger] words(field)[w]) > errors,
    ensures
        ({
            let direct = closest_match(token, field, errors);
            let compact = closest_match(token, compacted(field), errors);
            &&& direct is Some || compact is Some ==> token_score(token, field) is Some && exists|
                found: TypoSubstringMatch,
            |
                {
                    &&& direct == Some(found) || compact == Some(found)
                    &&& direct is Some ==> !(direct->0.distance < found.distance || (
                    direct->0.distance == found.distance && (direct->0.start < found.start || (
                    direct->0.start == found.start && direct->0.matched_len < found.matched_len))))
                    &&& compact is Some ==> !(compact->0.distance < found.distance || (
                    compact->0.distance == found.distance && (compact->0.start < found.start || (
                    compact->0.start == found.start && compact->0.matched_len
                        < found.matched_len))))
                    &&& token_score(token, field)->0 == 6_500 - 1_000 * found.distance - 12
                        * found.start - 40 * (if #[trigger] found.matched_len > token.len() {
                        found.matched_len - token.len()
                    } else {
                        token.len() - found.matched_len
                    })
                }
            &&& direct is None && compact is None ==> token_score(token, field)
                == subsequence_value(token, field)
        }),
{
    let direct = closest_match(token, field, errors);
    let compact = closest_match(token, compacted(field), errors);
    lemma_no_close_word(token, field, errors);
    lemma_len_in_bytes(field);
    lemma_compacted(field);
    lemma_match_value(token, field, errors);
    lemma_match_value(token, compacted(field), errors);
    if direct is Some || compact is Some {
        let found = field_match(token, field, errors)->0;
        assert(direct == Some(found) || compact == Some(found));
        assert(token_score(token, field)->0 == match_score(token, found));
        assert(found.matched_len <= usize::MAX);
    }
}

/// A word whose characters stand in the field in order, and nothing closer, scores by the bytes that
/// lie between them: less by twenty for each, and by the bytes of the field.
pub proof fn lemma_subsequence_score(token: Seq<char>, field: Seq<char>)
    requires
        byte_len(field) <= 10_000_000,
    ensures
        subsequence_gaps(token, field) is None ==> subsequence_value(token, field) is None,
        subsequence_gaps(token, field) is Some ==> subsequence_value(token, field) is Some
            && subsequence_value(token, field)->0 == 4_500 - 20 * subsequence_gaps(token, field)->0
            - byte_len(field),
{
    lemma_gaps_in_bytes(token, field);
}

/// The characters of a word are looked for one after the other, each at its first place after the one
/// before; the bytes that are passed over are the gaps. If one is not there, there are none.
pub proof fn lemma_gaps(ch: char, token: Seq<char>, before: Seq<char>, after: Seq<char>)
    requires
        !before.contains(ch),
    ensures
        subsequence_gaps(seq![], before) == Some(0nat),
        subsequence_gaps(seq![ch] + token, before) is None,
        subsequence_gaps(token, after) is None ==> subsequence_gaps(
            seq![ch] + token,
            before + seq![ch] + after,
        ) is None,
        subsequence_gaps(token, after) is Some ==> subsequence_gaps(
            seq![ch] + token,
            before + seq![ch] + after,
        ) == Some(byte_len(before) + subsequence_gaps(token, after)->0),
{
    let field = before + seq![ch] + after;
    let long = seq![ch] + token;
    let at = before.len() as int;
    assert forall|k: int| 0 <= k < at implies #[trigger] field[k] != ch by {
        assert(before.contains(before[k]));
    }
    assert(field[at] == ch);
    lemma_position_unique(field, ch, at);
    assert(field.take(at) =~= before);
    assert(field.skip(at + 1) =~= after);
    assert(long.drop_first() =~= token);
    crate::text::lemma_position(before, ch);
    let first = position(before, ch) as int;
    if first < before.len() {
        assert(before.contains(before[first]));
    }
}

// ---------------------------------------------------------------------------------------------
// A query in an entry
// ---------------------------------------------------------------------------------------------

/// What is searched of an entry: its name and id, its generic name and comment where it has them,
/// and all its keywords and categories, each in normal form and with its own weight.
pub proof fn lemma_searched(entry: EntryView, k: int)
    ensures
        ({
            let fields = fields_of(entry);
            let generic: int = if entry.generic_name is Some {
                1
            } else {
                0
            };
            let comment: int = if entry.comment is Some {
                1
            } else {
                0
            };
            let first = 2 + generic + comment;
            let then = first + entry.keywords.len();
            &&& fields.len() == then + entry.categories.len()
            &&& fields[0] == (FieldView { text: normalized(entry.name), weight: 10, label: "name"@ })
            &&& fields[1] == (FieldView { text: normalized(entry.id), weight: 4, label: "id"@ })
            &&& entry.generic_name is Some ==> fields[2] == (FieldView {
                text: normalized(entry.generic_name->0),
                weight: 6,
                label: "generic-name"@,
            })
            &&& entry.comment is Some ==> fields[2 + generic] == (FieldView {
                text: normalized(entry.comment->0),
                weight: 2,
                label: "comment"@,
            })
            &&& 0 <= k < entry.keywords.len() ==> fields[first + k] == (FieldView {
                text: normalized(entry.keywords[k]),
                weight: 8,
                label: "keyword"@,
            })
            &&& 0 <= k < entry.categories.len() ==> fields[then + k] == (FieldView {
                text: normalized(entry.categories[k]),
                weight: 2,
                label: "category"@,
            })
        }),
{
}

/// A word of the query counts with the field that scores most for it, times the field's weight; of
/// fields that score as much the first gives its name. Empty fields do not count. The word is not
/// found just where no field scores for it.
pub proof fn lemma_best_field_found(token: Seq<char>, fields: Seq<FieldView>)
    ensures
        best_field(token, fields) is None <==> forall|f: int|
            0 <= f < fields.len() ==> (#[trigger] fields[f]).text.len() == 0 || token_score(
                token,
                fields[f].text,
            ) is None,
        forall|score: i32, label: Seq<char>| #[trigger]
            best_field(token, fields) == Some((score, label)) ==> exists|f: int|
                {
                    &&& 0 <= f < fields.len()
                    &&& (#[trigger] fields[f]).text.len() > 0
                    &&& token_score(token, fields[f].text) is Some
                    &&& score == token_score(token, fields[f].text)->0.wrapping_mul(
                        fields[f].weight,
                    )
                    &&& label == fields[f].label
                    &&& forall|g: int|
                        0 <= g < fields.len() && (#[trigger] fields[g]).text.len() > 0
                            && token_score(token, fields[g].text) is Some ==> {
                            let other = token_score(token, fields[g].text)->0.wrapping_mul(
                                fields[g].weight,
                            );
                            other <= score && (g < f ==> other < score)
                        }
                },
{
    if best_field(token, fields) is Some {
        let f = lemma_winner(token, fields);
        reveal(weighted);
        assert(fields[f].text.len() > 0);
        assert forall|g: int|
            0 <= g < fields.len() && (#[trigger] fields[g]).text.len() > 0 && token_score(
                token,
                fields[g].text,
            ) is Some implies weighted(token, fields[g]) is Some by {}
    } else {
        lemma_no_winner(token, fields);
        reveal(weighted);
        assert forall|f: int| 0 <= f < fields.len() implies (#[trigger] fields[f]).text.len() == 0
            || token_score(token, fields[f].text) is None by {
            assert(weighted(token, fields[f]) is None);
        }
    }
}

/// The score of a field times its weight.
#[verifier::opaque]
spec fn weighted(token: Seq<char>, field: FieldView) -> Option<i32> {
    if field.text.len() > 0 && token_score(token, field.text) is Some {
        Some(token_score(token, field.text)->0.wrapping_mul(field.weight))
    } else {
        None
    }
}

proof fn lemma_best_step(token: Seq<char>, fields: Seq<FieldView>)
    requires
        fields.len() > 0,
    ensures
        ({
            let before = best_field(token, fields.drop_last());
            let last = weighted(token, fields.last());
            best_field(token, fields) == if last is None {
                before
            } else if before is None || last->0 > (before->0).0 {
                Some((last->0, fields.last().label))
            } else {
                before
            }
        }),
{
    reveal(weighted);
}

proof fn lemma_no_winner(token: Seq<char>, fields: Seq<FieldView>)
    requires
        best_field(token, fields) is None,
    ensures
        forall|f: int| 0 <= f < fields.len() ==> weighted(token, #[trigger] fields[f]) is None,
    decreases fields.len(),
{
    if fields.len() > 0 {
        let head = fields.drop_last();
        lemma_best_step(token, fields);
        lemma_no_winner(token, head);
        assert forall|f: int| 0 <= f < fields.len() implies weighted(
            token,
            #[trigger] fields[f],
        ) is None by {
            if f < head.len() {
                assert(head[f] == fields[f]);
            }
        }
    }
}

proof fn lemma_winner(token: Seq<char>, fields: Seq<FieldView>) -> (f: int)
    requires
        best_field(token, fields) is Some,
    ensures
        0 <= f < fields.len(),
        weighted(token, fields[f]) is Some,
        best_field(token, fields) == Some((weighted(token, fields[f])->0, fields[f].label)),
        forall|g: int|
            0 <= g < fields.len() && weighted(token, #[trigger] fields[g]) is Some ==> weighted(
                token,
                fields[g],
            )->0 <= weighted(token, fields[f])->0 && (g < f ==> weighted(token, fields[g])->0
                < weighted(token, fields[f])->0),
    decreases fields.len(),
{
    lemma_best_step(token, fields);
    let head = fields.drop_last();
    let last = fields.len() - 1;
    if best_field(token, head) is None {
        lemma_no_winner(token, head);
        assert forall|g: int|
            0 <= g < fields.len() && weighted(token, #[trigger] fields[g]) is Some implies g
            == last by {
            if g < last {
                assert(weighted(token, head[g]) is None);
            }
        }
        last
    } else {
        let before = lemma_winner(token, head);
        assert forall|g: int|
            0 <= g < last && weighted(token, #[trigger] fields[g]) is Some implies weighted(
            token,
            fields[g],
        )->0 <= weighted(token, head[before])->0 && (g < before ==> weighted(token, fields[g])->0
            < weighted(token, head[before])->0) by {
            assert(head[g] == fields[g]);
        }
        assert(head[before] == fields[before]);
        if weighted(token, fields[last]) is Some && weighted(token, fields[last])->0 > weighted(
            token,
            fields[before],
        )->0 {
            last
        } else {
            before
        }
    }
}

/// The score for the query as a whole, by the first of these that holds: the name of the entry is the
/// query, or starts with it, or the id starts with it, or the first letters of the name do. All but
/// the first lose what they have in bytes.
pub proof fn lemma_whole_query_cases(entry: EntryView, query: Seq<char>)
    requires
        byte_len(normalized(entry.name)) <= 10_000_000,
        byte_len(normalized(entry.id)) <= 10_000_000,
        byte_len(initials(normalized(entry.name))) <= 10_000_000,
    ensures
        ({
            let name = normalized(entry.name);
            let id = normalized(entry.id);
            let letters = initials(name);
            let whole = whole_query_score(entry, query);
            let in_name = query.is_prefix_of(name);
            let in_id = query.is_prefix_of(id);
            let in_letters = query.is_prefix_of(letters);
            &&& name == query ==> whole.score == 120_000 && whole.reasons == seq!["exact-name"@]
            &&& name != query && in_name ==> whole.score == 100_000 - byte_len(name)
                && whole.reasons == seq!["prefix-name"@]
            &&& !in_name && in_id ==> whole.score == 70_000 - byte_len(id) && whole.reasons == seq![
                "prefix-id"@,
            ]
            &&& !in_name && !in_id && in_letters ==> whole.score == 85_000 - byte_len(letters)
                && whole.reasons == seq!["acronym"@]
            &&& !in_name && !in_id && !in_letters ==> whole.score == 0 && whole.reasons
                == Seq::<Seq<char>>::empty()
        }),
{
    let name = normalized(entry.name);
    if name == query {
        assert(query.is_prefix_of(name));
    }
}

/// Each word of the query has to be found, and adds its score and a reason: the word, a colon and the
/// name of the field.
pub proof fn lemma_word_added(
    start: Scored,
    fields: Seq<FieldView>,
    before: Seq<Seq<char>>,
    token: Seq<char>,
    score: i32,
    label: Seq<char>,
)
    ensures
        with_tokens(start, fields, seq![]) == Some(start),
        with_tokens(start, fields, before) is None ==> with_tokens(
            start,
            fields,
            before.push(token),
        ) is None,
        best_field(token, fields) is None ==> with_tokens(start, fields, before.push(token)) is None,
        with_tokens(start, fields, before) is Some && best_field(token, fields) == Some(
            (score, label),
        ) ==> with_tokens(start, fields, before.push(token)) == Some(
            Scored {
                score: with_tokens(start, fields, before)->0.score.wrapping_add(score),
                reasons: with_tokens(start, fields, before)->0.reasons.push(
                    token + seq![':'] + label,
                ),
            },
        ),
{
    assert(before.push(token).drop_last() =~= before);
}

/// An entry is a result just where the query as a whole and its words have a score. The directory
/// adds 25 for each place before the tenth, and the launches what they are worth: 20000 and ten for
/// each, and from ten thousand on 120000. The reasons stand in one text with commas between them,
/// that of the launches last.
pub proof fn lemma_result_parts(doc: DocView, query: Seq<char>)
    ensures
        ({
            let scored = with_tokens(
                whole_query_score(doc.entry, query),
                fields_of(doc.entry),
                words(query),
            );
            let result = doc_result(doc, query);
            let rank = doc.entry.source_rank;
            let count = doc.history_count;
            let near: int = if rank < 10 {
                25 * (10 - rank)
            } else {
                0
            };
            let known: int = if count == 0 {
                0
            } else if count < 10_000 {
                20_000 + 10 * count
            } else {
                120_000
            };
            &&& result is Some <==> scored is Some
            &&& result is Some ==> result->0.entry == doc.entry
            &&& result is Some ==> result->0.score == scored->0.score.wrapping_add(
                near as i32,
            ).wrapping_add(known as i32)
            &&& result is Some && i32::MIN <= scored->0.score + near + known <= i32::MAX
                && scored->0.score + near <= i32::MAX ==> result->0.score == scored->0.score + near
                + known
            &&& result is Some && count == 0 ==> result->0.reason == joined(
                scored->0.reasons,
                seq![','],
            )
            &&& result is Some && count > 0 ==> result->0.reason == joined(
                scored->0.reasons.push("history:"@ + decimal(count as nat)),
                seq![','],
            )
        }),
{
    reveal(doc_result);
    reveal_strlit(",");
    assert(","@ =~= seq![',']);
}

/// What a directory and what launches are worth.
pub proof fn lemma_worth(rank: u8, count: u32)
    ensures
        rank < 10 ==> source_boost(rank) == 25 * (10 - rank),
        rank >= 10 ==> source_boost(rank) == 0,
        launch_score(0) == 0,
        0 < count < 10_000 ==> launch_score(count) == 20_000 + 10 * count,
        count >= 10_000 ==> launch_score(count) == 120_000,
{
}

// ---------------------------------------------------------------------------------------------
// Matches
// ---------------------------------------------------------------------------------------------

/// Of two matches the better has fewer errors, or else an earlier start, or else no greater length.
pub proof fn lemma_better(a: TypoSubstringMatch, b: TypoSubstringMatch)
    ensures
        match_precedes(a, b) <==> {
            ||| a.distance < b.distance
            ||| (a.distance == b.distance && a.start < b.start)
            ||| (a.distance == b.distance && a.start == b.start && a.matched_len <= b.matched_len)
        },
{
}

/// A word matches a field just where it matches the field or the field without its white space, and
/// the better of the two matches counts.
pub proof fn lemma_field_match(token: Seq<char>, field: Seq<char>, max_distance: nat)
    ensures
        ({
            let direct = closest_match(token, field, max_distance);
            let compact = closest_match(token, compacted(field), max_distance);
            let found = field_match(token, field, max_distance);
            &&& direct is None ==> found == compact
            &&& compact is None ==> found == direct
            &&& found is Some ==> found == direct || found == compact
            &&& found is Some && direct is Some ==> match_precedes(found->0, direct->0)
            &&& found is Some && compact is Some ==> match_precedes(found->0, compact->0)
        }),
{
    let direct = closest_match(token, field, max_distance);
    let compact = closest_match(token, compacted(field), max_distance);
    if direct is Some && compact is Some {
        assert(match_precedes(direct->0, compact->0) || match_precedes(compact->0, direct->0));
    }
}

/// The scores of fields of any size, which wrap round at the limits of 32 bits.
pub proof fn lemma_wrapped_scores(token: Seq<char>, field: Seq<char>, at: int)
    requires
        0 <= at,
        at + token.len() <= field.len(),
        field.subrange(at, at + token.len()) == token,
        forall|k: int|
            0 <= k < at ==> #[trigger] field.subrange(k, k + token.len()) != token,
    ensures
        at == 0 && field.len() > token.len() ==> token_score(token, field) == Some(
            9_000i32.wrapping_sub(byte_len(field) as i32),
        ),
        at > 0 ==> token_score(token, field) == Some(
            7_500i32.wrapping_sub((byte_len(field.take(at)) as i32).wrapping_mul(10)),
        ),
{
    lemma_first_occurrence(field, token, 0, at);
    if at == 0 {
        assert(token.is_prefix_of(field));
    } else {
        assert(field.subrange(0, 0 + token.len() as int) != token);
    }
}

/// A normal form is made of letters and digits with single spaces between them: it has no space at its
/// start or end, and no two in a row.
pub proof fn lemma_normal_shape(text: Seq<char>)
    ensures
        is_normal(text) <==> {
            &&& forall|i: int|
                0 <= i < text.len() ==> #[trigger] text[i] == ' ' || alphanumeric(text[i])
            &&& text.len() > 0 ==> text[0] != ' ' && text[text.len() - 1] != ' '
            &&& forall|i: int|
                0 <= i < text.len() - 1 ==> !(#[trigger] text[i] == ' ' && text[i + 1] == ' ')
        },
{
}

/// A part stands at a place just where each of its characters stands there, one after the other.
pub proof fn lemma_stands_at(text: Seq<char>, part: Seq<char>, at: int)
    ensures
        occurs_at(text, part, at) <==> 0 <= at && at + part.len() <= text.len() && forall|k: int|
            0 <= k < part.len() ==> #[trigger] part[k] == text[at + k],
{
    if 0 <= at && at + part.len() <= text.len() {
        let there = text.subrange(at, at + part.len());
        if forall|k: int| 0 <= k < part.len() ==> #[trigger] part[k] == text[at + k] {
            assert(there =~= part);
        }
        if there == part {
            assert forall|k: int| 0 <= k < part.len() implies #[trigger] part[k] == text[at + k] by {
                assert(there[k] == text[at + k]);
            }
        }
    }
}

} // verus!
