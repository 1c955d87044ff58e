//! Typo-resistant search over desktop entries.
use vstd::prelude::*;

use crate::desktop::{entry_views, DesktopEntry, EntryView};
use crate::distance::{
    bounded_distance, closest_match, distance, match_precedes, typo_substring_match_chars,
    TypoSubstringMatch,
};
use crate::history::{count_of, History};
use crate::order::{key_views, rank_order, ranked, sort_by_rank, KeyView, RankKey};
use crate::text::{
    ascii, ascii_lower, byte_len, decimal, find_char, from_chars, is_whitespace, join, joined, position, slice_views,
    split_whitespace, str_byte_len, string_views, to_chars, to_decimal, white_space, words,
};
use crate::unicode::{
    alphanumeric, ascii_alphanumeric, char_to_lowercase, combining_mark, compatibility_decomposition, is_alphanumeric,
    is_combining_mark, lowercase, lowercase_mapping, nfkd, str_to_lowercase,
};

pub use crate::distance::bounded_damerau_levenshtein;

verus! {

// ---------------------------------------------------------------------------------------------
// Normal form
// ---------------------------------------------------------------------------------------------

/// A decomposed text without combining marks and in lowercase.
pub open spec fn folded(decomposed: Seq<char>) -> Seq<char>
    decreases decomposed.len(),
{
    if decomposed.len() == 0 {
        seq![]
    } else if combining_mark(decomposed.last()) {
        folded(decomposed.drop_last())
    } else {
        folded(decomposed.drop_last()) + lowercase_mapping(decomposed.last())
    }
}

/// A text with one space for each run of characters that are not alphanumeric, and none at its
/// start.
pub open spec fn spaced(text: Seq<char>) -> Seq<char>
    decreases text.len(),
{
    if text.len() == 0 {
        seq![]
    } else {
        let before = spaced(text.drop_last());
        if alphanumeric(text.last()) {
            before.push(text.last())
        } else if before.len() > 0 && before.last() != ' ' {
            before.push(' ')
        } else {
            before
        }
    }
}

/// A text without a space at its end.
pub open spec fn without_last_space(text: Seq<char>) -> Seq<char> {
    if text.len() > 0 && text.last() == ' ' {
        text.drop_last()
    } else {
        text
    }
}

/// The normal form of a decomposed text.
pub open spec fn normal_form(decomposed: Seq<char>) -> Seq<char> {
    without_last_space(spaced(folded(decomposed)))
}

/// The normal form of a text: its letters and digits, without accents and in lowercase, and a
/// single space where something else stands between them.
pub open spec fn normalized(text: Seq<char>) -> Seq<char> {
    normal_form(compatibility_decomposition(text))
}

/// Whether a text is made of alphanumeric characters and single spaces between them.
pub open spec fn is_normal(text: Seq<char>) -> bool {
    &&& forall|i: int|
        0 <= i < text.len() ==> (#[trigger] text[i] == ' ' || alphanumeric(text[i]))
    &&& forall|i: int|
        0 <= i < text.len() && #[trigger] text[i] == ' ' ==> 0 < i < text.len() - 1 && text[i + 1]
            != ' '
}

/// An ASCII text in lowercase with one space for each run of characters that are neither letters nor
/// digits, and none at its start.
pub open spec fn ascii_spaced(text: Seq<char>) -> Seq<char>
    decreases text.len(),
{
    if text.len() == 0 {
        seq![]
    } else {
        let before = ascii_spaced(text.drop_last());
        let ch = ascii_lower(text.last());
        if ascii_alphanumeric(ch) {
            before.push(ch)
        } else if before.len() > 0 && before.last() != ' ' {
            before.push(' ')
        } else {
            before
        }
    }
}

/// The normal form of an ASCII text.
pub open spec fn ascii_normal_form(text: Seq<char>) -> Seq<char> {
    without_last_space(ascii_spaced(text))
}

/// The normal form of a text that is given decomposed.
pub fn normalize_decomposed(decomposed: &[char]) -> (res: String)
    ensures
        res@ == normal_form(decomposed@),
        is_normal(res@),
        ascii(decomposed@) ==> res@ == ascii_normal_form(decomposed@),
{
    let mut out: Vec<char> = Vec::new();
    let mut i: usize = 0;
    let ghost mut seen: Seq<char> = seq![];
    assert(decomposed@.take(0) =~= seq![]);
    while i < decomposed.len()
        invariant
            i <= decomposed@.len(),
            seen == folded(decomposed@.take(i as int)),
            out@ == spaced(seen),
            ascii(decomposed@) ==> out@ == ascii_spaced(decomposed@.take(i as int)),
            out@.len() > 0 ==> out@[0] != ' ',
            forall|k: int|
                0 <= k < out@.len() ==> (#[trigger] out@[k] == ' ' || alphanumeric(out@[k])),
            forall|k: int|
                0 <= k < out@.len() - 1 && #[trigger] out@[k] == ' ' ==> out@[k + 1] != ' ',
        decreases decomposed@.len() - i,
    {
        proof {
            assert(decomposed@.take(i + 1).drop_last() =~= decomposed@.take(i as int));
        }
        if !is_combining_mark(decomposed[i]) {
            let lower: Vec<char> = char_to_lowercase(decomposed[i]);
            let ghost before = seen;
            let mut j: usize = 0;
            assert(before + lower@.take(0) =~= before);
            while j < lower.len()
                invariant
                    i < decomposed@.len(),
                    decomposed@.take(i + 1).drop_last() == decomposed@.take(i as int),
                    j <= lower@.len(),
                    ascii(decomposed@) ==> lower@ == seq![ascii_lower(decomposed@[i as int])],
                    ascii(decomposed@) ==> out@ == ascii_spaced(decomposed@.take(i + j)),
                    seen == before + lower@.take(j as int),
                    out@ == spaced(seen),
                    out@.len() > 0 ==> out@[0] != ' ',
                    forall|k: int|
                        0 <= k < out@.len() ==> (#[trigger] out@[k] == ' ' || alphanumeric(out@[k])),
                    forall|k: int|
                        0 <= k < out@.len() - 1 && #[trigger] out@[k] == ' ' ==> out@[k + 1] != ' ',
                decreases lower@.len() - j,
            {
                let ch: char = lower[j];
                proof {
                    seen = seen.push(ch);
                    assert(seen =~= before + lower@.take(j + 1));
                    assert(seen.drop_last() =~= before + lower@.take(j as int));
                }
                if is_alphanumeric(ch) {
                    out.push(ch);
                } else if out.len() > 0 && out[out.len() - 1] != ' ' {
                    out.push(' ');
                }
                j += 1;
            }
            assert(lower@.take(j as int) =~= lower@);
        }
        i += 1;
    }
    assert(decomposed@.take(i as int) =~= decomposed@);
    if out.len() > 0 && out[out.len() - 1] == ' ' {
        let ghost full = out@;
        out.pop();
        assert(out@ =~= full.drop_last());
        assert forall|k: int| 0 <= k < out@.len() implies #[trigger] out@[k] == full[k] by {}
    }
    from_chars(out.as_slice())
}

/// The normal form of a text. For ASCII texts it is written out; for others it goes by the Unicode
/// tables, and with them stands or falls that a normal form is its own normal form: `std` and
/// `unicode_normalization` do not say that lowercase characters are decomposed already, nor that they
/// are their own lowercase.
pub fn normalize(input: &str) -> (res: String)
    ensures
        res@ == normalized(input@),
        is_normal(res@),
        ascii(input@) ==> res@ == ascii_normal_form(input@),
{
    let decomposed: Vec<char> = nfkd(input);
    normalize_decomposed(decomposed.as_slice())
}

/// The first characters of the words of a text.
pub open spec fn initials(text: Seq<char>) -> Seq<char> {
    Seq::new(words(text).len(), |i: int| words(text)[i][0])
}

/// The words of a text.
pub fn tokenize(normalized: &str) -> (res: Vec<String>)
    ensures
        string_views(res@) == words(normalized@),
{
    let chars: Vec<char> = to_chars(normalized);
    let parts: Vec<&[char]> = split_whitespace(chars.as_slice());
    let mut out: Vec<String> = Vec::new();
    let mut i: usize = 0;
    while i < parts.len()
        invariant
            i <= parts@.len(),
            out@.len() == i,
            forall|k: int| 0 <= k < i ==> (#[trigger] out@[k])@ == parts@[k]@,
        decreases parts@.len() - i,
    {
        out.push(from_chars(parts[i]));
        i += 1;
    }
    assert(string_views(out@) =~= slice_views(parts@));
    out
}

/// The first characters of the words of a name.
pub fn acronym(normalized_name: &str) -> (res: String)
    ensures
        res@ == initials(normalized_name@),
{
    let chars: Vec<char> = to_chars(normalized_name);
    let parts: Vec<&[char]> = split_whitespace(chars.as_slice());
    let mut out: Vec<char> = Vec::new();
    let mut i: usize = 0;
    proof {
        crate::text::lemma_words(normalized_name@);
    }
    while i < parts.len()
        invariant
            i <= parts@.len(),
            slice_views(parts@) == words(normalized_name@),
            forall|w: int|
                0 <= w < words(normalized_name@).len() ==> crate::text::is_word(
                    #[trigger] words(normalized_name@)[w],
                ),
            out@ == initials(normalized_name@).take(i as int),
        decreases parts@.len() - i,
    {
        let word = parts[i];
        assert(word@ == words(normalized_name@)[i as int]);
        out.push(word[0]);
        i += 1;
        assert(out@ =~= initials(normalized_name@).take(i as int));
    }
    assert(out@ =~= initials(normalized_name@));
    from_chars(out.as_slice())
}

// ---------------------------------------------------------------------------------------------
// Scoring a query word against a field
//
// Scores are 32-bit numbers and wrap around at their limits. Lengths and offsets count bytes.
// ---------------------------------------------------------------------------------------------

/// Whether `part` stands in `text` at position `at`.
pub open spec fn occurs_at(text: Seq<char>, part: Seq<char>, at: int) -> bool {
    0 <= at && at + part.len() <= text.len() && text.subrange(at, at + part.len()) == part
}

/// The first position from `from` on at which `part` stands in `text`.
pub open spec fn occurrence(text: Seq<char>, part: Seq<char>, from: nat) -> Option<nat>
    decreases text.len() + 1 - from,
{
    if from + part.len() > text.len() {
        None
    } else if occurs_at(text, part, from as int) {
        Some(from)
    } else {
        occurrence(text, part, from + 1)
    }
}

/// How many typing errors a word of the query may hold.
pub open spec fn budget(token: Seq<char>) -> nat {
    if token.len() <= 1 {
        0
    } else if token.len() <= 4 {
        1
    } else {
        2
    }
}

/// The score of a word of a field that is the token up to typing errors.
pub open spec fn word_score(token: Seq<char>, word: Seq<char>) -> Option<i32> {
    if distance(token, word) <= budget(token) {
        Some(
            6_700i32.wrapping_sub((distance(token, word) as i32).wrapping_mul(1_000)).wrapping_sub(
                byte_len(word) as i32,
            ),
        )
    } else {
        None
    }
}

/// The best of the words' scores.
pub open spec fn best_word_score(token: Seq<char>, words: Seq<Seq<char>>) -> Option<i32>
    decreases words.len(),
{
    if words.len() == 0 {
        None
    } else {
        match (best_word_score(token, words.drop_last()), word_score(token, words.last())) {
            (Some(best), Some(score)) => if score > best {
                Some(score)
            } else {
                Some(best)
            },
            (Some(best), None) => Some(best),
            (None, found) => found,
        }
    }
}

/// A text without its white space.
pub open spec fn compacted(text: Seq<char>) -> Seq<char>
    decreases text.len(),
{
    if text.len() == 0 {
        seq![]
    } else if white_space(text.last()) {
        compacted(text.drop_last())
    } else {
        compacted(text.drop_last()).push(text.last())
    }
}

/// The better of two matches, if there are any.
pub open spec fn better_match(
    a: Option<TypoSubstringMatch>,
    b: Option<TypoSubstringMatch>,
) -> Option<TypoSubstringMatch> {
    match (a, b) {
        (Some(a), Some(b)) => if match_precedes(a, b) {
            Some(a)
        } else {
            Some(b)
        },
        (Some(a), None) => Some(a),
        (None, b) => b,
    }
}

/// The closest match of a token inside a field, with or without the field's white space.
pub open spec fn field_match(
    token: Seq<char>,
    field: Seq<char>,
    max_distance: nat,
) -> Option<TypoSubstringMatch> {
    let direct = closest_match(token, field, max_distance);
    if compacted(field) == field {
        direct
    } else {
        better_match(direct, closest_match(token, compacted(field), max_distance))
    }
}

/// The score of a match inside a field.
pub open spec fn match_score(token: Seq<char>, found: TypoSubstringMatch) -> i32 {
    let off = if found.matched_len >= token.len() {
        found.matched_len - token.len()
    } else {
        token.len() - found.matched_len
    };
    6_500i32.wrapping_sub((found.distance as i32).wrapping_mul(1_000)).wrapping_sub(
        (found.start as i32).wrapping_mul(12),
    ).wrapping_sub((off as i32).wrapping_mul(40))
}

/// The number of bytes left out between the characters of a token where these first stand one
/// after the other in a field.
pub open spec fn subsequence_gaps(token: Seq<char>, field: Seq<char>) -> Option<nat>
    decreases token.len(),
{
    if token.len() == 0 {
        Some(0)
    } else {
        let at = position(field, token[0]) as int;
        if at < field.len() {
            match subsequence_gaps(token.drop_first(), field.skip(at + 1)) {
                Some(gaps) => Some(byte_len(field.take(at)) + gaps),
                None => None,
            }
        } else {
            None
        }
    }
}

/// The score of a token whose characters stand in a field in order.
pub open spec fn subsequence_value(token: Seq<char>, field: Seq<char>) -> Option<i32> {
    match subsequence_gaps(token, field) {
        Some(gaps) => Some(
            4_500i32.wrapping_sub((gaps as i32).wrapping_mul(20)).wrapping_sub(
                byte_len(field) as i32,
            ),
        ),
        None => None,
    }
}

/// The score of a token in a field: equal, a prefix, a part, a word with typing errors, a part
/// with typing errors, or its characters in order.
pub open spec fn token_score(token: Seq<char>, field: Seq<char>) -> Option<i32> {
    if field == token {
        Some(10_000)
    } else if token.is_prefix_of(field) {
        Some(9_000i32.wrapping_sub(byte_len(field) as i32))
    } else if let Some(at) = occurrence(field, token, 0) {
        Some(7_500i32.wrapping_sub((byte_len(field.take(at as int)) as i32).wrapping_mul(10)))
    } else if let Some(score) = best_word_score(token, words(field)) {
        Some(score)
    } else if let Some(found) = field_match(token, field, budget(token)) {
        Some(match_score(token, found))
    } else {
        subsequence_value(token, field)
    }
}

/// A searched text of an entry, with its weight and its name.
#[derive(Debug)]
pub struct WeightedField {
    text: String,
    chars: Vec<char>,
    compact_chars: Option<Vec<char>>,
    weight: i32,
    label: &'static str,
}

/// The model of a [`WeightedField`].
#[verifier::ext_equal]
pub struct FieldView {
    pub text: Seq<char>,
    pub weight: i32,
    pub label: Seq<char>,
}

impl View for WeightedField {
    type V = FieldView;

    closed spec fn view(&self) -> FieldView {
        FieldView { text: self.text@, weight: self.weight, label: self.label@ }
    }
}

/// Taking out the white space shortens a text just where it has any, and leaves other texts alone.
pub proof fn lemma_compacted(text: Seq<char>)
    ensures
        compacted(text).len() <= text.len(),
        (forall|i: int| 0 <= i < text.len() ==> !white_space(#[trigger] text[i])) ==> compacted(
            text,
        ) == text,
        (exists|i: int| 0 <= i < text.len() && white_space(#[trigger] text[i])) ==> compacted(
            text,
        ).len() < text.len(),
    decreases text.len(),
{
    if text.len() > 0 {
        let head = text.drop_last();
        lemma_compacted(head);
        if forall|i: int| 0 <= i < text.len() ==> !white_space(#[trigger] text[i]) {
            assert forall|i: int| 0 <= i < head.len() implies !white_space(#[trigger] head[i]) by {
                assert(head[i] == text[i]);
            }
            assert(compacted(text) =~= text);
        }
        if exists|i: int| 0 <= i < text.len() && white_space(#[trigger] text[i]) {
            let i = choose|i: int| 0 <= i < text.len() && white_space(#[trigger] text[i]);
            if i < head.len() {
                assert(head[i] == text[i]);
            }
        }
    } else {
        assert(compacted(text) =~= text);
    }
}

impl WeightedField {
    #[verifier::type_invariant]
    spec fn inv(self) -> bool {
        &&& self.chars@ == self.text@
        &&& match self.compact_chars {
            Some(chars) => chars@ == compacted(self.text@) && compacted(self.text@) != self.text@,
            None => compacted(self.text@) == self.text@,
        }
    }

    /// A field with the given text, weight and name.
    pub fn new(text: String, weight: i32, label: &'static str) -> (res: Self)
        ensures
            res@ == (FieldView { text: text@, weight, label: label@ }),
    {
        let chars: Vec<char> = to_chars(text.as_str());
        let mut compact: Vec<char> = Vec::new();
        let mut i: usize = 0;
        let ghost mut blank: int = -1;
        assert(chars@.take(0) =~= seq![]);
        while i < chars.len()
            invariant
                i <= chars@.len(),
                compact@ == compacted(chars@.take(i as int)),
                blank == -1 ==> forall|k: int| 0 <= k < i ==> !white_space(#[trigger] chars@[k]),
                blank != -1 ==> 0 <= blank < i && white_space(chars@[blank]),
            decreases chars@.len() - i,
        {
            proof {
                assert(chars@.take(i + 1).drop_last() =~= chars@.take(i as int));
            }
            if !is_whitespace(chars[i]) {
                compact.push(chars[i]);
            } else {
                proof {
                    blank = i as int;
                }
            }
            i += 1;
        }
        proof {
            assert(chars@.take(i as int) =~= chars@);
            lemma_compacted(chars@);
        }
        let compact_chars: Option<Vec<char>> = if compact.len() < chars.len() {
            Some(compact)
        } else {
            None
        };
        WeightedField { text, chars, compact_chars, weight, label }
    }
}

impl Clone for WeightedField {
    fn clone(&self) -> (res: Self)
        ensures
            res@ == self@,
    {
        WeightedField::new(self.text.clone(), self.weight, self.label)
    }
}

fn same_chars(a: &[char], b: &[char]) -> (res: bool)
    ensures
        res == (a@ == b@),
{
    if a.len() != b.len() {
        return false;
    }
    let mut i: usize = 0;
    while i < a.len()
        invariant
            i <= a@.len() == b@.len(),
            forall|k: int| 0 <= k < i ==> a@[k] == b@[k],
        decreases a@.len() - i,
    {
        if a[i] != b[i] {
            assert(a@[i as int] != b@[i as int]);
            return false;
        }
        i += 1;
    }
    assert(a@ =~= b@);
    true
}

fn stands_at(text: &[char], part: &[char], at: usize) -> (res: bool)
    ensures
        res == occurs_at(text@, part@, at as int),
{
    if part.len() > text.len() || at > text.len() - part.len() {
        return false;
    }
    let mut i: usize = 0;
    let ghost there = text@.subrange(at as int, at + part@.len());
    while i < part.len()
        invariant
            i <= part@.len(),
            at + part@.len() <= text@.len(),
            text@.len() <= usize::MAX,
            there == text@.subrange(at as int, at + part@.len()),
            forall|k: int| 0 <= k < i ==> there[k] == part@[k],
        decreases part@.len() - i,
    {
        if text[at + i] != part[i] {
            assert(there[i as int] != part@[i as int]);
            return false;
        }
        i += 1;
    }
    assert(there =~= part@);
    true
}

fn starts_with(text: &[char], prefix: &[char]) -> (res: bool)
    ensures
        res == prefix@.is_prefix_of(text@),
{
    stands_at(text, prefix, 0)
}

fn find(text: &[char], part: &[char]) -> (res: Option<usize>)
    ensures
        match occurrence(text@, part@, 0) {
            Some(at) => res matches Some(found) && found == at && at <= text@.len(),
            None => res is None,
        },
{
    if part.len() > text.len() {
        return None;
    }
    let last: usize = text.len() - part.len();
    let mut at: usize = 0;
    loop
        invariant
            at <= last,
            last == text@.len() - part@.len(),
            occurrence(text@, part@, 0) == occurrence(text@, part@, at as nat),
        decreases last - at,
    {
        if stands_at(text, part, at) {
            return Some(at);
        }
        if at == last {
            assert(occurrence(text@, part@, (at + 1) as nat) is None);
            return None;
        }
        at += 1;
    }
}

/// How many typing errors a word of the query may hold.
pub fn typo_budget(token: &[char]) -> (res: usize)
    ensures
        res == budget(token@),
{
    let len: usize = token.len();
    if len <= 1 {
        0
    } else if len <= 4 {
        1
    } else {
        2
    }
}

/// The better of two matches: by distance, then by start, then by length.
pub fn best_typo_substring_match(
    a: TypoSubstringMatch,
    b: TypoSubstringMatch,
) -> (res: TypoSubstringMatch)
    ensures
        res == (if match_precedes(a, b) {
            a
        } else {
            b
        }),
{
    if a.distance < b.distance || (a.distance == b.distance && (a.start < b.start || (a.start
        == b.start && a.matched_len <= b.matched_len))) {
        a
    } else {
        b
    }
}

/// The closest match of a token inside a field, with or without the field's white space.
pub fn typo_substring_match(
    token_chars: &[char],
    field: &WeightedField,
    max_distance: usize,
) -> (res: Option<TypoSubstringMatch>)
    ensures
        res == field_match(token_chars@, field@.text, max_distance as nat),
{
    proof {
        use_type_invariant(field);
    }
    let direct = typo_substring_match_chars(token_chars, field.chars.as_slice(), max_distance);
    match &field.compact_chars {
        Some(chars) => {
            let compact = typo_substring_match_chars(token_chars, chars.as_slice(), max_distance);
            match (direct, compact) {
                (Some(a), Some(b)) => Some(best_typo_substring_match(a, b)),
                (Some(a), None) => Some(a),
                (None, b) => b,
            }
        },
        None => direct,
    }
}

/// The score of a token whose characters stand in a field in order.
pub fn subsequence_score(token: &[char], field: &str) -> (res: Option<i32>)
    ensures
        res == subsequence_value(token@, field@),
{
    let len: usize = str_byte_len(field);
    let chars: Vec<char> = to_chars(field);
    let mut from: usize = 0;
    let mut gaps: usize = 0;
    let mut i: usize = 0;
    assert(token@.skip(0) =~= token@);
    assert(field@.skip(0) =~= field@);
    assert(field@.take(0) =~= seq![]);
    while i < token.len()
        invariant
            i <= token@.len(),
            from <= field@.len(),
            chars@ == field@,
            len == byte_len(field@),
            gaps <= byte_len(field@.take(from as int)),
            match subsequence_gaps(token@.skip(i as int), field@.skip(from as int)) {
                Some(more) => subsequence_gaps(token@, field@) == Some((gaps + more) as nat),
                None => subsequence_gaps(token@, field@) is None,
            },
        decreases token@.len() - i,
    {
        let rest = vstd::slice::slice_subrange(chars.as_slice(), from, chars.len());
        let at: usize = find_char(rest, token[i]);
        proof {
            assert(rest@ =~= field@.skip(from as int));
            crate::text::lemma_position(rest@, token@[i as int]);
            assert(token@.skip(i as int)[0] == token@[i as int]);
        }
        if at == rest.len() {
            return None;
        }
        let skipped = field.substring_char(from, from + at);
        let skipped_len: usize = str_byte_len(skipped);
        proof {
            assert(skipped@ =~= rest@.take(at as int));
            assert(token@.skip(i as int).drop_first() =~= token@.skip(i + 1));
            assert(rest@.skip(at + 1) =~= field@.skip(from + at + 1));
            let before = field@.take(from as int);
            let next = field@.take(from + at + 1);
            let found = seq![field@[from + at]];
            assert(next =~= (before + skipped@) + found);
            crate::text::lemma_byte_len_concat(before + skipped@, found);
            crate::text::lemma_byte_len_concat(before, skipped@);
            assert(field@ =~= next + field@.skip(from + at + 1));
            crate::text::lemma_byte_len_concat(next, field@.skip(from + at + 1));
        }
        gaps += skipped_len;
        from += at + 1;
        i += 1;
    }
    proof {
        assert(token@.skip(i as int) =~= seq![]);
    }
    Some(4_500i32.wrapping_sub((gaps as i32).wrapping_mul(20)).wrapping_sub(len as i32))
}

fn best_word(token: &[char], words: &Vec<&[char]>) -> (res: Option<i32>)
    ensures
        res == best_word_score(token@, slice_views(words@)),
{
    let limit: usize = typo_budget(token);
    let mut best: Option<i32> = None;
    let mut i: usize = 0;
    let ghost views = slice_views(words@);
    assert(views.take(0) =~= seq![]);
    while i < words.len()
        invariant
            i <= words@.len(),
            limit == budget(token@),
            views == slice_views(words@),
            best == best_word_score(token@, views.take(i as int)),
        decreases words@.len() - i,
    {
        proof {
            assert(views.take(i + 1).drop_last() =~= views.take(i as int));
            assert(views.take(i + 1).last() == words@[i as int]@);
        }
        if let Some(distance) = bounded_distance(token, words[i], limit) {
            let word: String = from_chars(words[i]);
            let len: usize = str_byte_len(word.as_str());
            let candidate: i32 = 6_700i32.wrapping_sub(
                (distance as i32).wrapping_mul(1_000),
            ).wrapping_sub(len as i32);
            best = match best {
                Some(current) => if candidate > current {
                    Some(candidate)
                } else {
                    Some(current)
                },
                None => Some(candidate),
            };
        }
        i += 1;
    }
    assert(views.take(i as int) =~= views);
    best
}

/// The score of a word of the query in a field.
pub fn score_token(token_chars: &[char], field: &WeightedField) -> (res: Option<i32>)
    ensures
        res == token_score(token_chars@, field@.text),
{
    proof {
        use_type_invariant(field);
    }
    let chars: &[char] = field.chars.as_slice();
    if same_chars(chars, token_chars) {
        return Some(10_000);
    }
    if starts_with(chars, token_chars) {
        let len: usize = str_byte_len(field.text.as_str());
        return Some(9_000i32.wrapping_sub(len as i32));
    }
    if let Some(at) = find(chars, token_chars) {
        let before = field.text.as_str().substring_char(0, at);
        let pos: usize = str_byte_len(before);
        assert(before@ =~= field.text@.take(at as int));
        return Some(7_500i32.wrapping_sub((pos as i32).wrapping_mul(10)));
    }
    let parts: Vec<&[char]> = split_whitespace(chars);
    let best: Option<i32> = best_word(token_chars, &parts);
    if best.is_some() {
        return best;
    }
    if let Some(found) = typo_substring_match(token_chars, field, typo_budget(token_chars)) {
        let len: usize = token_chars.len();
        let off: usize = if found.matched_len >= len {
            found.matched_len - len
        } else {
            len - found.matched_len
        };
        return Some(
            6_500i32.wrapping_sub((found.distance as i32).wrapping_mul(1_000)).wrapping_sub(
                (found.start as i32).wrapping_mul(12),
            ).wrapping_sub((off as i32).wrapping_mul(40)),
        );
    }
    subsequence_score(token_chars, field.text.as_str())
}

// ---------------------------------------------------------------------------------------------
// Scoring a query against an entry
// ---------------------------------------------------------------------------------------------

/// An entry of the index and how often it was launched.
#[verifier::ext_equal]
pub struct DocView {
    pub entry: EntryView,
    pub history_count: u32,
}

/// A result of a search.
#[derive(Debug)]
pub struct SearchResult {
    pub score: i32,
    pub reason: String,
    pub entry: DesktopEntry,
}

/// The model of a [`SearchResult`].
#[verifier::ext_equal]
pub struct ResultView {
    pub score: i32,
    pub reason: Seq<char>,
    pub entry: EntryView,
}

impl View for SearchResult {
    type V = ResultView;

    open spec fn view(&self) -> ResultView {
        ResultView { score: self.score, reason: self.reason@, entry: self.entry@ }
    }
}

impl Clone for SearchResult {
    fn clone(&self) -> (res: Self)
        ensures
            res@ == self@,
    {
        SearchResult {
            score: self.score,
            reason: self.reason.clone(),
            entry: self.entry.clone(),
        }
    }
}

/// The models of a list of results.
pub open spec fn result_views(results: Seq<SearchResult>) -> Seq<ResultView> {
    Seq::new(results.len(), |i: int| results[i]@)
}

/// A score and the reasons for it.
#[verifier::ext_equal]
pub struct Scored {
    pub score: i32,
    pub reasons: Seq<Seq<char>>,
}

/// The fields for a list of texts.
pub open spec fn list_fields(
    texts: Seq<Seq<char>>,
    weight: i32,
    label: Seq<char>,
) -> Seq<FieldView> {
    Seq::new(texts.len(), |i: int| FieldView { text: normalized(texts[i]), weight, label })
}

/// The field for a text that may be missing.
pub open spec fn optional_fields(
    text: Option<Seq<char>>,
    weight: i32,
    label: Seq<char>,
) -> Seq<FieldView> {
    match text {
        Some(text) => seq![FieldView { text: normalized(text), weight, label }],
        None => seq![],
    }
}

/// The searched texts of an entry. The name weighs most, then keywords.
pub open spec fn fields_of(entry: EntryView) -> Seq<FieldView> {
    seq![
        FieldView { text: normalized(entry.name), weight: 10, label: "name"@ },
        FieldView { text: normalized(entry.id), weight: 4, label: "id"@ },
    ] + optional_fields(entry.generic_name, 6, "generic-name"@) + optional_fields(
        entry.comment,
        2,
        "comment"@,
    ) + list_fields(entry.keywords, 8, "keyword"@) + list_fields(
        entry.categories,
        2,
        "category"@,
    )
}

/// The score that earlier launches give an entry.
pub open spec fn launch_score(count: u32) -> i32 {
    if count == 0 {
        0
    } else if count < 10_000 {
        (20_000 + count * 10) as i32
    } else {
        120_000
    }
}

/// The small advantage of the directories that are searched first.
pub open spec fn source_boost(source_rank: u8) -> i32 {
    if source_rank < 10 {
        ((10 - source_rank) * 25) as i32
    } else {
        0
    }
}

/// The score of the whole query: the name, the start of the name, of the id or of the acronym.
pub open spec fn whole_query_score(entry: EntryView, query: Seq<char>) -> Scored {
    let name = normalized(entry.name);
    let id = normalized(entry.id);
    let acronym = initials(name);
    if name == query {
        Scored { score: 120_000, reasons: seq!["exact-name"@] }
    } else if query.is_prefix_of(name) {
        Scored {
            score: 100_000i32.wrapping_sub(byte_len(name) as i32),
            reasons: seq!["prefix-name"@],
        }
    } else if query.is_prefix_of(id) {
        Scored {
            score: 70_000i32.wrapping_sub(byte_len(id) as i32),
            reasons: seq!["prefix-id"@],
        }
    } else if query.is_prefix_of(acronym) {
        Scored {
            score: 85_000i32.wrapping_sub(byte_len(acronym) as i32),
            reasons: seq!["acronym"@],
        }
    } else {
        Scored { score: 0, reasons: seq![] }
    }
}

/// The best weighted score of a token over the fields, and the name of the first field with it.
pub open spec fn best_field(token: Seq<char>, fields: Seq<FieldView>) -> Option<(i32, Seq<char>)>
    decreases fields.len(),
{
    if fields.len() == 0 {
        None
    } else {
        let before = best_field(token, fields.drop_last());
        let field = fields.last();
        if field.text.len() == 0 {
            before
        } else {
            match token_score(token, field.text) {
                Some(raw) => {
                    let weighted = raw.wrapping_mul(field.weight);
                    match before {
                        Some((best, label)) => if weighted > best {
                            Some((weighted, field.label))
                        } else {
                            Some((best, label))
                        },
                        None => Some((weighted, field.label)),
                    }
                },
                None => before,
            }
        }
    }
}

/// The score with those of the tokens added. Every token has to be found in some field.
pub open spec fn with_tokens(
    start: Scored,
    fields: Seq<FieldView>,
    tokens: Seq<Seq<char>>,
) -> Option<Scored>
    decreases tokens.len(),
{
    if tokens.len() == 0 {
        Some(start)
    } else {
        match (
            with_tokens(start, fields, tokens.drop_last()),
            best_field(tokens.last(), fields),
        ) {
            (Some(before), Some((score, label))) => Some(
                Scored {
                    score: before.score.wrapping_add(score),
                    reasons: before.reasons.push(tokens.last() + seq![':'] + label),
                },
            ),
            _ => None,
        }
    }
}

/// The reason that names the number of launches.
pub open spec fn launch_reason(count: u32) -> Seq<char> {
    "history:"@ + decimal(count as nat)
}

/// The result for an entry of the index, if it matches the query.
#[verifier::opaque]
pub open spec fn doc_result(doc: DocView, query: Seq<char>) -> Option<ResultView> {
    match with_tokens(whole_query_score(doc.entry, query), fields_of(doc.entry), words(query)) {
        Some(scored) => {
            let boosted = scored.score.wrapping_add(source_boost(doc.entry.source_rank));
            let scored = if doc.history_count > 0 {
                Scored {
                    score: boosted.wrapping_add(launch_score(doc.history_count)),
                    reasons: scored.reasons.push(launch_reason(doc.history_count)),
                }
            } else {
                Scored { score: boosted, reasons: scored.reasons }
            };
            Some(
                ResultView {
                    score: scored.score,
                    reason: joined(scored.reasons, ","@),
                    entry: doc.entry,
                },
            )
        },
        None => None,
    }
}

/// A text and its characters.
#[derive(Debug)]
struct NormalText {
    text: String,
    chars: Vec<char>,
}

impl NormalText {
    spec fn holds(self, text: Seq<char>) -> bool {
        self.text@ == text && self.chars@ == text
    }

    fn new(text: String) -> (res: Self)
        ensures
            res.holds(text@),
    {
        let chars: Vec<char> = to_chars(text.as_str());
        NormalText { text, chars }
    }

    fn byte_len(&self) -> (res: usize)
        ensures
            res == byte_len(self.text@),
    {
        str_byte_len(self.text.as_str())
    }
}

#[derive(Debug)]
struct SearchDoc {
    entry: DesktopEntry,
    name: NormalText,
    id: NormalText,
    acronym: NormalText,
    weighted_fields: Vec<WeightedField>,
    history_count: u32,
}

spec fn field_views(fields: Seq<WeightedField>) -> Seq<FieldView> {
    Seq::new(fields.len(), |i: int| fields[i]@)
}

fn push_fields(
    fields: &mut Vec<WeightedField>,
    texts: &Vec<String>,
    weight: i32,
    label: &'static str,
)
    ensures
        field_views(final(fields)@) == field_views(old(fields)@) + list_fields(
            string_views(texts@),
            weight,
            label@,
        ),
{
    let mut i: usize = 0;
    let ghost added = list_fields(string_views(texts@), weight, label@);
    assert(field_views(fields@) + added.take(0) =~= field_views(fields@));
    while i < texts.len()
        invariant
            i <= texts@.len(),
            added == list_fields(string_views(texts@), weight, label@),
            field_views(fields@) == field_views(old(fields)@) + added.take(i as int),
        decreases texts@.len() - i,
    {
        let ghost before = fields@;
        fields.push(WeightedField::new(normalize(texts[i].as_str()), weight, label));
        proof {
            assert(field_views(fields@) =~= field_views(before).push(added[i as int]));
            assert(added.take(i + 1) =~= added.take(i as int).push(added[i as int]));
            assert(field_views(fields@) =~= field_views(old(fields)@) + added.take(i + 1));
        }
        i += 1;
    }
    assert(added.take(i as int) =~= added);
}

fn push_field(
    fields: &mut Vec<WeightedField>,
    text: &Option<String>,
    weight: i32,
    label: &'static str,
)
    ensures
        field_views(final(fields)@) == field_views(old(fields)@) + optional_fields(
            crate::text::option_view(*text),
            weight,
            label@,
        ),
{
    if let Some(text) = text {
        fields.push(WeightedField::new(normalize(text.as_str()), weight, label));
    }
    assert(field_views(fields@) =~= field_views(old(fields)@) + optional_fields(
        crate::text::option_view(*text),
        weight,
        label@,
    ));
}

impl SearchDoc {
    spec fn wf(self) -> bool {
        &&& self.name.holds(normalized(self.entry@.name))
        &&& self.id.holds(normalized(self.entry@.id))
        &&& self.acronym.holds(initials(normalized(self.entry@.name)))
        &&& field_views(self.weighted_fields@) == fields_of(self.entry@)
    }

    spec fn doc(self) -> DocView {
        DocView { entry: self.entry@, history_count: self.history_count }
    }

    fn new(entry: DesktopEntry, history: &History) -> (res: Self)
        ensures
            res.wf(),
            res.doc() == (DocView {
                entry: entry@,
                history_count: count_of(history@, entry.name@),
            }),
    {
        let history_count: u32 = history.count_for(entry.name.as_str());
        let name_norm: String = normalize(entry.name.as_str());
        let id_norm: String = normalize(entry.id.as_str());
        let acronym_text: String = acronym(name_norm.as_str());
        let mut weighted_fields: Vec<WeightedField> = Vec::new();
        weighted_fields.push(WeightedField::new(name_norm.clone(), 10, "name"));
        weighted_fields.push(WeightedField::new(id_norm.clone(), 4, "id"));
        assert(field_views(weighted_fields@) =~= seq![
            FieldView { text: normalized(entry@.name), weight: 10, label: "name"@ },
            FieldView { text: normalized(entry@.id), weight: 4, label: "id"@ },
        ]);
        push_field(&mut weighted_fields, &entry.generic_name, 6, "generic-name");
        push_field(&mut weighted_fields, &entry.comment, 2, "comment");
        push_fields(&mut weighted_fields, &entry.keywords, 8, "keyword");
        push_fields(&mut weighted_fields, &entry.categories, 2, "category");
        SearchDoc {
            name: NormalText::new(name_norm),
            id: NormalText::new(id_norm),
            acronym: NormalText::new(acronym_text),
            weighted_fields,
            history_count,
            entry,
        }
    }

    fn copy(&self) -> (res: Self)
        requires
            self.wf(),
        ensures
            res.wf(),
            res.doc() == self.doc(),
    {
        let mut weighted_fields: Vec<WeightedField> = Vec::new();
        let mut i: usize = 0;
        let ghost views = field_views(self.weighted_fields@);
        while i < self.weighted_fields.len()
            invariant
                i <= self.weighted_fields@.len(),
                views == field_views(self.weighted_fields@),
                field_views(weighted_fields@) == views.take(i as int),
            decreases self.weighted_fields@.len() - i,
        {
            let ghost before = weighted_fields@;
            weighted_fields.push(self.weighted_fields[i].clone());
            i += 1;
            assert(field_views(weighted_fields@) =~= field_views(before).push(views[i - 1]));
            assert(field_views(weighted_fields@) =~= views.take(i as int));
        }
        assert(views.take(i as int) =~= views);
        SearchDoc {
            entry: self.entry.clone(),
            name: NormalText::new(self.name.text.clone()),
            id: NormalText::new(self.id.text.clone()),
            acronym: NormalText::new(self.acronym.text.clone()),
            weighted_fields,
            history_count: self.history_count,
        }
    }

    fn history_score(&self) -> (res: i32)
        ensures
            res == launch_score(self.history_count),
    {
        if self.history_count == 0 {
            0
        } else if self.history_count < 10_000 {
            20_000 + self.history_count as i32 * 10
        } else {
            120_000
        }
    }
}

fn best_field_for(token: &[char], fields: &Vec<WeightedField>) -> (res: Option<(i32, &'static str)>)
    ensures
        match best_field(token@, field_views(fields@)) {
            Some((score, label)) => res matches Some((found, name)) && found == score && name@
                == label,
            None => res is None,
        },
{
    let mut best: Option<(i32, &'static str)> = None;
    let mut i: usize = 0;
    let ghost views = field_views(fields@);
    assert(views.take(0) =~= seq![]);
    while i < fields.len()
        invariant
            i <= fields@.len(),
            views == field_views(fields@),
            match best_field(token@, views.take(i as int)) {
                Some((score, label)) => best matches Some((found, name)) && found == score && name@
                    == label,
                None => best is None,
            },
        decreases fields@.len() - i,
    {
        let field = &fields[i];
        proof {
            assert(views.take(i + 1).drop_last() =~= views.take(i as int));
            assert(views.take(i + 1).last() == field@);
        }
        if !field.text.as_str().is_empty() {
            if let Some(raw) = score_token(token, field) {
                let weighted: i32 = raw.wrapping_mul(field.weight);
                let better: bool = match best {
                    Some((score, _)) => weighted > score,
                    None => true,
                };
                if better {
                    best = Some((weighted, field.label));
                }
            }
        }
        i += 1;
    }
    assert(views.take(i as int) =~= views);
    best
}

fn score_doc(doc: &SearchDoc, query: &[char], tokens: &Vec<String>) -> (res: Option<SearchResult>)
    requires
        doc.wf(),
        string_views(tokens@) == words(query@),
    ensures
        match doc_result(doc.doc(), query@) {
            Some(result) => res matches Some(found) && found@ == result,
            None => res is None,
        },
{
    proof {
        reveal(doc_result);
    }
    let mut score: i32 = 0;
    let mut reasons: Vec<String> = Vec::new();
    if same_chars(doc.name.chars.as_slice(), query) {
        score = 120_000;
        reasons.push("exact-name".to_owned());
    } else if starts_with(doc.name.chars.as_slice(), query) {
        let len: usize = doc.name.byte_len();
        score = 100_000i32.wrapping_sub(len as i32);
        reasons.push("prefix-name".to_owned());
    } else if starts_with(doc.id.chars.as_slice(), query) {
        let len: usize = doc.id.byte_len();
        score = 70_000i32.wrapping_sub(len as i32);
        reasons.push("prefix-id".to_owned());
    } else if starts_with(doc.acronym.chars.as_slice(), query) {
        let len: usize = doc.acronym.byte_len();
        score = 85_000i32.wrapping_sub(len as i32);
        reasons.push("acronym".to_owned());
    }
    let ghost start = whole_query_score(doc.entry@, query@);
    let ghost fields = fields_of(doc.entry@);
    let ghost views = words(query@);
    proof {
        assert(string_views(reasons@) =~= start.reasons);
        assert(views.take(0) =~= seq![]);
        assert(start == (Scored { score, reasons: string_views(reasons@) }));
    }
    let mut i: usize = 0;
    while i < tokens.len()
        invariant
            i <= tokens@.len(),
            doc.wf(),
            fields == fields_of(doc.entry@),
            start == whole_query_score(doc.entry@, query@),
            views == words(query@),
            views == string_views(tokens@),
            with_tokens(start, fields, views.take(i as int)) == Some(
                Scored { score, reasons: string_views(reasons@) },
            ),
        decreases tokens@.len() - i,
    {
        let token: Vec<char> = to_chars(tokens[i].as_str());
        let ghost next = views.take(i + 1);
        proof {
            assert(next.drop_last() =~= views.take(i as int));
            assert(next.last() == token@);
        }
        match best_field_for(token.as_slice(), &doc.weighted_fields) {
            Some((token_score, label)) => {
                let ghost before = reasons@;
                score = score.wrapping_add(token_score);
                let mut reason: String = tokens[i].clone();
                reason.push(':');
                reason.append(label);
                reasons.push(reason);
                proof {
                    assert(reason@ =~= next.last() + seq![':'] + label@);
                    assert(string_views(reasons@) =~= string_views(before).push(reason@));
                }
            },
            None => {
                proof {
                    reveal(doc_result);
                    lemma_no_result(start, fields, views, i + 1);
                }
                return None;
            },
        }
        i += 1;
    }
    assert(views.take(i as int) =~= views);
    let boost: i32 = if doc.entry.source_rank < 10 {
        (10 - doc.entry.source_rank as i32) * 25
    } else {
        0
    };
    score = score.wrapping_add(boost);
    if doc.history_count > 0 {
        let ghost before = reasons@;
        score = score.wrapping_add(doc.history_score());
        let mut reason: String = "history:".to_owned();
        let count: String = to_decimal(doc.history_count as u64);
        reason.append(count.as_str());
        reasons.push(reason);
        assert(string_views(reasons@) =~= string_views(before).push(reason@));
    }
    Some(SearchResult { score, reason: join(&reasons, ","), entry: doc.entry.clone() })
}

proof fn lemma_no_result(start: Scored, fields: Seq<FieldView>, tokens: Seq<Seq<char>>, len: int)
    requires
        0 <= len <= tokens.len(),
        with_tokens(start, fields, tokens.take(len)) is None,
    ensures
        with_tokens(start, fields, tokens) is None,
    decreases tokens.len(),
{
    if len == tokens.len() {
        assert(tokens.take(len) =~= tokens);
    } else {
        assert(tokens.drop_last().take(len) =~= tokens.take(len));
        lemma_no_result(start, fields, tokens.drop_last(), len);
    }
}

// ---------------------------------------------------------------------------------------------
// The index
// ---------------------------------------------------------------------------------------------

/// What an entry is listed by while the query is empty: launches, directory, name.
pub open spec fn doc_key(doc: DocView) -> KeyView {
    KeyView {
        weight: doc.history_count as int,
        rank: doc.entry.source_rank as int,
        name: lowercase(doc.entry.name),
    }
}

/// What a result is listed by: score, directory, name.
pub open spec fn result_key(result: ResultView) -> KeyView {
    KeyView {
        weight: result.score as int,
        rank: result.entry.source_rank as int,
        name: lowercase(result.entry.name),
    }
}

/// The entries with their launch counts, as listed while the query is empty.
pub open spec fn indexed(entries: Seq<EntryView>, counts: Map<Seq<char>, u32>) -> Seq<DocView> {
    let docs = Seq::new(
        entries.len(),
        |i: int|
            DocView { entry: entries[i], history_count: count_of(counts, entries[i].name) },
    );
    ranked(docs, Seq::new(docs.len(), |i: int| doc_key(docs[i])))
}

/// The first `limit` items of a list.
pub open spec fn at_most<T>(items: Seq<T>, limit: nat) -> Seq<T> {
    if items.len() <= limit {
        items
    } else {
        items.take(limit as int)
    }
}

/// The results for the entries that match a query, in the order of the index.
pub open spec fn hits(docs: Seq<DocView>, query: Seq<char>) -> Seq<ResultView>
    decreases docs.len(),
{
    if docs.len() == 0 {
        seq![]
    } else {
        match doc_result(docs.last(), query) {
            Some(result) => hits(docs.drop_last(), query).push(result),
            None => hits(docs.drop_last(), query),
        }
    }
}

/// The result for an entry while the query is empty.
pub open spec fn listed_result(doc: DocView) -> ResultView {
    ResultView {
        score: launch_score(doc.history_count),
        reason: if doc.history_count > 0 {
            launch_reason(doc.history_count)
        } else {
            "empty-query"@
        },
        entry: doc.entry,
    }
}

/// The results of a search for a query in normal form.
pub open spec fn found(docs: Seq<DocView>, query: Seq<char>, limit: nat) -> Seq<ResultView> {
    if query.len() == 0 {
        let listed = at_most(docs, limit);
        Seq::new(listed.len(), |i: int| listed_result(listed[i]))
    } else {
        let all = hits(docs, query);
        at_most(ranked(all, Seq::new(all.len(), |i: int| result_key(all[i]))), limit)
    }
}

/// The results of a search.
pub open spec fn search_results(
    docs: Seq<DocView>,
    query: Seq<char>,
    limit: nat,
) -> Seq<ResultView> {
    found(docs, normalized(query), limit)
}

/// An index of desktop entries to search in.
#[derive(Debug)]
pub struct SearchIndex {
    docs: Vec<SearchDoc>,
}

impl View for SearchIndex {
    type V = Seq<DocView>;

    closed spec fn view(&self) -> Seq<DocView> {
        Seq::new(self.docs@.len(), |i: int| self.docs@[i].doc())
    }
}

fn rank_key(weight: i64, entry: &DesktopEntry) -> (res: RankKey)
    ensures
        res@ == (KeyView {
            weight: weight as int,
            rank: entry.source_rank as int,
            name: lowercase(entry.name@),
        }),
{
    let lower: String = str_to_lowercase(entry.name.as_str());
    RankKey { weight, rank: entry.source_rank, name: to_chars(lower.as_str()) }
}

impl Clone for SearchIndex {
    fn clone(&self) -> (res: Self)
        ensures
            res@ == self@,
    {
        proof {
            use_type_invariant(self);
        }
        let mut docs: Vec<SearchDoc> = Vec::new();
        let mut i: usize = 0;
        while i < self.docs.len()
            invariant
                i <= self.docs@.len(),
                docs@.len() == i,
                forall|k: int| 0 <= k < self.docs@.len() ==> (#[trigger] self.docs@[k]).wf(),
                forall|k: int|
                    0 <= k < i ==> (#[trigger] docs@[k]).wf() && docs@[k].doc()
                        == self.docs@[k].doc(),
            decreases self.docs@.len() - i,
        {
            docs.push(self.docs[i].copy());
            i += 1;
        }
        let res = SearchIndex { docs };
        assert(res@ =~= self@);
        res
    }
}

impl SearchIndex {
    #[verifier::type_invariant]
    spec fn inv(self) -> bool {
        forall|i: int| 0 <= i < self.docs@.len() ==> (#[trigger] self.docs@[i]).wf()
    }

    /// An index of entries that were never launched.
    pub fn new(entries: Vec<DesktopEntry>) -> (res: Self)
        ensures
            res@ == indexed(entry_views(entries@), Map::empty()),
    {
        Self::with_history(entries, &History::default())
    }

    /// An index of entries with their launch counts.
    pub fn with_history(entries: Vec<DesktopEntry>, history: &History) -> (res: Self)
        ensures
            res@ == indexed(entry_views(entries@), history@),
    {
        let ghost views = entry_views(entries@);
        let ghost expected = Seq::new(
            views.len(),
            |i: int|
                DocView { entry: views[i], history_count: count_of(history@, views[i].name) },
        );
        let mut docs: Vec<SearchDoc> = Vec::new();
        let mut keys: Vec<RankKey> = Vec::new();
        for entry in iter: entries
            invariant
                iter.seq() == entries@,
                docs@.len() == iter.index(),
                keys@.len() == iter.index(),
                views == entry_views(entries@),
                expected == Seq::new(
                    views.len(),
                    |i: int|
                        DocView {
                            entry: views[i],
                            history_count: count_of(history@, views[i].name),
                        },
                ),
                forall|k: int|
                    0 <= k < docs@.len() ==> (#[trigger] docs@[k]).wf() && docs@[k].doc()
                        == expected[k],
                forall|k: int|
                    0 <= k < keys@.len() ==> (#[trigger] keys@[k])@ == doc_key(expected[k]),
        {
            let doc = SearchDoc::new(entry, history);
            let key = rank_key(doc.history_count as i64, &doc.entry);
            docs.push(doc);
            keys.push(key);
        }
        let ghost all = docs@;
        let ghost key_seq = key_views(keys@);
        proof {
            assert(key_seq =~= Seq::new(expected.len(), |i: int| doc_key(expected[i])));
            crate::order::lemma_rank_order(key_seq);
        }
        let sorted: Vec<SearchDoc> = sort_by_rank(docs, keys);
        proof {
            let order = rank_order(key_seq);
            assert forall|i: int| 0 <= i < sorted@.len() implies (#[trigger] sorted@[i]).wf()
                && sorted@[i].doc() == expected[order[i]] by {
                assert(0 <= order[i] < key_seq.len());
                assert(sorted@[i] == all[order[i]]);
            }
        }
        let res = SearchIndex { docs: sorted };
        assert(res@ =~= indexed(views, history@));
        res
    }

    /// The number of entries.
    pub fn len(&self) -> (res: usize)
        ensures
            res == self@.len(),
    {
        self.docs.len()
    }

    /// Whether there are no entries.
    pub fn is_empty(&self) -> (res: bool)
        ensures
            res == (self@.len() == 0),
    {
        self.docs.is_empty()
    }

    /// The entries, in the order in which they are listed while the query is empty.
    pub fn entries(&self) -> (res: Vec<&DesktopEntry>)
        ensures
            res@.len() == self@.len(),
            forall|i: int| 0 <= i < res@.len() ==> (#[trigger] res@[i])@ == self@[i].entry,
    {
        let mut out: Vec<&DesktopEntry> = Vec::new();
        let mut i: usize = 0;
        while i < self.docs.len()
            invariant
                i <= self.docs@.len(),
                out@.len() == i,
                forall|k: int| 0 <= k < i ==> (#[trigger] out@[k])@ == self@[k].entry,
            decreases self.docs@.len() - i,
        {
            out.push(&self.docs[i].entry);
            i += 1;
        }
        out
    }

    fn listed(&self, limit: usize) -> (res: Vec<SearchResult>)
        ensures
            result_views(res@) == found(self@, seq![], limit as nat),
    {
        let mut out: Vec<SearchResult> = Vec::new();
        let mut i: usize = 0;
        while i < self.docs.len() && i < limit
            invariant
                i <= self.docs@.len(),
                i <= limit,
                out@.len() == i,
                forall|k: int| 0 <= k < i ==> (#[trigger] out@[k])@ == listed_result(self@[k]),
            decreases self.docs@.len() - i,
        {
            let doc = &self.docs[i];
            let reason: String = if doc.history_count > 0 {
                let mut reason: String = "history:".to_owned();
                let count: String = to_decimal(doc.history_count as u64);
                reason.append(count.as_str());
                reason
            } else {
                "empty-query".to_owned()
            };
            out.push(
                SearchResult { score: doc.history_score(), reason, entry: doc.entry.clone() },
            );
            assert(out@[i as int]@ == listed_result(self@[i as int]));
            i += 1;
        }
        assert(result_views(out@) =~= found(self@, seq![], limit as nat));
        out
    }

    /// The best `limit` results for a query in normal form.
    pub fn search_normalized(&self, query: &str, limit: usize) -> (res: Vec<SearchResult>)
        ensures
            result_views(res@) == found(self@, query@, limit as nat),
    {
        proof {
            use_type_invariant(self);
        }
        if query.is_empty() {
            assert(query@ =~= seq![]);
            return self.listed(limit);
        }
        let query_chars: Vec<char> = to_chars(query);
        let tokens: Vec<String> = tokenize(query);
        let mut results: Vec<SearchResult> = Vec::new();
        let mut keys: Vec<RankKey> = Vec::new();
        let mut i: usize = 0;
        assert(self@.take(0) =~= seq![]);
        while i < self.docs.len()
            invariant
                i <= self.docs@.len(),
                forall|k: int| 0 <= k < self.docs@.len() ==> (#[trigger] self.docs@[k]).wf(),
                query_chars@ == query@,
                string_views(tokens@) == words(query@),
                result_views(results@) == hits(self@.take(i as int), query@),
                keys@.len() == results@.len(),
                forall|k: int|
                    0 <= k < keys@.len() ==> (#[trigger] keys@[k])@ == result_key(results@[k]@),
            decreases self.docs@.len() - i,
        {
            let ghost before = results@;
            proof {
                assert(self@.take(i + 1).drop_last() =~= self@.take(i as int));
                assert(self@.take(i + 1).last() == self.docs@[i as int].doc());
            }
            if let Some(result) = score_doc(&self.docs[i], query_chars.as_slice(), &tokens) {
                keys.push(rank_key(result.score as i64, &result.entry));
                results.push(result);
                assert(result_views(results@) =~= result_views(before).push(result@));
            }
            i += 1;
        }
        assert(self@.take(i as int) =~= self@);
        let ghost all = results@;
        let ghost key_seq = key_views(keys@);
        proof {
            let views = result_views(all);
            assert(key_seq =~= Seq::new(views.len(), |i: int| result_key(views[i])));
            crate::order::lemma_rank_order(key_seq);
        }
        let mut sorted: Vec<SearchResult> = sort_by_rank(results, keys);
        proof {
            let views = result_views(all);
            let order = rank_order(key_seq);
            assert forall|i: int| 0 <= i < sorted@.len() implies (#[trigger] sorted@[i])@ == ranked(
                views,
                key_seq,
            )[i] by {
                assert(0 <= order[i] < key_seq.len());
                assert(sorted@[i] == all[order[i]]);
            }
            assert(result_views(sorted@) =~= ranked(views, key_seq));
        }
        let ghost full = sorted@;
        sorted.truncate(limit);
        assert(result_views(sorted@) =~= at_most(result_views(full), limit as nat));
        sorted
    }

    /// The best `limit` results for a query, best first.
    pub fn search(&self, query: &str, limit: usize) -> (res: Vec<SearchResult>)
        ensures
            result_views(res@) == search_results(self@, query@, limit as nat),
    {
        let normal: String = normalize(query);
        self.search_normalized(normal.as_str(), limit)
    }
}

} // verus!
