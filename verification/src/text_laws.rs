//! What holds of every text that is trimmed, split, joined or read as a number.
use vstd::prelude::*;

use crate::order::text_less;
use crate::text::{
    ascii, ascii_lower, byte_len, control, decimal, decimal_value, equal_ignoring_ascii_case,
    is_trimmed, is_word, joined, lemma_decimal, lemma_position, lemma_position_unique,
    lemma_trimmed, lemma_word_len, line_views, option_view, pieces, position, read_decimal,
    slice_views, split_first, string_views, trimmed, white_space, word_len, words,
};

verus! {

// ---------------------------------------------------------------------------------------------
// Splitting
// ---------------------------------------------------------------------------------------------

proof fn lemma_first_place(before: Seq<char>, sep: char, after: Seq<char>)
    requires
        !before.contains(sep),
    ensures
        position(before + seq![sep] + after, sep) == before.len(),
        (before + seq![sep] + after).take(before.len() as int) == before,
        (before + seq![sep] + after).skip(before.len() as int + 1) == after,
{
    let text = before + seq![sep] + after;
    assert forall|k: int| 0 <= k < before.len() implies #[trigger] text[k] != sep by {
        assert(before.contains(before[k]));
    }
    assert(text[before.len() as int] == sep);
    lemma_position_unique(text, sep, before.len() as int);
    assert(text.take(before.len() as int) =~= before);
    assert(text.skip(before.len() as int + 1) =~= after);
}

proof fn lemma_no_place(text: Seq<char>, sep: char)
    requires
        !text.contains(sep),
    ensures
        position(text, sep) == text.len(),
{
    lemma_position(text, sep);
    let at = position(text, sep) as int;
    if at < text.len() {
        assert(text.contains(text[at]));
    }
}

/// A text is split once just where it holds the separator: what comes before the first one, and all
/// that comes after it.
pub proof fn lemma_split_once(before: Seq<char>, sep: char, after: Seq<char>)
    requires
        !before.contains(sep),
    ensures
        split_first(before + seq![sep] + after, sep) == Some((before, after)),
        split_first(before, sep) is None,
{
    lemma_first_place(before, sep, after);
    lemma_no_place(before, sep);
}

/// A text without the separator is one piece; of others, what comes before the first separator is
/// the first piece, and the pieces of the rest follow.
pub proof fn lemma_pieces(before: Seq<char>, sep: char, after: Seq<char>)
    requires
        !before.contains(sep),
    ensures
        pieces(before, sep) == seq![before],
        pieces(before + seq![sep] + after, sep) == seq![before] + pieces(after, sep),
{
    lemma_first_place(before, sep, after);
    lemma_no_place(before, sep);
}

/// A text without a newline is one line, if there is anything in it; of others, what comes before
/// the first newline is the first line, without a carriage return at its end, and the lines of the
/// rest follow.
pub proof fn lemma_lines(before: Seq<char>, after: Seq<char>)
    requires
        !before.contains('\n'),
    ensures
        line_views(seq![]) == Seq::<Seq<char>>::empty(),
        before.len() > 0 ==> line_views(before) == seq![before],
        line_views(before + seq!['\n'] + after) == seq![
            if before.len() > 0 && before.last() == '\r' {
                before.drop_last()
            } else {
                before
            },
        ] + line_views(after),
{
    lemma_first_place(before, '\n', after);
    lemma_no_place(before, '\n');
}

/// White space holds no words, and what holds no white space is one word. White space ends a word:
/// the words of a text are those before it and those after it.
pub proof fn lemma_words_split(before: Seq<char>, blank: char, after: Seq<char>)
    requires
        white_space(blank),
    ensures
        words(before + seq![blank] + after) == words(before) + words(after),
        (forall|k: int| 0 <= k < before.len() ==> white_space(#[trigger] before[k])) ==> words(
            before,
        ) == Seq::<Seq<char>>::empty(),
        before.len() > 0 && (forall|k: int|
            0 <= k < before.len() ==> !white_space(#[trigger] before[k])) ==> words(before) == seq![
            before,
        ],
    decreases before.len(),
{
    let text = before + seq![blank] + after;
    if before.len() == 0 {
        assert(text.drop_first() =~= after);
        assert(words(text) =~= words(before) + words(after));
    } else if white_space(before[0]) {
        let rest = before.drop_first();
        assert(text[0] == before[0]);
        assert(text.drop_first() =~= rest + seq![blank] + after);
        lemma_words_split(rest, blank, after);
        if forall|k: int| 0 <= k < before.len() ==> white_space(#[trigger] before[k]) {
            assert forall|k: int| 0 <= k < rest.len() implies white_space(#[trigger] rest[k]) by {
                assert(rest[k] == before[k + 1]);
            }
        }
    } else {
        lemma_word_len(before);
        lemma_word_len(text);
        let len = word_len(before) as int;
        let long = word_len(text) as int;
        if long < len {
            assert(white_space(text[long]));
            assert(text[long] == before[long]);
        } else if long > len {
            if len < before.len() {
                assert(text[len] == before[len]);
            } else {
                assert(text[len] == blank);
            }
            assert(!white_space(text[len]));
        }
        let rest = before.skip(len);
        assert(text.take(len) =~= before.take(len));
        assert(text.skip(len) =~= rest + seq![blank] + after);
        lemma_words_split(rest, blank, after);
        assert(words(text) =~= words(before) + words(after));
        if forall|k: int| 0 <= k < before.len() ==> !white_space(#[trigger] before[k]) {
            if len < before.len() {
                assert(white_space(before[len]));
            }
            assert(before.take(len) =~= before);
            assert(rest =~= seq![]);
            assert(words(before) =~= seq![before]);
        }
    }
}

/// Trimming takes the white space off both ends of a text, and nothing off what is left.
pub proof fn lemma_trim(before: Seq<char>, core: Seq<char>, after: Seq<char>)
    requires
        forall|k: int| 0 <= k < before.len() ==> white_space(#[trigger] before[k]),
        forall|k: int| 0 <= k < after.len() ==> white_space(#[trigger] after[k]),
        core.len() > 0 ==> !white_space(core[0]) && !white_space(core[core.len() - 1]),
    ensures
        trimmed(before + core + after) == core,
{
    let text = before + core + after;
    lemma_trimmed(text);
    let (from, to) = choose|from: int, to: int|
        0 <= from <= to <= text.len() && trimmed(text) == #[trigger] text.subrange(from, to) && (
        forall|k: int| 0 <= k < from || to <= k < text.len() ==> white_space(#[trigger] text[k]));
    let start = before.len() as int;
    let end = start + core.len();
    let found = trimmed(text);
    if core.len() > 0 {
        assert(text[start] == core[0]);
        assert(text[end - 1] == core[core.len() - 1]);
        assert(from <= start && end <= to);
        assert(found.len() > 0);
        if from < start {
            assert(found[0] == text[from]);
            assert(text[from] == before[from]);
        }
        if to > end {
            assert(found.last() == text[to - 1]);
            assert(text[to - 1] == after[to - 1 - end]);
        }
        assert(text.subrange(from, to) =~= core);
    } else {
        assert forall|k: int| 0 <= k < text.len() implies white_space(#[trigger] text[k]) by {
            if k < start {
                assert(text[k] == before[k]);
            } else {
                assert(text[k] == after[k - start]);
            }
        }
        if found.len() > 0 {
            assert(found[0] == text[from]);
        }
        assert(found =~= core);
    }
}

/// Joining puts the separator between each two texts and nowhere else.
pub proof fn lemma_joined(parts: Seq<Seq<char>>, part: Seq<char>, sep: Seq<char>)
    ensures
        joined(seq![], sep) == Seq::<char>::empty(),
        joined(seq![part], sep) == part,
        parts.len() > 0 ==> joined(parts.push(part), sep) == joined(parts, sep) + sep + part,
{
    assert(parts.push(part).drop_last() =~= parts);
}

// ---------------------------------------------------------------------------------------------
// Characters
// ---------------------------------------------------------------------------------------------

/// The capitals A to Z stand 32 places before their small letters; nothing else changes.
pub proof fn lemma_ascii_lower(ch: char)
    ensures
        65 <= ch as u32 <= 90 ==> ascii_lower(ch) as u32 == ch as u32 + 32,
        !(65 <= ch as u32 <= 90) ==> ascii_lower(ch) == ch,
{
}

/// Texts are equal up to ASCII case just where they are of one length and differ, place by place, by
/// no more than a capital and its small letter.
pub proof fn lemma_ascii_case(a: Seq<char>, b: Seq<char>)
    ensures
        equal_ignoring_ascii_case(a, b) <==> a.len() == b.len() && forall|i: int|
            0 <= i < a.len() ==> {
                ||| #[trigger] a[i] == b[i]
                ||| ('A' <= a[i] && a[i] <= 'Z' && b[i] as u32 == a[i] as u32 + 32)
                ||| ('A' <= b[i] && b[i] <= 'Z' && a[i] as u32 == b[i] as u32 + 32)
            },
{
    if equal_ignoring_ascii_case(a, b) {
        assert forall|i: int| 0 <= i < a.len() implies {
            ||| #[trigger] a[i] == b[i]
            ||| ('A' <= a[i] && a[i] <= 'Z' && b[i] as u32 == a[i] as u32 + 32)
            ||| ('A' <= b[i] && b[i] <= 'Z' && a[i] as u32 == b[i] as u32 + 32)
        } by {
            let x = a[i];
            let y = b[i];
            assert(ascii_lower(a[i]) == ascii_lower(b[i]));
            lemma_ascii_lower(x);
            lemma_ascii_lower(y);
        }
    } else if a.len() == b.len() {
        let i = choose|i: int|
            0 <= i < a.len() && ascii_lower(#[trigger] a[i]) != ascii_lower(#[trigger] b[i]);
        let x = a[i];
        let y = b[i];
        lemma_ascii_lower(x);
        lemma_ascii_lower(y);
        if 'A' <= x && x <= 'Z' && y as u32 == x as u32 + 32 {
            assert(ascii_lower(y) == y);
        }
    }
}

/// White space: the tab and the four characters after it, the space, the next line, the no-break
/// space, and the spaces and separators of other scripts.
pub proof fn lemma_white_space(ch: char)
    ensures
        white_space(ch) <==> {
            ||| ch == '\t'
            ||| ch == '\n'
            ||| ch == '\u{b}'
            ||| ch == '\u{c}'
            ||| ch == '\r'
            ||| ch == ' '
            ||| ch == '\u{85}'
            ||| ch == '\u{a0}'
            ||| ch == '\u{1680}'
            ||| ('\u{2000}' <= ch && ch <= '\u{200a}')
            ||| ch == '\u{2028}'
            ||| ch == '\u{2029}'
            ||| ch == '\u{202f}'
            ||| ch == '\u{205f}'
            ||| ch == '\u{3000}'
        },
{
}

/// Control characters: those before the space, and those from the delete character up to U+009F.
pub proof fn lemma_control(ch: char)
    ensures
        control(ch) <==> ch < ' ' || ('\u{7f}' <= ch && ch <= '\u{9f}'),
{
}

/// A text is trimmed just where it neither starts nor ends in white space, and ASCII just where every
/// character is below U+0080.
pub proof fn lemma_text_classes(text: Seq<char>)
    ensures
        is_trimmed(text) <==> text.len() == 0 || (!white_space(text[0]) && !white_space(
            text[text.len() - 1],
        )),
        ascii(text) <==> forall|i: int| 0 <= i < text.len() ==> (#[trigger] text[i] as u32) < 128,
        is_word(text) <==> text.len() > 0 && forall|i: int|
            0 <= i < text.len() ==> !white_space(#[trigger] text[i]),
{
}

/// A character takes one byte below U+0080, two below U+0800, three below U+10000 and else four.
pub proof fn lemma_byte_len_char(ch: char)
    ensures
        byte_len(seq![]) == 0,
        byte_len(seq![ch]) == if (ch as u32) < 0x80 {
            1nat
        } else if (ch as u32) < 0x800 {
            2nat
        } else if (ch as u32) < 0x10000 {
            3nat
        } else {
            4nat
        },
{
    let text = seq![ch];
    assert(text.drop_first() =~= seq![]);
    reveal_with_fuel(vstd::utf8::encode_utf8, 2);
}

// ---------------------------------------------------------------------------------------------
// Numbers
// ---------------------------------------------------------------------------------------------

/// Each further digit counts the number before it ten times.
pub proof fn lemma_decimal_value(digits: Seq<char>, ch: char)
    requires
        '0' <= ch && ch <= '9',
    ensures
        decimal_value(seq![]) == 0,
        decimal_value(digits.push(ch)) == decimal_value(digits) * 10 + (ch as u32 - 48),
{
    assert(digits.push(ch).drop_last() =~= digits);
}

/// A number is written in digits, without leading zeros, and is the number that they stand for.
pub proof fn lemma_decimal_start(value: nat)
    ensures
        decimal(value).len() > 0,
        decimal_value(decimal(value)) == value,
        decimal(value)[0] == '0' ==> value == 0 && decimal(value).len() == 1,
        forall|i: int| 0 <= i < decimal(value).len() ==> '0' <= #[trigger] decimal(value)[i]
            && decimal(value)[i] <= '9',
    decreases value,
{
    lemma_decimal(value);
    assert forall|i: int| 0 <= i < decimal(value).len() implies '0' <= #[trigger] decimal(value)[i]
        && decimal(value)[i] <= '9' by {
        assert(crate::text::is_digit(decimal(value)[i]));
    }
    if value >= 10 {
        lemma_decimal_start(value / 10);
        assert(decimal(value)[0] == decimal(value / 10)[0]);
    } else {
        assert(value > 0 ==> crate::text::digit(value) != '0');
    }
}

/// Only digits are read as a number, after one plus sign at most, and only up to the greatest number
/// that is allowed.
pub proof fn lemma_read_number(digits: Seq<char>, max: nat)
    ensures
        digits.len() > 0 && (forall|i: int|
            0 <= i < digits.len() ==> '0' <= #[trigger] digits[i] && digits[i] <= '9') ==> {
            &&& read_decimal(digits, max) == if decimal_value(digits) <= max {
                Some(decimal_value(digits))
            } else {
                None
            }
            &&& read_decimal(seq!['+'] + digits, max) == read_decimal(digits, max)
        },
        read_decimal(seq![], max) is None,
        read_decimal(seq!['+'], max) is None,
        forall|i: int|
            0 <= i < digits.len() && !('0' <= #[trigger] digits[i] && digits[i] <= '9') && !(i == 0
                && digits[0] == '+') ==> read_decimal(digits, max) is None,
{
    assert((seq!['+'] + digits).drop_first() =~= digits);
    assert(seq!['+'].drop_first() =~= seq![]);
    if digits.len() > 0 && (forall|i: int|
        0 <= i < digits.len() ==> '0' <= #[trigger] digits[i] && digits[i] <= '9') {
        assert(crate::text::all_digits(digits));
    }
    assert forall|i: int|
        0 <= i < digits.len() && !('0' <= #[trigger] digits[i] && digits[i] <= '9') && !(i == 0
            && digits[0] == '+') implies read_decimal(digits, max) is None by {
        let rest = crate::text::without_plus(digits);
        let k = i - (digits.len() - rest.len());
        assert(rest[k] == digits[i]);
        assert(!crate::text::is_digit(rest[k]));
    }
}

// ---------------------------------------------------------------------------------------------
// Order
// ---------------------------------------------------------------------------------------------

/// A text comes before another just where it is smaller at the first place at which they differ, or
/// ends where the other goes on.
pub proof fn lemma_text_less(a: Seq<char>, b: Seq<char>)
    ensures
        text_less(a, b) <==> exists|k: int|
            0 <= k <= a.len() && k < b.len() && #[trigger] a.take(k) == b.take(k) && (k == a.len()
                || a[k] < b[k]),
    decreases a.len(),
{
    if a.len() > 0 && b.len() > 0 {
        let c = a.drop_first();
        let d = b.drop_first();
        lemma_text_less(c, d);
        if text_less(a, b) {
            if a[0] != b[0] {
                assert(a.take(0) =~= b.take(0));
            } else {
                let k = choose|k: int|
                    0 <= k <= c.len() && k < d.len() && #[trigger] c.take(k) == d.take(k) && (k
                        == c.len() || c[k] < d[k]);
                assert(a.take(k + 1) =~= seq![a[0]] + c.take(k));
                assert(b.take(k + 1) =~= seq![b[0]] + d.take(k));
                assert(a.take(k + 1) == b.take(k + 1));
            }
        }
        if exists|k: int|
            0 <= k <= a.len() && k < b.len() && #[trigger] a.take(k) == b.take(k) && (k == a.len()
                || a[k] < b[k]) {
            let k = choose|k: int|
                0 <= k <= a.len() && k < b.len() && #[trigger] a.take(k) == b.take(k) && (k
                    == a.len() || a[k] < b[k]);
            if k > 0 {
                assert(a.take(k)[0] == b.take(k)[0]);
                assert(c.take(k - 1) =~= a.take(k).drop_first());
                assert(d.take(k - 1) =~= b.take(k).drop_first());
                assert(c.take(k - 1) == d.take(k - 1));
            }
        }
    } else if b.len() > 0 {
        assert(a.take(0) =~= b.take(0));
    }
}

/// What the models of lists and of missing texts hold: all of their parts, in order.
pub proof fn lemma_text_models(parts: Seq<&[char]>, texts: Seq<String>, text: String)
    ensures
        slice_views(parts).len() == parts.len(),
        forall|i: int| 0 <= i < parts.len() ==> #[trigger] slice_views(parts)[i] == parts[i]@,
        string_views(texts).len() == texts.len(),
        forall|i: int| 0 <= i < texts.len() ==> #[trigger] string_views(texts)[i] == texts[i]@,
        option_view(Some(text)) == Some(text@),
        option_view(None) is None,
{
}

} // verus!
