//! Characters, trimming, splitting and decimal numbers, on sequences of characters.
use vstd::prelude::*;
use vstd::slice::slice_subrange;
use vstd::utf8::encode_utf8;

verus! {

/// `String::push` appends one character and leaves the rest of the string as it was.
pub assume_specification[ String::push ](text: &mut String, ch: char)
    ensures
        final(text)@ == old(text)@.push(ch),
;

// ---------------------------------------------------------------------------------------------
// Character classes
// ---------------------------------------------------------------------------------------------

/// The characters with the Unicode property White_Space.
pub open spec fn white_space(ch: char) -> bool {
    let code = ch as u32;
    ||| 0x09 <= code <= 0x0d
    ||| code == 0x20
    ||| code == 0x85
    ||| code == 0xa0
    ||| code == 0x1680
    ||| 0x2000 <= code <= 0x200a
    ||| code == 0x2028
    ||| code == 0x2029
    ||| code == 0x202f
    ||| code == 0x205f
    ||| code == 0x3000
}

/// Whether a character has the Unicode property White_Space.
pub fn is_whitespace(ch: char) -> (res: bool)
    ensures
        res == white_space(ch),
{
    let code: u32 = ch as u32;
    (0x09 <= code && code <= 0x0d) || code == 0x20 || code == 0x85 || code == 0xa0 || code == 0x1680
        || (0x2000 <= code && code <= 0x200a) || code == 0x2028 || code == 0x2029 || code == 0x202f
        || code == 0x205f || code == 0x3000
}

/// The control characters: the Unicode general category Cc.
pub open spec fn control(ch: char) -> bool {
    let code = ch as u32;
    code <= 0x1f || 0x7f <= code <= 0x9f
}

/// Whether a character is a control character.
pub fn is_control(ch: char) -> (res: bool)
    ensures
        res == control(ch),
{
    let code: u32 = ch as u32;
    code <= 0x1f || (0x7f <= code && code <= 0x9f)
}

/// A character with the ASCII capitals A to Z turned into a to z and all others kept.
pub open spec fn ascii_lower(ch: char) -> char {
    if 'A' <= ch && ch <= 'Z' {
        ((ch as u32 + 32) as u32) as char
    } else {
        ch
    }
}

/// Whether every character of a text is below U+0080.
pub open spec fn ascii(text: Seq<char>) -> bool {
    forall|i: int| 0 <= i < text.len() ==> (#[trigger] text[i] as u32) < 0x80
}

/// Whether two texts are equal once ASCII capitals are lowered.
pub open spec fn equal_ignoring_ascii_case(a: Seq<char>, b: Seq<char>) -> bool {
    &&& a.len() == b.len()
    &&& forall|i: int|
        0 <= i < a.len() ==> ascii_lower(#[trigger] a[i]) == ascii_lower(#[trigger] b[i])
}

fn ascii_lower_code(ch: char) -> (res: u32)
    ensures
        res == ascii_lower(ch) as u32,
{
    let code: u32 = ch as u32;
    if 65 <= code && code <= 90 {
        code + 32
    } else {
        code
    }
}

/// Whether two texts are equal once ASCII capitals are lowered.
pub fn eq_ignore_ascii_case(a: &str, b: &str) -> (res: bool)
    ensures
        res == equal_ignoring_ascii_case(a@, b@),
{
    let left: Vec<char> = to_chars(a);
    let right: Vec<char> = to_chars(b);
    if left.len() != right.len() {
        return false;
    }
    let mut i: usize = 0;
    while i < left.len()
        invariant
            0 <= i <= left@.len(),
            left@ == a@,
            right@ == b@,
            a@.len() == b@.len(),
            forall|k: int|
                0 <= k < i ==> ascii_lower(#[trigger] a@[k]) == ascii_lower(#[trigger] b@[k]),
        decreases left@.len() - i,
    {
        if ascii_lower_code(left[i]) != ascii_lower_code(right[i]) {
            assert(ascii_lower(a@[i as int]) != ascii_lower(b@[i as int]));
            return false;
        }
        i += 1;
    }
    true
}

// ---------------------------------------------------------------------------------------------
// Strings and character vectors
// ---------------------------------------------------------------------------------------------

/// The characters of a string, in order.
pub fn to_chars(text: &str) -> (res: Vec<char>)
    ensures
        res@ == text@,
{
    let mut out: Vec<char> = Vec::new();
    for ch in iter: text.chars()
        invariant
            out@ == iter.seq().take(iter.index() as int),
            iter.seq() == text@,
    {
        out.push(ch);
    }
    out
}

/// The string made of the given characters.
pub fn from_chars(chars: &[char]) -> (res: String)
    ensures
        res@ == chars@,
{
    let mut out: String = String::new();
    let mut i: usize = 0;
    while i < chars.len()
        invariant
            i <= chars@.len(),
            out@ == chars@.take(i as int),
        decreases chars@.len() - i,
    {
        out.push(chars[i]);
        i += 1;
        assert(chars@.take(i as int) =~= chars@.take(i - 1).push(chars@[i - 1]));
    }
    assert(chars@.take(i as int) =~= chars@);
    out
}

/// The number of bytes of the UTF-8 encoding of a text.
pub open spec fn byte_len(text: Seq<char>) -> nat {
    encode_utf8(text).len()
}

/// The bytes of two texts in a row are the bytes of the one and then those of the other.
pub proof fn lemma_byte_len_concat(a: Seq<char>, b: Seq<char>)
    ensures
        byte_len(a + b) == byte_len(a) + byte_len(b),
    decreases a.len(),
{
    if a.len() == 0 {
        assert(a + b =~= b);
    } else {
        lemma_byte_len_concat(a.drop_first(), b);
        assert((a + b).drop_first() =~= a.drop_first() + b);
        assert((a + b)[0] == a[0]);
    }
}

/// The number of bytes of a string.
pub fn str_byte_len(text: &str) -> (res: usize)
    ensures
        res == byte_len(text@),
{
    text.as_bytes().len()
}

// ---------------------------------------------------------------------------------------------
// Trimming and splitting
// ---------------------------------------------------------------------------------------------

/// A text without its leading white space.
pub open spec fn trim_start(text: Seq<char>) -> Seq<char>
    decreases text.len(),
{
    if text.len() > 0 && white_space(text[0]) {
        trim_start(text.drop_first())
    } else {
        text
    }
}

/// A text without its trailing white space.
pub open spec fn trim_end(text: Seq<char>) -> Seq<char>
    decreases text.len(),
{
    if text.len() > 0 && white_space(text.last()) {
        trim_end(text.drop_last())
    } else {
        text
    }
}

/// A text without its leading and trailing white space.
pub open spec fn trimmed(text: Seq<char>) -> Seq<char> {
    trim_end(trim_start(text))
}

/// Whether a text neither starts nor ends with white space.
pub open spec fn is_trimmed(text: Seq<char>) -> bool {
    text.len() > 0 ==> !white_space(text[0]) && !white_space(text.last())
}

/// Trimming removes a run of white space at each end and nothing else.
pub proof fn lemma_trimmed(text: Seq<char>)
    ensures
        is_trimmed(trimmed(text)),
        is_trimmed(text) ==> trimmed(text) == text,
        exists|from: int, to: int|
            0 <= from <= to <= text.len() && trimmed(text) == #[trigger] text.subrange(from, to) && (
            forall|k: int|
                0 <= k < from || to <= k < text.len() ==> white_space(#[trigger] text[k])),
{
    lemma_trim_start(text);
    let start = trim_start(text);
    let from = text.len() - start.len();
    lemma_trim_end(start);
    let end = trim_end(start);
    let to = from + end.len();
    assert(end =~= text.subrange(from, to));
    assert forall|k: int| 0 <= k < from || to <= k < text.len() implies white_space(
        #[trigger] text[k],
    ) by {
        if to <= k {
            assert(start[k - from] == text[k]);
        }
    }
}

proof fn lemma_trim_start(text: Seq<char>)
    ensures
        trim_start(text).len() <= text.len(),
        trim_start(text) == text.skip(text.len() - trim_start(text).len()),
        forall|k: int|
            0 <= k < text.len() - trim_start(text).len() ==> white_space(#[trigger] text[k]),
        trim_start(text).len() > 0 ==> !white_space(trim_start(text)[0]),
    decreases text.len(),
{
    if text.len() > 0 && white_space(text[0]) {
        let rest = text.drop_first();
        lemma_trim_start(rest);
        assert(trim_start(text) =~= text.skip(text.len() - trim_start(text).len()));
        assert forall|k: int| 0 <= k < text.len() - trim_start(text).len() implies white_space(
            #[trigger] text[k],
        ) by {
            if k > 0 {
                assert(rest[k - 1] == text[k]);
            }
        }
    } else {
        assert(text.skip(0) =~= text);
    }
}

proof fn lemma_trim_end(text: Seq<char>)
    ensures
        trim_end(text).len() <= text.len(),
        trim_end(text) == text.take(trim_end(text).len() as int),
        forall|k: int| trim_end(text).len() <= k < text.len() ==> white_space(#[trigger] text[k]),
        trim_end(text).len() > 0 ==> !white_space(trim_end(text).last()),
    decreases text.len(),
{
    if text.len() > 0 && white_space(text.last()) {
        let rest = text.drop_last();
        lemma_trim_end(rest);
        assert(trim_end(text) =~= text.take(trim_end(text).len() as int));
        assert forall|k: int| trim_end(text).len() <= k < text.len() implies white_space(
            #[trigger] text[k],
        ) by {
            if k < rest.len() {
                assert(rest[k] == text[k]);
            }
        }
    } else {
        assert(text.take(text.len() as int) =~= text);
    }
}

/// A text without its leading and trailing white space.
pub fn trim(text: &[char]) -> (res: &[char])
    ensures
        res@ == trimmed(text@),
{
    let mut from: usize = 0;
    let len: usize = text.len();
    assert(text@.skip(0) =~= text@);
    while from < len && is_whitespace(text[from])
        invariant
            from <= len == text@.len(),
            trim_start(text@) == trim_start(text@.skip(from as int)),
        decreases len - from,
    {
        assert(text@.skip(from as int).drop_first() =~= text@.skip(from + 1));
        from += 1;
    }
    let ghost start = text@.skip(from as int);
    let mut to: usize = len;
    assert(text@.subrange(from as int, len as int) =~= start);
    while from < to && is_whitespace(text[to - 1])
        invariant
            from <= to <= len == text@.len(),
            trim_end(start) == trim_end(text@.subrange(from as int, to as int)),
        decreases to,
    {
        assert(text@.subrange(from as int, to as int).drop_last() =~= text@.subrange(
            from as int,
            to - 1,
        ));
        to -= 1;
    }
    slice_subrange(text, from, to)
}

/// The position of the first `sep` in a text, or the text's length if there is none.
pub open spec fn position(text: Seq<char>, sep: char) -> nat
    decreases text.len(),
{
    if text.len() == 0 || text[0] == sep {
        0
    } else {
        1 + position(text.drop_first(), sep)
    }
}

/// `position` is where the first `sep` stands.
pub proof fn lemma_position(text: Seq<char>, sep: char)
    ensures
        position(text, sep) <= text.len(),
        position(text, sep) < text.len() ==> text[position(text, sep) as int] == sep,
        forall|k: int| 0 <= k < position(text, sep) ==> #[trigger] text[k] != sep,
    decreases text.len(),
{
    if text.len() > 0 && text[0] != sep {
        let rest = text.drop_first();
        lemma_position(rest, sep);
        assert forall|k: int| 0 <= k < position(text, sep) implies #[trigger] text[k] != sep by {
            if k > 0 {
                assert(rest[k - 1] == text[k]);
            }
        }
    }
}

/// A position that has `sep` and none before it is the first.
pub proof fn lemma_position_unique(text: Seq<char>, sep: char, at: int)
    requires
        0 <= at <= text.len(),
        at < text.len() ==> text[at] == sep,
        forall|k: int| 0 <= k < at ==> #[trigger] text[k] != sep,
    ensures
        position(text, sep) == at,
{
    lemma_position(text, sep);
    let p = position(text, sep) as int;
    if p < at {
        assert(text[p] != sep);
    } else if at < p {
        assert(text[at] != sep);
    }
}

/// The position of the first `sep` in a text, or the text's length if there is none.
pub fn find_char(text: &[char], sep: char) -> (res: usize)
    ensures
        res == position(text@, sep),
{
    let mut i: usize = 0;
    while i < text.len() && text[i] != sep
        invariant
            i <= text@.len(),
            forall|k: int| 0 <= k < i ==> #[trigger] text@[k] != sep,
        decreases text@.len() - i,
    {
        i += 1;
    }
    proof {
        lemma_position_unique(text@, sep, i as int);
    }
    i
}

/// The two texts around the first `sep`, if there is one.
pub open spec fn split_first(text: Seq<char>, sep: char) -> Option<(Seq<char>, Seq<char>)> {
    let at = position(text, sep) as int;
    if at < text.len() {
        Some((text.take(at), text.skip(at + 1)))
    } else {
        None
    }
}

/// Splits a text at the first `sep`.
pub fn split_once(text: &[char], sep: char) -> (res: Option<(&[char], &[char])>)
    ensures
        match split_first(text@, sep) {
            Some((before, after)) => res matches Some((left, right)) && left@ == before && right@
                == after,
            None => res is None,
        },
{
    let at: usize = find_char(text, sep);
    if at < text.len() {
        let left = slice_subrange(text, 0, at);
        let right = slice_subrange(text, at + 1, text.len());
        assert(left@ =~= text@.take(at as int));
        assert(right@ =~= text@.skip(at + 1));
        Some((left, right))
    } else {
        None
    }
}

/// The views of a list of slices.
pub open spec fn slice_views(parts: Seq<&[char]>) -> Seq<Seq<char>> {
    Seq::new(parts.len(), |i: int| parts[i]@)
}

/// The pieces of a text between the separators, empty ones included.
pub open spec fn pieces(text: Seq<char>, sep: char) -> Seq<Seq<char>>
    decreases text.len(),
    via pieces_decreases
{
    let at = position(text, sep) as int;
    if at < text.len() {
        seq![text.take(at)] + pieces(text.skip(at + 1), sep)
    } else {
        seq![text]
    }
}

#[via_fn]
proof fn pieces_decreases(text: Seq<char>, sep: char) {
    lemma_position(text, sep);
}

/// Splits a text at every `sep`.
pub fn split(text: &[char], sep: char) -> (res: Vec<&[char]>)
    ensures
        slice_views(res@) == pieces(text@, sep),
{
    let mut out: Vec<&[char]> = Vec::new();
    let mut rest: &[char] = text;
    assert(slice_views(out@) + pieces(rest@, sep) =~= pieces(text@, sep));
    loop
        invariant_except_break
            slice_views(out@) + pieces(rest@, sep) == pieces(text@, sep),
        ensures
            slice_views(out@) == pieces(text@, sep),
        decreases rest@.len(),
    {
        let at: usize = find_char(rest, sep);
        let ghost before = out@;
        if at < rest.len() {
            let part = slice_subrange(rest, 0, at);
            out.push(part);
            let next = slice_subrange(rest, at + 1, rest.len());
            proof {
                assert(part@ =~= rest@.take(at as int));
                assert(next@ =~= rest@.skip(at + 1));
                assert(slice_views(out@) =~= slice_views(before) + seq![part@]);
                assert(slice_views(out@) + pieces(next@, sep) =~= slice_views(before) + pieces(
                    rest@,
                    sep,
                ));
            }
            rest = next;
        } else {
            out.push(rest);
            proof {
                lemma_position(rest@, sep);
                assert(slice_views(out@) =~= slice_views(before) + seq![rest@]);
            }
            break;
        }
    }
    out
}

/// A line without the carriage return that precedes its newline.
pub open spec fn strip_carriage_return(line: Seq<char>) -> Seq<char> {
    if line.len() > 0 && line.last() == '\r' {
        line.drop_last()
    } else {
        line
    }
}

/// The lines of a text. A line ends with a newline, or a carriage return and a newline; the
/// newline of the last line is optional.
pub open spec fn line_views(text: Seq<char>) -> Seq<Seq<char>>
    decreases text.len(),
    via line_views_decreases
{
    let at = position(text, '\n') as int;
    if text.len() == 0 {
        seq![]
    } else if at < text.len() {
        seq![strip_carriage_return(text.take(at))] + line_views(text.skip(at + 1))
    } else {
        seq![text]
    }
}

#[via_fn]
proof fn line_views_decreases(text: Seq<char>) {
    lemma_position(text, '\n');
}

/// The lines of a text.
pub fn lines(text: &[char]) -> (res: Vec<&[char]>)
    ensures
        slice_views(res@) == line_views(text@),
{
    let mut out: Vec<&[char]> = Vec::new();
    let mut rest: &[char] = text;
    assert(slice_views(out@) + line_views(rest@) =~= line_views(text@));
    while rest.len() > 0
        invariant
            slice_views(out@) + line_views(rest@) == line_views(text@),
        decreases rest@.len(),
    {
        let at: usize = find_char(rest, '\n');
        let ghost before = out@;
        let ghost old_rest = rest@;
        if at < rest.len() {
            let mut end: usize = at;
            if at > 0 && rest[at - 1] == '\r' {
                end = at - 1;
            }
            let part = slice_subrange(rest, 0, end);
            out.push(part);
            let next = slice_subrange(rest, at + 1, rest.len());
            proof {
                assert(part@ =~= strip_carriage_return(rest@.take(at as int)));
                assert(next@ =~= rest@.skip(at + 1));
                assert(slice_views(out@) =~= slice_views(before) + seq![part@]);
            }
            rest = next;
        } else {
            out.push(rest);
            let next = slice_subrange(rest, rest.len(), rest.len());
            proof {
                lemma_position(rest@, '\n');
                assert(slice_views(out@) =~= slice_views(before) + seq![rest@]);
                assert(line_views(next@) =~= seq![]);
            }
            rest = next;
        }
        assert(slice_views(out@) + line_views(rest@) =~= slice_views(before) + line_views(old_rest));
    }
    assert(slice_views(out@) + line_views(rest@) =~= slice_views(out@));
    out
}

/// The length of the longest prefix without white space.
pub open spec fn word_len(text: Seq<char>) -> nat
    decreases text.len(),
{
    if text.len() == 0 || white_space(text[0]) {
        0
    } else {
        1 + word_len(text.drop_first())
    }
}

/// The words of a text: its maximal runs of characters that are not white space.
pub open spec fn words(text: Seq<char>) -> Seq<Seq<char>>
    decreases text.len(),
    via words_decreases
{
    if text.len() == 0 {
        seq![]
    } else if white_space(text[0]) {
        words(text.drop_first())
    } else {
        let len = word_len(text) as int;
        seq![text.take(len)] + words(text.skip(len))
    }
}

#[via_fn]
proof fn words_decreases(text: Seq<char>) {
    lemma_word_len(text);
}

/// A prefix of `word_len` characters holds no white space and is the longest such.
pub proof fn lemma_word_len(text: Seq<char>)
    ensures
        word_len(text) <= text.len(),
        forall|k: int| 0 <= k < word_len(text) ==> !white_space(#[trigger] text[k]),
        word_len(text) < text.len() ==> white_space(text[word_len(text) as int]),
        text.len() > 0 && !white_space(text[0]) ==> word_len(text) > 0,
    decreases text.len(),
{
    if text.len() > 0 && !white_space(text[0]) {
        let rest = text.drop_first();
        lemma_word_len(rest);
        assert forall|k: int| 0 <= k < word_len(text) implies !white_space(#[trigger] text[k]) by {
            if k > 0 {
                assert(rest[k - 1] == text[k]);
            }
        }
    }
}

/// Whether a text is non-empty and holds no white space.
pub open spec fn is_word(text: Seq<char>) -> bool {
    text.len() > 0 && forall|k: int| 0 <= k < text.len() ==> !white_space(#[trigger] text[k])
}

/// Every word is non-empty and holds no white space.
pub proof fn lemma_words(text: Seq<char>)
    ensures
        forall|w: int| 0 <= w < words(text).len() ==> is_word(#[trigger] words(text)[w]),
    decreases text.len(),
{
    lemma_word_len(text);
    if text.len() > 0 {
        if white_space(text[0]) {
            lemma_words(text.drop_first());
            assert(words(text) == words(text.drop_first()));
        } else {
            let len = word_len(text) as int;
            lemma_words(text.skip(len));
            assert forall|w: int| 0 <= w < words(text).len() implies is_word(
                #[trigger] words(text)[w],
            ) by {
                if w > 0 {
                    assert(words(text)[w] == words(text.skip(len))[w - 1]);
                } else {
                    assert(words(text)[w] == text.take(len));
                }
            }
        }
    }
}

/// The words of a text.
pub fn split_whitespace(text: &[char]) -> (res: Vec<&[char]>)
    ensures
        slice_views(res@) == words(text@),
{
    let mut out: Vec<&[char]> = Vec::new();
    let mut rest: &[char] = text;
    assert(slice_views(out@) + words(rest@) =~= words(text@));
    while rest.len() > 0
        invariant
            slice_views(out@) + words(rest@) == words(text@),
        decreases rest@.len(),
    {
        let ghost before = out@;
        let ghost old_rest = rest@;
        if is_whitespace(rest[0]) {
            let next = slice_subrange(rest, 1, rest.len());
            assert(next@ =~= rest@.drop_first());
            rest = next;
        } else {
            let mut end: usize = 0;
            assert(rest@.skip(0) =~= rest@);
            while end < rest.len() && !is_whitespace(rest[end])
                invariant
                    end <= rest@.len(),
                    word_len(rest@) == end + word_len(rest@.skip(end as int)),
                decreases rest@.len() - end,
            {
                assert(rest@.skip(end as int).drop_first() =~= rest@.skip(end + 1));
                end += 1;
            }
            proof {
                lemma_word_len(rest@);
            }
            let part = slice_subrange(rest, 0, end);
            out.push(part);
            let next = slice_subrange(rest, end, rest.len());
            proof {
                assert(part@ =~= rest@.take(end as int));
                assert(next@ =~= rest@.skip(end as int));
                assert(slice_views(out@) =~= slice_views(before) + seq![part@]);
            }
            rest = next;
            assert(slice_views(out@) + words(rest@) =~= slice_views(before) + words(old_rest));
        }
    }
    assert(slice_views(out@) + words(rest@) =~= slice_views(out@));
    out
}

/// Texts joined with a separator between each two.
pub open spec fn joined(parts: Seq<Seq<char>>, sep: Seq<char>) -> Seq<char>
    decreases parts.len(),
{
    if parts.len() == 0 {
        seq![]
    } else if parts.len() == 1 {
        parts[0]
    } else {
        joined(parts.drop_last(), sep) + sep + parts.last()
    }
}

/// The views of a list of strings.
pub open spec fn string_views(parts: Seq<String>) -> Seq<Seq<char>> {
    Seq::new(parts.len(), |i: int| parts[i]@)
}

/// Joins strings with a separator between each two.
pub fn join(parts: &Vec<String>, sep: &str) -> (res: String)
    ensures
        res@ == joined(string_views(parts@), sep@),
{
    let mut out: String = String::new();
    let mut i: usize = 0;
    let ghost views = string_views(parts@);
    assert(views.take(0) =~= seq![]);
    while i < parts.len()
        invariant
            i <= parts@.len(),
            views == string_views(parts@),
            out@ == joined(views.take(i as int), sep@),
        decreases parts@.len() - i,
    {
        if i > 0 {
            out.append(sep);
        }
        out.append(parts[i].as_str());
        proof {
            let next = views.take(i + 1);
            assert(next.drop_last() =~= views.take(i as int));
            assert(next.last() == parts@[i as int]@);
            if i == 0 {
                assert(out@ =~= joined(next, sep@));
            }
        }
        i += 1;
    }
    assert(views.take(i as int) =~= views);
    out
}

/// A copy of a list of strings.
pub fn clone_strings(parts: &Vec<String>) -> (res: Vec<String>)
    ensures
        string_views(res@) == string_views(parts@),
{
    let mut out: Vec<String> = Vec::new();
    let mut i: usize = 0;
    while i < parts.len()
        invariant
            i <= parts@.len(),
            out@.len() == i,
            forall|k: int| 0 <= k < i ==> (#[trigger] out@[k])@ == parts@[k]@,
        decreases parts@.len() - i,
    {
        out.push(parts[i].clone());
        i += 1;
    }
    assert(string_views(out@) =~= string_views(parts@));
    out
}

/// The view of an optional string.
pub open spec fn option_view(text: Option<String>) -> Option<Seq<char>> {
    match text {
        Some(text) => Some(text@),
        None => None,
    }
}

/// A copy of an optional string.
pub fn clone_option(text: &Option<String>) -> (res: Option<String>)
    ensures
        option_view(res) == option_view(*text),
{
    match text {
        Some(text) => Some(text.clone()),
        None => None,
    }
}

// ---------------------------------------------------------------------------------------------
// Decimal numbers
// ---------------------------------------------------------------------------------------------

/// Whether a character is one of 0 to 9.
pub open spec fn is_digit(ch: char) -> bool {
    '0' <= ch && ch <= '9'
}

/// The value of a digit.
pub open spec fn digit_value(ch: char) -> nat {
    (ch as u32 - '0' as u32) as nat
}

/// The digit with a value below ten.
pub open spec fn digit(value: nat) -> char {
    (('0' as u32 + value) as u32) as char
}

/// The decimal form of a number, without leading zeros.
pub open spec fn decimal(value: nat) -> Seq<char>
    decreases value,
{
    if value < 10 {
        seq![digit(value)]
    } else {
        decimal(value / 10).push(digit(value % 10))
    }
}

/// The number that a sequence of digits stands for.
pub open spec fn decimal_value(digits: Seq<char>) -> nat
    decreases digits.len(),
{
    if digits.len() == 0 {
        0
    } else {
        decimal_value(digits.drop_last()) * 10 + digit_value(digits.last())
    }
}

/// Whether a text is made of digits.
pub open spec fn all_digits(text: Seq<char>) -> bool {
    forall|i: int| 0 <= i < text.len() ==> is_digit(#[trigger] text[i])
}

/// A text without a leading plus sign.
pub open spec fn without_plus(text: Seq<char>) -> Seq<char> {
    if text.len() > 0 && text[0] == '+' {
        text.drop_first()
    } else {
        text
    }
}

/// Reads a number of at most `max`: an optional plus sign and one or more digits.
pub open spec fn read_decimal(text: Seq<char>, max: nat) -> Option<nat> {
    let digits = without_plus(text);
    if digits.len() > 0 && all_digits(digits) && decimal_value(digits) <= max {
        Some(decimal_value(digits))
    } else {
        None
    }
}

/// The decimal form of a number is made of digits and reads back as the number.
pub proof fn lemma_decimal(value: nat)
    ensures
        decimal(value).len() > 0,
        all_digits(decimal(value)),
        decimal_value(decimal(value)) == value,
    decreases value,
{
    if value < 10 {
        assert(decimal(value).drop_last() =~= Seq::<char>::empty());
        assert(decimal_value(Seq::<char>::empty()) == 0);
    } else {
        lemma_decimal(value / 10);
        assert(decimal(value).drop_last() =~= decimal(value / 10));
        assert forall|i: int| 0 <= i < decimal(value).len() implies is_digit(
            #[trigger] decimal(value)[i],
        ) by {
            if i < decimal(value / 10).len() {
                assert(decimal(value)[i] == decimal(value / 10)[i]);
            }
        }
    }
}

/// What `decimal` writes, `read_decimal` reads.
pub proof fn lemma_read_decimal(value: nat, max: nat)
    requires
        value <= max,
    ensures
        read_decimal(decimal(value), max) == Some(value),
{
    lemma_decimal(value);
    assert(is_digit(decimal(value)[0]));
}

proof fn lemma_decimal_value_prefix(digits: Seq<char>, len: int)
    requires
        0 <= len <= digits.len(),
        all_digits(digits),
    ensures
        decimal_value(digits.take(len)) <= decimal_value(digits),
    decreases digits.len(),
{
    if len == digits.len() {
        assert(digits.take(len) =~= digits);
    } else {
        lemma_decimal_value_prefix(digits.drop_last(), len);
        assert(digits.drop_last().take(len) =~= digits.take(len));
    }
}

fn digit_char(value: u64) -> (res: char)
    requires
        value < 10,
    ensures
        res == digit(value as nat),
{
    match value {
        0 => '0',
        1 => '1',
        2 => '2',
        3 => '3',
        4 => '4',
        5 => '5',
        6 => '6',
        7 => '7',
        8 => '8',
        _ => '9',
    }
}

fn push_decimal(out: &mut String, value: u64)
    ensures
        final(out)@ == old(out)@ + decimal(value as nat),
    decreases value,
{
    if value < 10 {
        out.push(digit_char(value));
    } else {
        push_decimal(out, value / 10);
        out.push(digit_char(value % 10));
    }
    assert(out@ =~= old(out)@ + decimal(value as nat));
}

/// The decimal form of a number.
pub fn to_decimal(value: u64) -> (res: String)
    ensures
        res@ == decimal(value as nat),
{
    let mut out: String = String::new();
    push_decimal(&mut out, value);
    assert(out@ =~= decimal(value as nat));
    out
}

/// Reads a number of at most `max`: an optional plus sign and one or more digits.
pub fn parse_decimal(text: &[char], max: u64) -> (res: Option<u64>)
    ensures
        match read_decimal(text@, max as nat) {
            Some(value) => res matches Some(found) && found == value,
            None => res is None,
        },
{
    let mut from: usize = 0;
    if text.len() > 0 && text[0] == '+' {
        from = 1;
    }
    let digits = slice_subrange(text, from, text.len());
    proof {
        if from == 1 {
            assert(digits@ =~= text@.drop_first());
        } else {
            assert(digits@ =~= text@);
        }
        assert(digits@ == without_plus(text@));
    }
    if digits.len() == 0 {
        return None;
    }
    let mut value: u64 = 0;
    let mut i: usize = 0;
    assert(digits@.take(0) =~= Seq::<char>::empty());
    while i < digits.len()
        invariant
            i <= digits@.len(),
            value <= max,
            value == decimal_value(digits@.take(i as int)),
            forall|k: int| 0 <= k < i ==> is_digit(#[trigger] digits@[k]),
            digits@.len() > 0,
            digits@ == without_plus(text@),
        decreases digits@.len() - i,
    {
        let ch: char = digits[i];
        if ch < '0' || '9' < ch {
            assert(!is_digit(digits@[i as int]));
            return None;
        }
        let digit: u64 = (ch as u32 - '0' as u32) as u64;
        let next: u128 = value as u128 * 10 + digit as u128;
        proof {
            assert(digits@.take(i + 1).drop_last() =~= digits@.take(i as int));
            assert(next == decimal_value(digits@.take(i + 1)));
        }
        if next > max as u128 {
            proof {
                if all_digits(digits@) {
                    lemma_decimal_value_prefix(digits@, i + 1);
                }
            }
            return None;
        }
        value = next as u64;
        i += 1;
    }
    assert(digits@.take(i as int) =~= digits@);
    Some(value)
}

} // verus!
