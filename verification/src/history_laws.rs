//! What holds of every history and of the file that holds it.
use vstd::prelude::*;

use crate::history::{
    count_of, incremented, lemma_lines_append, lemma_listing, line_record, lines_counts, listing_of,
    listing_text, record_key, saved_text, storable, text_counts,
};
use crate::order::{key_less, text_less};
use crate::text::{decimal, line_views, read_decimal, trimmed, white_space};
use crate::text_laws::lemma_split_once;

verus! {

/// A name that is not in the history was never launched. One more launch adds one to its count, up to
/// the greatest number that a count can hold, and touches no other name.
pub proof fn lemma_launch_counted(counts: Map<Seq<char>, u32>, name: Seq<char>, other: Seq<char>)
    ensures
        counts.contains_key(name) ==> count_of(counts, name) == counts[name],
        !counts.contains_key(name) ==> count_of(counts, name) == 0,
        incremented(counts, name).dom() == counts.dom().insert(name),
        !counts.contains_key(name) ==> incremented(counts, name)[name] == 1,
        counts.contains_key(name) && counts[name] < u32::MAX ==> incremented(counts, name)[name]
            == counts[name] + 1,
        counts.contains_key(name) && counts[name] == u32::MAX ==> incremented(counts, name)[name]
            == u32::MAX,
        other != name ==> incremented(counts, name)[other] == counts[other],
{
    assert(incremented(counts, name).dom() =~= counts.dom().insert(name));
}

/// A line holds a count up to its first space and the name after it, both without white space round
/// them. A line without a space, without a proper count or without a name holds nothing.
pub proof fn lemma_line_read(line: Seq<char>, count: Seq<char>, name: Seq<char>)
    requires
        !count.contains(' '),
    ensures
        trimmed(line) == count + seq![' '] + name ==> {
            let value = read_decimal(count, 0xffff_ffff);
            &&& value is Some && trimmed(name).len() > 0 ==> line_record(line) == Some(
                (trimmed(name), value->0 as u32),
            )
            &&& value is None || trimmed(name).len() == 0 ==> line_record(line) is None
        },
        trimmed(line) == count ==> line_record(line) is None,
{
    lemma_split_once(count, ' ', name);
}

/// A further line of a history file sets the count of the name that it holds, whatever earlier lines
/// said of this name; a line that holds nothing changes nothing.
pub proof fn lemma_further_record(
    text: Seq<char>,
    line: Seq<char>,
    name: Seq<char>,
    count: u32,
)
    requires
        text.len() == 0 || text.last() == '\n',
        !line.contains('\n'),
        line.len() == 0 || line.last() != '\r',
    ensures
        text_counts(seq![]) == Map::<Seq<char>, u32>::empty(),
        line_record(line) is None ==> text_counts(text + line + seq!['\n']) == text_counts(text),
        line_record(line) == Some((name, count)) ==> text_counts(text + line + seq!['\n'])
            == text_counts(text).insert(name, count),
{
    lemma_lines_append(text, line);
    let before = line_views(text);
    assert(before.push(line).drop_last() =~= before);
    assert(line_views(seq![]) =~= seq![]);
    assert(lines_counts(seq![]) =~= Map::empty());
}

/// The file holds a line for each name and no other line: the most launched names first, and names
/// of one count in the order of their characters.
pub proof fn lemma_saved_order(counts: Map<Seq<char>, u32>)
    requires
        counts.dom().finite(),
    ensures
        exists|listing: Seq<(Seq<char>, u32)>|
            {
                &&& saved_text(counts) == #[trigger] listing_text(listing)
                &&& forall|i: int|
                    0 <= i < listing.len() ==> counts.contains_pair(
                        (#[trigger] listing[i]).0,
                        listing[i].1,
                    )
                &&& forall|name: Seq<char>| #[trigger]
                    counts.contains_key(name) ==> exists|i: int|
                        0 <= i < listing.len() && (#[trigger] listing[i]).0 == name
                &&& forall|i: int, j: int|
                    0 <= i < j < listing.len() ==> (#[trigger] listing[i]).1 > (
                    #[trigger] listing[j]).1 || (listing[i].1 == listing[j].1 && text_less(
                        listing[i].0,
                        listing[j].0,
                    ))
            },
{
    lemma_listing(counts);
    let listing = listing_of(counts);
    assert forall|i: int, j: int| 0 <= i < j < listing.len() implies (#[trigger] listing[i]).1 > (
    #[trigger] listing[j]).1 || (listing[i].1 == listing[j].1 && text_less(
        listing[i].0,
        listing[j].0,
    )) by {
        assert(key_less(record_key(listing[i]), record_key(listing[j])));
    }
    assert(saved_text(counts) == listing_text(listing));
}

/// Each line of the file is the count in decimal, a space, the name and a newline.
pub proof fn lemma_saved_line(before: Seq<(Seq<char>, u32)>, name: Seq<char>, count: u32)
    ensures
        listing_text(seq![]) == Seq::<char>::empty(),
        listing_text(before.push((name, count))) == listing_text(before) + decimal(count as nat)
            + seq![' '] + name + seq!['\n'],
{
    assert(before.push((name, count)).drop_last() =~= before);
    assert(listing_text(before.push((name, count))) =~= listing_text(before) + decimal(count as nat)
        + seq![' '] + name + seq!['\n']);
}

/// A name can be told from its line just where it is not empty, has no white space at its ends and no
/// newline in it.
pub proof fn lemma_storable(name: Seq<char>)
    ensures
        storable(name) <==> name.len() > 0 && !white_space(name[0]) && !white_space(
            name[name.len() - 1],
        ) && !name.contains('\n'),
{
}

} // verus!
