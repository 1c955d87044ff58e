//! How often each application was launched.
use vstd::prelude::*;

use crate::order::{
    is_rank_order, key_less, key_views, lemma_key_less_irreflexive, lemma_key_less_transitive,
    lemma_precedes_strict, lemma_rank_order, precedes, rank_order, sort_by_rank, KeyView,
    RankKey,
};
use crate::paths::{state_file, Environment};
use crate::table::{distinct_keys, rows_map, Row, TextTable};
use crate::text::{
    decimal, from_chars, is_trimmed, lemma_decimal, lemma_position, lemma_position_unique,
    lemma_read_decimal, lemma_trimmed, line_views, lines, parse_decimal, position, read_decimal,
    slice_views, split_first, split_once, strip_carriage_return, to_chars, to_decimal, trim,
    trimmed, white_space, is_digit,
};

pub use crate::paths::{jofi_history_path, tofi_history_path};

verus! {

/// The launch counts, by application name.
#[derive(Debug)]
pub struct History {
    counts: TextTable<u32>,
}

impl View for History {
    type V = Map<Seq<char>, u32>;

    closed spec fn view(&self) -> Map<Seq<char>, u32> {
        self.counts@
    }
}

/// How often a name was launched: zero if it is not in the history.
pub open spec fn count_of(counts: Map<Seq<char>, u32>, name: Seq<char>) -> u32 {
    if counts.contains_key(name) {
        counts[name]
    } else {
        0
    }
}

/// The counts after one more launch of a name. A count stays at the greatest number it can hold.
pub open spec fn incremented(counts: Map<Seq<char>, u32>, name: Seq<char>) -> Map<Seq<char>, u32> {
    let count = count_of(counts, name);
    counts.insert(
        name,
        if count < u32::MAX {
            (count + 1) as u32
        } else {
            u32::MAX
        },
    )
}

/// The name and the count that a line of a history file holds: a decimal number, a space and the
/// name. Other lines hold nothing.
pub open spec fn line_record(line: Seq<char>) -> Option<(Seq<char>, u32)> {
    match split_first(trimmed(line), ' ') {
        Some((count, name)) => match read_decimal(count, u32::MAX as nat) {
            Some(value) => if trimmed(name).len() > 0 {
                Some((trimmed(name), value as u32))
            } else {
                None
            },
            None => None,
        },
        None => None,
    }
}

/// The counts that the lines of a history file hold. A later line replaces an earlier one.
pub open spec fn lines_counts(lines: Seq<Seq<char>>) -> Map<Seq<char>, u32>
    decreases lines.len(),
{
    if lines.len() == 0 {
        Map::empty()
    } else {
        let before = lines_counts(lines.drop_last());
        match line_record(lines.last()) {
            Some((name, count)) => before.insert(name, count),
            None => before,
        }
    }
}

/// The counts that a history file holds.
pub open spec fn text_counts(text: Seq<char>) -> Map<Seq<char>, u32> {
    lines_counts(line_views(text))
}

/// What a line of the file is placed by: greater counts first, then names by code points.
pub open spec fn record_key(record: (Seq<char>, u32)) -> KeyView {
    KeyView { weight: record.1 as int, rank: 0, name: record.0 }
}

/// Whether a list holds every name with its count once, in the order of the file.
pub open spec fn is_listing(counts: Map<Seq<char>, u32>, listing: Seq<(Seq<char>, u32)>) -> bool {
    &&& forall|i: int, j: int|
        0 <= i < j < listing.len() ==> key_less(
            record_key(#[trigger] listing[i]),
            record_key(#[trigger] listing[j]),
        )
    &&& forall|i: int|
        0 <= i < listing.len() ==> counts.contains_pair((#[trigger] listing[i]).0, listing[i].1)
    &&& forall|name: Seq<char>| #[trigger]
        counts.contains_key(name) ==> exists|i: int|
            0 <= i < listing.len() && (#[trigger] listing[i]).0 == name
}

/// The names and counts in the order of the file.
pub open spec fn listing_of(counts: Map<Seq<char>, u32>) -> Seq<(Seq<char>, u32)> {
    choose|listing: Seq<(Seq<char>, u32)>| is_listing(counts, listing)
}

/// A line of the file, without its newline.
pub open spec fn record_line(record: (Seq<char>, u32)) -> Seq<char> {
    decimal(record.1 as nat) + seq![' '] + record.0
}

/// The lines of a list of records, each with its newline.
pub open spec fn listing_text(listing: Seq<(Seq<char>, u32)>) -> Seq<char>
    decreases listing.len(),
{
    if listing.len() == 0 {
        seq![]
    } else {
        listing_text(listing.drop_last()) + record_line(listing.last()) + seq!['\n']
    }
}

/// The file that holds the counts.
pub open spec fn saved_text(counts: Map<Seq<char>, u32>) -> Seq<char> {
    listing_text(listing_of(counts))
}

/// Whether a name can be told from its line: it is not empty, has no white space at its ends and
/// no newline inside.
pub open spec fn storable(name: Seq<char>) -> bool {
    name.len() > 0 && is_trimmed(name) && !name.contains('\n')
}

/// Reads the counts from the text of a history file.
pub fn parse_history(text: &str) -> (res: TextTable<u32>)
    ensures
        res@ == text_counts(text@),
{
    let chars: Vec<char> = to_chars(text);
    let parts: Vec<&[char]> = lines(chars.as_slice());
    let ghost views = line_views(text@);
    let mut counts: TextTable<u32> = TextTable::new();
    let mut i: usize = 0;
    assert(views.take(0) =~= seq![]);
    while i < parts.len()
        invariant
            i <= parts@.len(),
            slice_views(parts@) == views,
            views == line_views(text@),
            counts@ == lines_counts(views.take(i as int)),
        decreases parts@.len() - i,
    {
        let line = trim(parts[i]);
        proof {
            let next = views.take(i + 1);
            assert(next.drop_last() =~= views.take(i as int));
            assert(next.last() == slice_views(parts@)[i as int]);
        }
        if let Some((count, name)) = split_once(line, ' ') {
            if let Some(value) = parse_decimal(count, u32::MAX as u64) {
                let name = trim(name);
                if name.len() > 0 {
                    counts.insert(from_chars(name), value as u32);
                }
            }
        }
        i += 1;
    }
    assert(views.take(i as int) =~= views);
    counts
}

impl Default for History {
    fn default() -> (res: Self)
        ensures
            res@ == Map::<Seq<char>, u32>::empty(),
    {
        History { counts: TextTable::new() }
    }
}

impl Clone for History {
    fn clone(&self) -> (res: Self)
        ensures
            res@ == self@,
    {
        let rows: &Vec<Row<u32>> = self.counts.rows();
        let mut counts: TextTable<u32> = TextTable::new();
        let mut i: usize = 0;
        assert(rows@.take(0) =~= seq![]);
        while i < rows.len()
            invariant
                i <= rows@.len(),
                counts@ == rows_map(rows@.take(i as int)),
            decreases rows@.len() - i,
        {
            assert(rows@.take(i + 1).drop_last() =~= rows@.take(i as int));
            counts.insert(rows[i].key.clone(), rows[i].value);
            i += 1;
        }
        assert(rows@.take(i as int) =~= rows@);
        History { counts }
    }
}

/// A file to write.
#[derive(Debug)]
pub struct PendingFile {
    pub path: Vec<u8>,
    pub text: String,
}

impl History {
    /// The history that the text of a history file holds.
    pub fn from_text(text: &str) -> (res: Self)
        ensures
            res@ == text_counts(text@),
    {
        History { counts: parse_history(text) }
    }

    /// The history to start with, from the text of jofi's own file, or else of tofi's, or else
    /// empty. What comes from tofi's file is also to be written to jofi's: the second result is
    /// the text to write.
    pub fn load_with_tofi_fallback(jofi: Option<&str>, tofi: Option<&str>) -> (res: (
        Self,
        Option<String>,
    ))
        ensures
            match (jofi, tofi) {
                (Some(text), _) => res.0@ == text_counts(text@) && res.1 is None,
                (None, Some(text)) => res.0@ == text_counts(text@) && (res.1 matches Some(copy)
                    && copy@ == saved_text(text_counts(text@))),
                (None, None) => res.0@ == Map::<Seq<char>, u32>::empty() && res.1 is None,
            },
    {
        if let Some(text) = jofi {
            return (Self::from_text(text), None);
        }
        if let Some(text) = tofi {
            let history = Self::from_text(text);
            let copy = history.to_text();
            return (history, Some(copy));
        }
        (Self::default(), None)
    }

    /// The history file to write, with its path.
    pub fn save(&self, environment: &Environment) -> (res: PendingFile)
        ensures
            res.path@ == state_file(environment@, "history"@),
            res.text@ == saved_text(self@),
    {
        PendingFile { path: jofi_history_path(environment), text: self.to_text() }
    }

    /// How often a name was launched.
    pub fn count_for(&self, name: &str) -> (res: u32)
        ensures
            res == count_of(self@, name@),
    {
        match self.counts.get(name) {
            Some(count) => *count,
            None => 0,
        }
    }

    /// Counts one more launch of a name.
    pub fn increment(&mut self, name: &str)
        ensures
            final(self)@ == incremented(old(self)@, name@),
    {
        let count: u32 = self.count_for(name);
        self.counts.insert(name.to_owned(), count.saturating_add(1));
    }

    /// The number of names.
    pub fn len(&self) -> (res: usize)
        ensures
            self@.dom().finite(),
            res == self@.dom().len(),
    {
        self.counts.len()
    }

    /// Whether there are no names.
    pub fn is_empty(&self) -> (res: bool)
        ensures
            res == (self@ == Map::<Seq<char>, u32>::empty()),
    {
        let len = self.counts.len();
        proof {
            if len == 0 {
                assert(self@.dom() =~= Set::empty());
                assert(self@ =~= Map::empty());
            }
        }
        len == 0
    }

    /// The text of the history file: a line for each name, the most launched first.
    pub fn to_text(&self) -> (res: String)
        ensures
            res@ == saved_text(self@),
    {
        let rows: &Vec<Row<u32>> = self.counts.rows();
        let mut places: Vec<usize> = Vec::new();
        let mut keys: Vec<RankKey> = Vec::new();
        let mut i: usize = 0;
        while i < rows.len()
            invariant
                i <= rows@.len(),
                places@.len() == i,
                keys@.len() == i,
                forall|k: int| 0 <= k < i ==> #[trigger] places@[k] == k,
                forall|k: int|
                    0 <= k < i ==> (#[trigger] keys@[k])@ == record_key(
                        (rows@[k].key@, rows@[k].value),
                    ),
            decreases rows@.len() - i,
        {
            places.push(i);
            keys.push(
                RankKey { weight: rows[i].value as i64, rank: 0, name: to_chars(rows[i].key.as_str()) },
            );
            i += 1;
        }
        let ghost views = key_views(keys@);
        let ghost order = rank_order(views);
        let sorted: Vec<usize> = sort_by_rank(places, keys);
        let ghost listing = Seq::new(
            rows@.len(),
            |k: int| (rows@[order[k]].key@, rows@[order[k]].value),
        );
        proof {
            lemma_rank_order(views);
            assert(rows@.len() == views.len());
            lemma_rows_listing(rows@, views, order, listing);
            lemma_listing_unique(self@, listing);
        }
        let mut out: String = String::new();
        let mut at: usize = 0;
        assert(listing.take(0) =~= seq![]);
        while at < sorted.len()
            invariant
                at <= sorted@.len(),
                sorted@.len() == rows@.len(),
                listing.len() == rows@.len(),
                is_rank_order(views, order),
                views.len() == rows@.len(),
                forall|k: int| 0 <= k < sorted@.len() ==> #[trigger] sorted@[k] == order[k],
                listing == Seq::new(
                    rows@.len(),
                    |k: int| (rows@[order[k]].key@, rows@[order[k]].value),
                ),
                out@ == listing_text(listing.take(at as int)),
            decreases sorted@.len() - at,
        {
            let place: usize = sorted[at];
            assert(0 <= order[at as int] < views.len());
            let count: String = to_decimal(rows[place].value as u64);
            out.append(count.as_str());
            out.push(' ');
            out.append(rows[place].key.as_str());
            out.push('\n');
            proof {
                let next = listing.take(at + 1);
                assert(next.drop_last() =~= listing.take(at as int));
                assert(next.last() == (rows@[place as int].key@, rows@[place as int].value));
                assert(out@ =~= listing_text(next));
            }
            at += 1;
        }
        assert(listing.take(at as int) =~= listing);
        out
    }
}

proof fn lemma_rows_listing(
    rows: Seq<Row<u32>>,
    keys: Seq<KeyView>,
    order: Seq<int>,
    listing: Seq<(Seq<char>, u32)>,
)
    requires
        distinct_keys(rows),
        keys.len() == rows.len(),
        forall|i: int|
            0 <= i < rows.len() ==> #[trigger] keys[i] == record_key((rows[i].key@, rows[i].value)),
        is_rank_order(keys, order),
        listing == Seq::new(rows.len(), |k: int| (rows[order[k]].key@, rows[order[k]].value)),
    ensures
        is_listing(rows_map(rows), listing),
{
    lemma_rows_contents(rows);
    let counts = rows_map(rows);
    assert forall|i: int, j: int| 0 <= i < j < listing.len() implies key_less(
        record_key(#[trigger] listing[i]),
        record_key(#[trigger] listing[j]),
    ) by {
        let p = order[i];
        let q = order[j];
        assert(precedes(keys, p, q));
        lemma_precedes_strict(keys, p, q, p);
        assert(keys[p] == record_key(listing[i]));
        assert(keys[q] == record_key(listing[j]));
        if keys[p] == keys[q] {
            assert(rows[p].key@ != rows[q].key@);
        }
    }
    assert forall|i: int| 0 <= i < listing.len() implies counts.contains_pair(
        (#[trigger] listing[i]).0,
        listing[i].1,
    ) by {
        let p = order[i];
        assert(counts.contains_pair(rows[p].key@, rows[p].value@));
    }
    assert forall|name: Seq<char>| #[trigger] counts.contains_key(name) implies exists|i: int|
        0 <= i < listing.len() && (#[trigger] listing[i]).0 == name by {
        let p = choose|p: int| 0 <= p < rows.len() && (#[trigger] rows[p]).key@ == name;
        assert(order.contains(p));
        let i = choose|i: int| 0 <= i < order.len() && order[i] == p;
        assert(listing[i].0 == name);
    }
}

proof fn lemma_rows_contents(rows: Seq<Row<u32>>)
    requires
        distinct_keys(rows),
    ensures
        forall|i: int|
            0 <= i < rows.len() ==> rows_map(rows).contains_pair(
                (#[trigger] rows[i]).key@,
                rows[i].value@,
            ),
        forall|key: Seq<char>| #[trigger]
            rows_map(rows).contains_key(key) ==> exists|i: int|
                0 <= i < rows.len() && (#[trigger] rows[i]).key@ == key,
{
    crate::table::lemma_rows_map(rows);
}

proof fn lemma_listing_agrees(
    counts: Map<Seq<char>, u32>,
    a: Seq<(Seq<char>, u32)>,
    b: Seq<(Seq<char>, u32)>,
    i: int,
)
    requires
        is_listing(counts, a),
        is_listing(counts, b),
        0 <= i < a.len(),
    ensures
        i < b.len(),
        a[i] == b[i],
    decreases i,
{
    assert forall|k: int| 0 <= k < i implies k < b.len() && a[k] == b[k] by {
        lemma_listing_agrees(counts, a, b, k);
    }
    assert(counts.contains_pair(a[i].0, a[i].1));
    let j = choose|j: int| 0 <= j < b.len() && (#[trigger] b[j]).0 == a[i].0;
    assert(counts.contains_pair(b[j].0, b[j].1));
    assert(b[j] == a[i]);
    lemma_key_less_irreflexive(record_key(a[i]));
    if j < i {
        assert(a[j] == b[j]);
        assert(key_less(record_key(a[j]), record_key(a[i])));
    }
    assert(counts.contains_pair(b[i].0, b[i].1));
    let k = choose|k: int| 0 <= k < a.len() && (#[trigger] a[k]).0 == b[i].0;
    assert(counts.contains_pair(a[k].0, a[k].1));
    assert(a[k] == b[i]);
    if j > i {
        assert(key_less(record_key(b[i]), record_key(b[j])));
        if k < i {
            assert(a[k] == b[k]);
            assert(key_less(record_key(b[k]), record_key(b[i])));
            lemma_key_less_irreflexive(record_key(b[i]));
        } else if k > i {
            assert(key_less(record_key(a[i]), record_key(a[k])));
            lemma_key_less_transitive(record_key(a[i]), record_key(b[i]), record_key(a[i]));
        }
    }
}

/// There is only one listing of the counts.
pub proof fn lemma_listing_unique(counts: Map<Seq<char>, u32>, listing: Seq<(Seq<char>, u32)>)
    requires
        is_listing(counts, listing),
    ensures
        listing_of(counts) == listing,
{
    let chosen = listing_of(counts);
    assert(is_listing(counts, chosen));
    if chosen.len() > listing.len() {
        lemma_listing_agrees(counts, chosen, listing, listing.len() as int);
    }
    if listing.len() > chosen.len() {
        lemma_listing_agrees(counts, listing, chosen, chosen.len() as int);
    }
    assert forall|i: int| 0 <= i < listing.len() implies chosen[i] == listing[i] by {
        lemma_listing_agrees(counts, listing, chosen, i);
    }
    assert(chosen =~= listing);
}

// ---------------------------------------------------------------------------------------------
// Laws
// ---------------------------------------------------------------------------------------------

proof fn lemma_enumeration(names: Set<Seq<char>>) -> (list: Seq<Seq<char>>)
    requires
        names.finite(),
    ensures
        forall|i: int| 0 <= i < list.len() ==> names.contains(#[trigger] list[i]),
        forall|name: Seq<char>| #[trigger] names.contains(name) ==> list.contains(name),
        forall|i: int, j: int| 0 <= i < j < list.len() ==> #[trigger] list[i] != #[trigger] list[j],
    decreases names.len(),
{
    if names.len() == 0 {
        Seq::empty()
    } else {
        let name = names.choose();
        let rest = lemma_enumeration(names.remove(name));
        let list = rest.push(name);
        assert forall|other: Seq<char>| #[trigger] names.contains(other) implies list.contains(
            other,
        ) by {
            if other == name {
                assert(list[rest.len() as int] == name);
            } else {
                assert(names.remove(name).contains(other));
                let i = choose|i: int| 0 <= i < rest.len() && rest[i] == other;
                assert(list[i] == other);
            }
        }
        assert forall|i: int, j: int| 0 <= i < j < list.len() implies #[trigger] list[i]
            != #[trigger] list[j] by {
            assert(list[i] == rest[i]);
            assert(names.remove(name).contains(rest[i]));
            if j < rest.len() {
                assert(list[j] == rest[j]);
            }
        }
        list
    }
}

/// Finitely many counts have a listing.
pub proof fn lemma_listing(counts: Map<Seq<char>, u32>)
    requires
        counts.dom().finite(),
    ensures
        is_listing(counts, listing_of(counts)),
{
    let names = lemma_enumeration(counts.dom());
    let records = Seq::new(names.len(), |i: int| (names[i], counts[names[i]]));
    let keys = Seq::new(names.len(), |i: int| record_key(records[i]));
    lemma_rank_order(keys);
    let order = rank_order(keys);
    let listing = Seq::new(names.len(), |i: int| records[order[i]]);
    assert forall|i: int, j: int| 0 <= i < j < listing.len() implies key_less(
        record_key(#[trigger] listing[i]),
        record_key(#[trigger] listing[j]),
    ) by {
        let p = order[i];
        let q = order[j];
        assert(precedes(keys, p, q));
        lemma_precedes_strict(keys, p, q, p);
        assert(keys[p] == record_key(listing[i]));
        assert(keys[q] == record_key(listing[j]));
        if keys[p] == keys[q] {
            assert(keys[p].name == names[p]);
            assert(keys[q].name == names[q]);
            assert(names[p] != names[q]);
        }
    }
    assert forall|i: int| 0 <= i < listing.len() implies counts.contains_pair(
        (#[trigger] listing[i]).0,
        listing[i].1,
    ) by {
        let p = order[i];
        assert(listing[i] == records[p]);
        assert(counts.dom().contains(names[p]));
    }
    assert forall|name: Seq<char>| #[trigger] counts.contains_key(name) implies exists|i: int|
        0 <= i < listing.len() && (#[trigger] listing[i]).0 == name by {
        assert(counts.dom().contains(name));
        let p = choose|p: int| 0 <= p < names.len() && names[p] == name;
        assert(order.contains(p));
        let i = choose|i: int| 0 <= i < order.len() && order[i] == p;
        assert(listing[i].0 == name);
    }
    assert(is_listing(counts, listing));
}

pub(crate) proof fn lemma_lines_append(text: Seq<char>, line: Seq<char>)
    requires
        text.len() == 0 || text.last() == '\n',
        !line.contains('\n'),
        line.len() == 0 || line.last() != '\r',
    ensures
        line_views(text + line + seq!['\n']) == line_views(text).push(line),
    decreases text.len(),
{
    let whole = text + line + seq!['\n'];
    if text.len() == 0 {
        assert forall|k: int| 0 <= k < line.len() implies whole[k] != '\n' by {
            assert(whole[k] == line[k]);
            assert(line.contains(line[k]));
        }
        assert(whole[line.len() as int] == '\n');
        lemma_position_unique(whole, '\n', line.len() as int);
        assert(whole.take(line.len() as int) =~= line);
        assert(whole.skip((line.len() + 1) as int) =~= seq![]);
        assert(line_views(seq![]) =~= seq![]);
        assert(line_views(whole) =~= seq![line]);
        assert(line_views(text) =~= seq![]);
        assert(line_views(whole) =~= line_views(text).push(line));
    } else {
        lemma_position(text, '\n');
        let at = position(text, '\n') as int;
        if at == text.len() {
            assert(text[text.len() - 1] != '\n');
        }
        assert forall|k: int| 0 <= k < at implies whole[k] != '\n' by {
            assert(whole[k] == text[k]);
        }
        assert(whole[at] == text[at]);
        lemma_position_unique(whole, '\n', at);
        let rest = text.skip(at + 1);
        assert(whole.take(at) =~= text.take(at));
        assert(whole.skip(at + 1) =~= rest + line + seq!['\n']);
        if rest.len() > 0 {
            assert(rest.last() == text.last());
        }
        lemma_lines_append(rest, line);
        let first = strip_carriage_return(text.take(at));
        assert(line_views(whole) == seq![first] + line_views(rest + line + seq!['\n']));
        assert(line_views(text) == seq![first] + line_views(rest));
        assert(line_views(whole) =~= line_views(text).push(line));
    }
}

proof fn lemma_record_line(record: (Seq<char>, u32))
    requires
        storable(record.0),
    ensures
        line_record(record_line(record)) == Some(record),
        !record_line(record).contains('\n'),
        record_line(record).len() > 0,
        record_line(record).last() != '\r',
{
    let line = record_line(record);
    let count = decimal(record.1 as nat);
    let name = record.0;
    let at = count.len() as int;
    lemma_decimal(record.1 as nat);
    assert forall|k: int| 0 <= k < at implies is_digit(#[trigger] line[k]) by {
        assert(line[k] == count[k]);
        assert(is_digit(count[k]));
    }
    assert(line[at] == ' ');
    assert forall|k: int| at < k < line.len() implies #[trigger] line[k] == name[k - at - 1] by {}
    assert(line.last() == name.last());
    assert(trimmed(line) == line) by {
        assert(is_digit(line[0]));
        lemma_trimmed(line);
    }
    assert(trimmed(name) == name) by {
        lemma_trimmed(name);
    }
    assert(position(line, ' ') == at) by {
        assert forall|k: int| 0 <= k < at implies line[k] != ' ' by {
            assert(is_digit(line[k]));
        }
        lemma_position_unique(line, ' ', at);
    }
    assert(line.take(at) =~= count);
    assert(line.skip(at + 1) =~= name);
    assert(split_first(line, ' ') == Some((count, name)));
    assert(read_decimal(count, u32::MAX as nat) == Some(record.1 as nat)) by {
        lemma_read_decimal(record.1 as nat, u32::MAX as nat);
    }
    assert(!line.contains('\n')) by {
        assert forall|k: int| 0 <= k < line.len() implies line[k] != '\n' by {
            if k < at {
                assert(is_digit(line[k]));
            } else if k > at {
                assert(name.contains(name[k - at - 1]));
            }
        }
    }
}

proof fn lemma_listing_text(listing: Seq<(Seq<char>, u32)>)
    requires
        forall|i: int| 0 <= i < listing.len() ==> storable((#[trigger] listing[i]).0),
    ensures
        line_views(listing_text(listing)) == Seq::new(
            listing.len(),
            |i: int| record_line(listing[i]),
        ),
        listing.len() > 0 ==> listing_text(listing).len() > 0 && listing_text(listing).last()
            == '\n',
    decreases listing.len(),
{
    if listing.len() == 0 {
        assert(line_views(seq![]) =~= seq![]);
        assert(Seq::new(listing.len(), |i: int| record_line(listing[i])) =~= seq![]);
    } else {
        let head = listing.drop_last();
        lemma_listing_text(head);
        lemma_record_line(listing.last());
        lemma_lines_append(listing_text(head), record_line(listing.last()));
        assert(line_views(listing_text(listing)) =~= Seq::new(
            listing.len(),
            |i: int| record_line(listing[i]),
        ));
    }
}

proof fn lemma_lines_counts(listing: Seq<(Seq<char>, u32)>, len: int)
    requires
        0 <= len <= listing.len(),
        forall|i: int| 0 <= i < listing.len() ==> storable((#[trigger] listing[i]).0),
        forall|i: int, j: int|
            0 <= i < j < listing.len() ==> (#[trigger] listing[i]).0 != (#[trigger] listing[j]).0,
    ensures
        ({
            let counts = lines_counts(
                Seq::new(listing.len(), |i: int| record_line(listing[i])).take(len),
            );
            &&& forall|i: int|
                0 <= i < len ==> counts.contains_pair((#[trigger] listing[i]).0, listing[i].1)
            &&& forall|name: Seq<char>| #[trigger]
                counts.contains_key(name) ==> exists|i: int|
                    0 <= i < len && (#[trigger] listing[i]).0 == name
        }),
    decreases len,
{
    let all = Seq::new(listing.len(), |i: int| record_line(listing[i]));
    if len > 0 {
        lemma_lines_counts(listing, len - 1);
        let lines = all.take(len);
        assert(lines.drop_last() =~= all.take(len - 1));
        let record = listing[len - 1];
        lemma_record_line(record);
        let before = lines_counts(all.take(len - 1));
        let counts = lines_counts(lines);
        assert(counts == before.insert(record.0, record.1));
        assert forall|i: int| 0 <= i < len implies counts.contains_pair(
            (#[trigger] listing[i]).0,
            listing[i].1,
        ) by {
            if i < len - 1 {
                assert(before.contains_pair(listing[i].0, listing[i].1));
                assert(listing[i].0 != listing[len - 1].0);
            }
        }
        assert forall|name: Seq<char>| #[trigger] counts.contains_key(name) implies exists|i: int|
            0 <= i < len && (#[trigger] listing[i]).0 == name by {
            if name == record.0 {
                assert(listing[len - 1].0 == name);
            } else {
                assert(before.contains_key(name));
                let i = choose|i: int| 0 <= i < len - 1 && (#[trigger] listing[i]).0 == name;
                assert(listing[i].0 == name);
            }
        }
    }
}

/// A history that was saved loads as it was, if every name in it can be told from its line.
pub proof fn lemma_saved_history_loads(counts: Map<Seq<char>, u32>)
    requires
        counts.dom().finite(),
        forall|name: Seq<char>| #[trigger] counts.contains_key(name) ==> storable(name),
    ensures
        text_counts(saved_text(counts)) == counts,
{
    lemma_listing(counts);
    let listing = listing_of(counts);
    assert forall|i: int| 0 <= i < listing.len() implies storable((#[trigger] listing[i]).0) by {
        assert(counts.contains_pair(listing[i].0, listing[i].1));
    }
    assert forall|i: int, j: int| 0 <= i < j < listing.len() implies (#[trigger] listing[i]).0 != (
    #[trigger] listing[j]).0 by {
        assert(counts.contains_pair(listing[i].0, listing[i].1));
        assert(counts.contains_pair(listing[j].0, listing[j].1));
        assert(key_less(record_key(listing[i]), record_key(listing[j])));
        lemma_key_less_irreflexive(record_key(listing[i]));
    }
    lemma_listing_text(listing);
    let lines = Seq::new(listing.len(), |i: int| record_line(listing[i]));
    assert(lines.take(listing.len() as int) =~= lines);
    lemma_lines_counts(listing, listing.len() as int);
    let loaded = text_counts(saved_text(counts));
    assert forall|name: Seq<char>|
        #![trigger loaded.dom().contains(name)]
        #![trigger counts.dom().contains(name)]
        loaded.dom().contains(name) == counts.dom().contains(name) && (loaded.dom().contains(name)
            ==> loaded[name] == counts[name]) by {
        if counts.contains_key(name) {
            let i = choose|i: int| 0 <= i < listing.len() && (#[trigger] listing[i]).0 == name;
            assert(loaded.contains_pair(listing[i].0, listing[i].1));
            assert(counts.contains_pair(listing[i].0, listing[i].1));
        }
        if loaded.contains_key(name) {
            let i = choose|i: int| 0 <= i < listing.len() && (#[trigger] listing[i]).0 == name;
            assert(counts.contains_pair(listing[i].0, listing[i].1));
        }
    }
    assert(loaded.dom() =~= counts.dom());
    assert(loaded =~= counts);
}

proof fn lemma_line_views_without_newline(text: Seq<char>)
    ensures
        forall|i: int|
            0 <= i < line_views(text).len() ==> !(#[trigger] line_views(text)[i]).contains('\n'),
    decreases text.len(),
{
    if text.len() > 0 {
        lemma_position(text, '\n');
        let at = position(text, '\n') as int;
        if at < text.len() {
            let rest = text.skip(at + 1);
            lemma_line_views_without_newline(rest);
            let first = strip_carriage_return(text.take(at));
            assert forall|i: int| 0 <= i < line_views(text).len() implies !(
            #[trigger] line_views(text)[i]).contains('\n') by {
                if i == 0 {
                    assert(line_views(text)[0] == first);
                    assert forall|k: int| 0 <= k < first.len() implies first[k] != '\n' by {
                        assert(first[k] == text[k]);
                    }
                } else {
                    assert(line_views(text)[i] == line_views(rest)[i - 1]);
                }
            }
        } else {
            assert forall|i: int| 0 <= i < line_views(text).len() implies !(
            #[trigger] line_views(text)[i]).contains('\n') by {
                assert(line_views(text)[i] == text);
            }
        }
    }
}

proof fn lemma_line_record_storable(line: Seq<char>)
    requires
        !line.contains('\n'),
    ensures
        line_record(line) matches Some((name, _)) ==> storable(name),
{
    lemma_trimmed(line);
    let whole = trimmed(line);
    let (from, to): (int, int) = choose|from: int, to: int|
        0 <= from <= to <= line.len() && trimmed(line) == #[trigger] line.subrange(from, to) && (
        forall|k: int|
            0 <= k < from || to <= k < line.len() ==> white_space(#[trigger] line[k]));
    lemma_position(whole, ' ');
    let at = position(whole, ' ') as int;
    if at < whole.len() {
        let rest = whole.skip(at + 1);
        lemma_trimmed(rest);
        let name = trimmed(rest);
        let (a, b): (int, int) = choose|a: int, b: int|
            0 <= a <= b <= rest.len() && trimmed(rest) == #[trigger] rest.subrange(a, b) && (
            forall|k: int|
                0 <= k < a || b <= k < rest.len() ==> white_space(#[trigger] rest[k]));
        if name.contains('\n') {
            let k = choose|k: int| 0 <= k < name.len() && name[k] == '\n';
            assert(name[k] == rest[a + k]);
            assert(rest[a + k] == whole[at + 1 + a + k]);
            assert(whole[at + 1 + a + k] == line[from + at + 1 + a + k]);
        }
    }
}

proof fn lemma_lines_counts_storable(lines: Seq<Seq<char>>)
    requires
        forall|i: int| 0 <= i < lines.len() ==> !(#[trigger] lines[i]).contains('\n'),
    ensures
        lines_counts(lines).dom().finite(),
        forall|name: Seq<char>| #[trigger]
            lines_counts(lines).contains_key(name) ==> storable(name),
    decreases lines.len(),
{
    if lines.len() > 0 {
        lemma_lines_counts_storable(lines.drop_last());
        assert(!lines[lines.len() - 1].contains('\n'));
        lemma_line_record_storable(lines.last());
    }
}

/// Every name that a history file holds can be told from its line.
pub proof fn lemma_loaded_names_storable(text: Seq<char>)
    ensures
        text_counts(text).dom().finite(),
        forall|name: Seq<char>| #[trigger]
            text_counts(text).contains_key(name) ==> storable(name),
{
    lemma_line_views_without_newline(text);
    lemma_lines_counts_storable(line_views(text));
}

/// A history that was loaded, saved and loaded again is the same: copying tofi's file to jofi's
/// loses nothing that was read from it.
pub proof fn lemma_reloaded_history(text: Seq<char>)
    ensures
        text_counts(saved_text(text_counts(text))) == text_counts(text),
{
    lemma_loaded_names_storable(text);
    lemma_saved_history_loads(text_counts(text));
}

/// A launch raises the count of its name by one, up to the greatest number a count can hold, and
/// leaves the other counts alone.
pub proof fn lemma_incremented(counts: Map<Seq<char>, u32>, name: Seq<char>, other: Seq<char>)
    ensures
        count_of(incremented(counts, name), name) == if count_of(counts, name) == u32::MAX {
            u32::MAX as int
        } else {
            count_of(counts, name) + 1
        },
        other != name ==> count_of(incremented(counts, name), other) == count_of(counts, other),
{
}

} // verus!
