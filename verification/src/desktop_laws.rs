//! What holds of every desktop file and of every search for them.
use vstd::prelude::*;

use crate::desktop::{
    after_dirs, after_file, after_files, any_current, by_name, desktop_extension, dir_views,
    discovered, discovery_view, entry_key, entry_of, entry_of_file, entry_views, field, field_items,
    file_fields, file_key, file_views, flag, has_file, has_id, id_of, is_current, is_desktop_path,
    is_true, lemma_discovered, lemma_listed_files, list_items, listed_files, maybe_entry,
    named_desktops, only_desktop_files, path_rank, proper_field, proper_items, rank_at, read_lines,
    shown, stands_first, unescaped, ApplicationsDir, DesktopEntry, DirView, Discovered,
    DiscoveryError, EntryView, ErrorView, Fields, FileView, FoundFile, Terms,
};
use crate::order::{lemma_rank_order, precedes, rank_order, text_less};
use crate::text::{equal_ignoring_ascii_case, line_views, pieces, string_views, trimmed};
use crate::text_laws::{lemma_pieces, lemma_split_once, lemma_text_less};
use crate::unicode::{lossy_text, lowercase};

verus! {

// ---------------------------------------------------------------------------------------------
// Values
// ---------------------------------------------------------------------------------------------

/// A backslash and the character after it stand for one character: `n` for a newline, `t` for a tab,
/// `r` for a carriage return, `s` for a space, and every other for itself. What is not after a
/// backslash stands for itself, and so does a backslash at the end.
pub proof fn lemma_unescaped_start(ch: char, rest: Seq<char>)
    ensures
        unescaped(seq![]) == Seq::<char>::empty(),
        unescaped(seq!['\\']) == seq!['\\'],
        ch != '\\' ==> unescaped(seq![ch] + rest) == seq![ch] + unescaped(rest),
        unescaped(seq!['\\', 'n'] + rest) == seq!['\n'] + unescaped(rest),
        unescaped(seq!['\\', 't'] + rest) == seq!['\t'] + unescaped(rest),
        unescaped(seq!['\\', 'r'] + rest) == seq!['\r'] + unescaped(rest),
        unescaped(seq!['\\', 's'] + rest) == seq![' '] + unescaped(rest),
        ch != 'n' && ch != 't' && ch != 'r' && ch != 's' ==> unescaped(seq!['\\', ch] + rest)
            == seq![ch] + unescaped(rest),
{
    assert((seq![ch] + rest).drop_first() =~= rest);
    assert((seq!['\\', 'n'] + rest).skip(2) =~= rest);
    assert((seq!['\\', 't'] + rest).skip(2) =~= rest);
    assert((seq!['\\', 'r'] + rest).skip(2) =~= rest);
    assert((seq!['\\', 's'] + rest).skip(2) =~= rest);
    assert((seq!['\\', ch] + rest).skip(2) =~= rest);
}

proof fn lemma_items_added(first: Seq<char>, rest: Seq<Seq<char>>)
    ensures
        proper_items(seq![first] + rest) == proper_items(seq![first]) + proper_items(rest),
    decreases rest.len(),
{
    let all = seq![first] + rest;
    if rest.len() == 0 {
        assert(all =~= seq![first]);
        assert(proper_items(all) =~= proper_items(seq![first]) + proper_items(rest));
    } else {
        lemma_items_added(first, rest.drop_last());
        assert(all.drop_last() =~= seq![first] + rest.drop_last());
        assert(proper_items(all) =~= proper_items(seq![first]) + proper_items(rest));
    }
}

/// The items of a list: what stands between the separators, without white space round it, and
/// without those that are empty.
pub proof fn lemma_list_split(before: Seq<char>, sep: char, after: Seq<char>)
    requires
        !before.contains(sep),
    ensures
        trimmed(before).len() == 0 ==> list_items(before, sep) == Seq::<Seq<char>>::empty(),
        trimmed(before).len() > 0 ==> list_items(before, sep) == seq![trimmed(before)],
        list_items(before + seq![sep] + after, sep) == list_items(before, sep) + list_items(
            after,
            sep,
        ),
{
    lemma_pieces(before, sep, after);
    lemma_items_added(before, pieces(after, sep));
    reveal_with_fuel(proper_items, 2);
    assert(seq![before].drop_last() =~= seq![]);
    assert(seq![before].last() == before);
}

/// A value is true just where it says `true`, in any case. A field counts without the white space
/// round it, and not at all where nothing else is in it; a list that is not there has no items.
pub proof fn lemma_values(fields: Fields, key: Seq<char>, value: Seq<char>)
    ensures
        is_true(value) <==> equal_ignoring_ascii_case(value, seq!['t', 'r', 'u', 'e']),
        fields.contains_key(key) ==> field(fields, key) == Some(fields[key]),
        !fields.contains_key(key) ==> field(fields, key) is None,
        fields.contains_key(key) && trimmed(fields[key]).len() > 0 ==> proper_field(fields, key)
            == Some(trimmed(fields[key])),
        !fields.contains_key(key) || trimmed(fields[key]).len() == 0 ==> proper_field(
            fields,
            key,
        ) is None,
        flag(fields, key) <==> fields.contains_key(key) && equal_ignoring_ascii_case(
            fields[key],
            seq!['t', 'r', 'u', 'e'],
        ),
        field_items(Some(value)) == list_items(value, ';'),
        field_items(None) == Seq::<Seq<char>>::empty(),
{
    reveal_strlit("true");
    assert("true"@ =~= seq!['t', 'r', 'u', 'e']);
}

/// A desktop is current just where one of the current ones equals it without regard to ASCII case.
pub proof fn lemma_current(desktop: Seq<char>, current: Seq<Seq<char>>)
    ensures
        is_current(desktop, current) <==> exists|k: int|
            0 <= k < current.len() && equal_ignoring_ascii_case(#[trigger] current[k], desktop),
{
}

/// The current desktops are the items of the variable, which stand between colons.
pub proof fn lemma_named_desktops(value: Seq<char>)
    ensures
        named_desktops(Some(value)) == list_items(value, ':'),
        named_desktops(None) == Seq::<Seq<char>>::empty(),
{
}

// ---------------------------------------------------------------------------------------------
// Files
// ---------------------------------------------------------------------------------------------

/// What a further line of a desktop file adds to what was read before. Empty lines and comments add
/// nothing. A header only says whether the lines after it count: they do after `[Desktop Entry]` and
/// after no other. A line that counts and holds an equals sign sets the field before it to the value
/// after it, whatever it was before, unless the key is localised; any other line adds nothing.
pub proof fn lemma_line_added(
    before: Seq<Seq<char>>,
    line: Seq<char>,
    key: Seq<char>,
    value: Seq<char>,
)
    requires
        !key.contains('='),
    ensures
        ({
            let text = trimmed(line);
            let old = read_lines(before);
            let new = read_lines(before.push(line));
            let header = text.len() > 0 && text[0] == '[' && text[text.len() - 1] == ']';
            let other = text.len() > 0 && text[0] != '#' && !header;
            &&& read_lines(seq![]).fields == Map::<Seq<char>, Seq<char>>::empty()
            &&& !read_lines(seq![]).in_entry
            &&& text.len() == 0 ==> new == old
            &&& text.len() > 0 && text[0] == '#' ==> new == old
            &&& header ==> new.fields == old.fields && (new.in_entry <==> text
                == "[Desktop Entry]"@)
            &&& !header ==> new.in_entry == old.in_entry
            &&& other && !old.in_entry ==> new == old
            &&& other && old.in_entry && text == key + seq!['='] + value && !trimmed(key).contains(
                '[',
            ) ==> new.fields == old.fields.insert(trimmed(key), unescaped(trimmed(value)))
            &&& other && text == key + seq!['='] + value && trimmed(key).contains('[') ==> new
                == old
            &&& other && text == key ==> new == old
        }),
{
    assert(before.push(line).drop_last() =~= before);
    lemma_split_once(key, '=', value);
}

/// The fields of a file are those that its lines add up to.
pub proof fn lemma_fields_of_lines(text: Seq<char>)
    ensures
        file_fields(text) == read_lines(line_views(text)).fields,
{
}

/// When a desktop file gives an entry, and what the entry holds. It gives one just where its type is
/// `Application`, it is not hidden, it is to be displayed or hidden entries are kept, it is shown on
/// this desktop, and it has a name and an `Exec` line. Each part of the entry is the field of its
/// own name without white space round it; lists are split at semicolons; and the entry runs in a
/// terminal just where the field `Terminal` is there and says `true`, in any case.
pub proof fn lemma_entry_parts(
    id: Seq<char>,
    path: Seq<u8>,
    fields: Fields,
    source_rank: u8,
    include_hidden: bool,
    current: Seq<Seq<char>>,
)
    ensures
        ({
            let entry = entry_of(id, path, fields, source_rank, include_hidden, current);
            let truth = seq!['t', 'r', 'u', 'e'];
            let hidden = fields.contains_key("Hidden"@) && equal_ignoring_ascii_case(
                fields["Hidden"@],
                truth,
            );
            let undisplayed = fields.contains_key("NoDisplay"@) && equal_ignoring_ascii_case(
                fields["NoDisplay"@],
                truth,
            );
            &&& entry is Some <==> {
                &&& fields.contains_key("Type"@)
                &&& fields["Type"@] == "Application"@
                &&& !hidden
                &&& include_hidden || !undisplayed
                &&& shown(fields, current)
                &&& fields.contains_key("Name"@)
                &&& trimmed(fields["Name"@]).len() > 0
                &&& fields.contains_key("Exec"@)
                &&& trimmed(fields["Exec"@]).len() > 0
            }
            &&& entry is Some ==> {
                let entry = entry->0;
                &&& entry.id == id
                &&& entry.path == path
                &&& entry.source_rank == source_rank
                &&& entry.name == trimmed(fields["Name"@])
                &&& entry.exec_line == trimmed(fields["Exec"@])
                &&& entry.terminal <==> fields.contains_key("Terminal"@)
                    && equal_ignoring_ascii_case(fields["Terminal"@], truth)
                &&& entry.generic_name == if fields.contains_key("GenericName"@) && trimmed(
                    fields["GenericName"@],
                ).len() > 0 {
                    Some(trimmed(fields["GenericName"@]))
                } else {
                    None
                }
                &&& entry.comment == if fields.contains_key("Comment"@) && trimmed(
                    fields["Comment"@],
                ).len() > 0 {
                    Some(trimmed(fields["Comment"@]))
                } else {
                    None
                }
                &&& entry.icon == if fields.contains_key("Icon"@) && trimmed(fields["Icon"@]).len()
                    > 0 {
                    Some(trimmed(fields["Icon"@]))
                } else {
                    None
                }
                &&& entry.keywords == if fields.contains_key("Keywords"@) {
                    list_items(fields["Keywords"@], ';')
                } else {
                    Seq::<Seq<char>>::empty()
                }
                &&& entry.categories == if fields.contains_key("Categories"@) {
                    list_items(fields["Categories"@], ';')
                } else {
                    Seq::<Seq<char>>::empty()
                }
            }
        }),
{
    reveal_strlit("true");
    assert("true"@ =~= seq!['t', 'r', 'u', 'e']);
}

/// An entry is shown unless a current desktop is among the items of `NotShowIn`, or `OnlyShowIn` has
/// items and none of them is a current desktop. Desktops are compared without regard to ASCII case.
pub proof fn lemma_shown_on(
    fields: Fields,
    current: Seq<Seq<char>>,
    not_in: Seq<Seq<char>>,
    only_in: Seq<Seq<char>>,
)
    requires
        fields.contains_key("NotShowIn"@) ==> not_in == list_items(fields["NotShowIn"@], ';'),
        !fields.contains_key("NotShowIn"@) ==> not_in.len() == 0,
        fields.contains_key("OnlyShowIn"@) ==> only_in == list_items(fields["OnlyShowIn"@], ';'),
        !fields.contains_key("OnlyShowIn"@) ==> only_in.len() == 0,
    ensures
        shown(fields, current) <==> {
            &&& forall|i: int, k: int|
                0 <= i < not_in.len() && 0 <= k < current.len() ==> !equal_ignoring_ascii_case(
                    #[trigger] current[k],
                    #[trigger] not_in[i],
                )
            &&& only_in.len() == 0 || exists|i: int, k: int|
                0 <= i < only_in.len() && 0 <= k < current.len() && equal_ignoring_ascii_case(
                    #[trigger] current[k],
                    #[trigger] only_in[i],
                )
        },
{
    lemma_any_current(not_in, current);
    lemma_any_current(only_in, current);
    if !fields.contains_key("NotShowIn"@) {
        assert(not_in =~= seq![]);
    }
    if !fields.contains_key("OnlyShowIn"@) {
        assert(only_in =~= seq![]);
    }
}

/// One of some desktops is current just where it equals a current one without regard to ASCII case.
pub proof fn lemma_any_current(desktops: Seq<Seq<char>>, current: Seq<Seq<char>>)
    ensures
        any_current(desktops, current) <==> exists|i: int, k: int|
            0 <= i < desktops.len() && 0 <= k < current.len() && equal_ignoring_ascii_case(
                #[trigger] current[k],
                #[trigger] desktops[i],
            ),
        forall|i: int| #![trigger desktops[i]]
            0 <= i < desktops.len() ==> (is_current(desktops[i], current) <==> exists|k: int|
                0 <= k < current.len() && equal_ignoring_ascii_case(
                    #[trigger] current[k],
                    desktops[i],
                )),
{
    if any_current(desktops, current) {
        let i = choose|i: int| 0 <= i < desktops.len() && is_current(#[trigger] desktops[i], current);
        let k = choose|k: int|
            0 <= k < current.len() && equal_ignoring_ascii_case(#[trigger] current[k], desktops[i]);
        assert(equal_ignoring_ascii_case(current[k], desktops[i]));
    }
    if exists|i: int, k: int|
        0 <= i < desktops.len() && 0 <= k < current.len() && equal_ignoring_ascii_case(
            #[trigger] current[k],
            #[trigger] desktops[i],
        ) {
        let (i, k) = choose|i: int, k: int|
            0 <= i < desktops.len() && 0 <= k < current.len() && equal_ignoring_ascii_case(
                #[trigger] current[k],
                #[trigger] desktops[i],
            );
        assert(is_current(desktops[i], current));
    }
}

// ---------------------------------------------------------------------------------------------
// Paths
// ---------------------------------------------------------------------------------------------

/// A path is that of a desktop file just where it ends in `.desktop` after a byte that is no slash.
pub proof fn lemma_desktop_path(path: Seq<u8>, head: Seq<u8>, byte: u8)
    ensures
        is_desktop_path(
            head.push(byte) + seq![0x2eu8, 0x64u8, 0x65u8, 0x73u8, 0x6bu8, 0x74u8, 0x6fu8, 0x70u8],
        ) <==> byte != 0x2f,
        is_desktop_path(path) ==> path.len() > 8 && path == path.take(path.len() - 8) + seq![
            0x2eu8,
            0x64u8,
            0x65u8,
            0x73u8,
            0x6bu8,
            0x74u8,
            0x6fu8,
            0x70u8,
        ],
{
    let tail = seq![0x2eu8, 0x64u8, 0x65u8, 0x73u8, 0x6bu8, 0x74u8, 0x6fu8, 0x70u8];
    let whole = head.push(byte) + tail;
    assert(tail =~= desktop_extension());
    assert(whole.skip(whole.len() - 8) =~= tail);
    assert(whole[whole.len() - 9] == byte);
    if is_desktop_path(path) {
        assert(path =~= path.take(path.len() - 8) + path.skip(path.len() - 8));
    }
}

/// The id of a file is its path below the directory, place by place, with a hyphen for each slash.
pub proof fn lemma_id(relative_path: Seq<u8>)
    ensures
        id_of(relative_path).len() == lossy_text(relative_path).len(),
        forall|i: int|
            0 <= i < lossy_text(relative_path).len() ==> #[trigger] id_of(relative_path)[i] == if (
            lossy_text(relative_path)[i] == '/') {
                '-'
            } else {
                lossy_text(relative_path)[i]
            },
{
}

/// The rank of a directory is its place, and from the 255th on 255.
pub proof fn lemma_rank(index: int)
    requires
        0 <= index,
    ensures
        index <= 255 ==> rank_at(index) == index,
        index > 255 ==> rank_at(index) == 255,
{
}

proof fn lemma_ranks(a: u8, b: u8)
    ensures
        path_rank(a) == path_rank(b) <==> a == b,
        path_rank(a) < path_rank(b) <==> a != b && (a == 0x2f || (b != 0x2f && a < b)),
{
}

/// The desktop files of a directory are listed in the order of their paths, part by part: at the
/// first byte in which two paths differ, the path of which a part ends there comes first, and else
/// the one with the smaller byte.
pub proof fn lemma_file_order(files: Seq<FileView>, i: int, j: int)
    requires
        0 <= i < j < listed_files(files).len(),
    ensures
        ({
            let a = listed_files(files)[i].relative_path;
            let b = listed_files(files)[j].relative_path;
            a == b || exists|k: int|
                {
                    &&& 0 <= k <= a.len()
                    &&& k < b.len()
                    &&& #[trigger] a.take(k) == b.take(k)
                    &&& k == a.len() || (a[k] != b[k] && (a[k] == 0x2f || (b[k] != 0x2f && a[k]
                        < b[k])))
                }
        }),
{
    let kept = only_desktop_files(files);
    let keys = Seq::new(kept.len(), |n: int| file_key(kept[n]));
    let order = rank_order(keys);
    lemma_rank_order(keys);
    assert(precedes(keys, order[i], order[j]));
    let first = listed_files(files)[i];
    let second = listed_files(files)[j];
    let a = first.relative_path;
    let b = second.relative_path;
    let x = file_key(first).name;
    let y = file_key(second).name;
    assert(0 <= order[i] < keys.len() && 0 <= order[j] < keys.len());
    assert(keys[order[i]] == file_key(first));
    assert(keys[order[j]] == file_key(second));
    if text_less(x, y) {
        lemma_text_less(x, y);
        let k = choose|k: int|
            0 <= k <= x.len() && k < y.len() && #[trigger] x.take(k) == y.take(k) && (k == x.len()
                || x[k] < y[k]);
        assert forall|n: int| 0 <= n < k implies a[n] == b[n] by {
            assert(x.take(k)[n] == y.take(k)[n]);
            lemma_ranks(a[n], b[n]);
        }
        assert(a.take(k) =~= b.take(k));
        if k < a.len() {
            lemma_ranks(a[k], b[k]);
        }
    } else {
        assert(x == y);
        assert forall|n: int| 0 <= n < a.len() implies a[n] == b[n] by {
            assert(x[n] == y[n]);
            lemma_ranks(a[n], b[n]);
        }
        assert(a.len() == x.len() && b.len() == y.len());
        assert(a =~= b);
    }
}

/// As many files are listed as there are desktop files in the directory.
pub proof fn lemma_file_count(files: Seq<FileView>, file: FileView)
    ensures
        listed_files(seq![]).len() == 0,
        is_desktop_path(file.relative_path) ==> listed_files(files.push(file)).len()
            == listed_files(files).len() + 1,
        !is_desktop_path(file.relative_path) ==> listed_files(files.push(file)) == listed_files(
            files,
        ),
        listed_files(files).contains(file) <==> files.contains(file) && is_desktop_path(
            file.relative_path,
        ),
{
    assert(files.push(file).drop_last() =~= files);
    lemma_listed_files(files, file);
}

// ---------------------------------------------------------------------------------------------
// Discovery
// ---------------------------------------------------------------------------------------------

/// A file whose id was met before is passed over, whatever it holds. Any other is read: its id is met
/// from then on, and its entry kept where it gives one. If it cannot be read, discovery stops and
/// names it.
pub proof fn lemma_file_taken(before: Discovered, file: FileView, source_rank: u8, terms: Terms)
    ensures
        ({
            let id = id_of(file.relative_path);
            let after = after_file(before, file, source_rank, terms);
            &&& before.seen.contains(id) ==> after == Ok::<Discovered, ErrorView>(before)
            &&& !before.seen.contains(id) && file.text is None ==> after == Err::<
                Discovered,
                ErrorView,
            >(ErrorView::File(file.path))
            &&& !before.seen.contains(id) && file.text is Some ==> {
                let entry = entry_of(
                    id,
                    file.path,
                    file_fields(file.text->0),
                    source_rank,
                    terms.include_hidden,
                    terms.current,
                );
                &&& after is Ok
                &&& after->Ok_0.seen == before.seen.push(id)
                &&& entry is Some ==> after->Ok_0.entries == before.entries.push(entry->0)
                &&& entry is None ==> after->Ok_0.entries == before.entries
            }
        }),
{
}

/// Files are taken one after the other, up to the first that stops discovery.
pub proof fn lemma_files_taken(
    before: Discovered,
    files: Seq<FileView>,
    file: FileView,
    source_rank: u8,
    terms: Terms,
)
    ensures
        after_files(before, seq![], source_rank, terms) == Ok::<Discovered, ErrorView>(before),
        after_files(before, files, source_rank, terms) is Err ==> after_files(
            before,
            files.push(file),
            source_rank,
            terms,
        ) == after_files(before, files, source_rank, terms),
        after_files(before, files, source_rank, terms) is Ok ==> after_files(
            before,
            files.push(file),
            source_rank,
            terms,
        ) == after_file(
            after_files(before, files, source_rank, terms)->Ok_0,
            file,
            source_rank,
            terms,
        ),
{
    assert(files.push(file).drop_last() =~= files);
}

/// Directories are taken one after the other, each with its place as its rank and its files in the
/// order of their paths. One that is not there changes nothing; one that cannot be listed stops
/// discovery, which names its place.
pub proof fn lemma_dirs_taken(dirs: Seq<DirView>, files: Seq<FileView>, dir: DirView, terms: Terms)
    ensures
        ({
            let before = after_dirs(dirs, terms);
            let rank: int = if dirs.len() < 255 {
                dirs.len() as int
            } else {
                255
            };
            &&& after_dirs(seq![], terms) is Ok
            &&& after_dirs(seq![], terms)->Ok_0.seen.len() == 0
            &&& after_dirs(seq![], terms)->Ok_0.entries.len() == 0
            &&& before is Err ==> after_dirs(dirs.push(dir), terms) == before
            &&& after_dirs(dirs.push(DirView::Absent), terms) == before
            &&& before is Ok ==> after_dirs(dirs.push(DirView::Unreadable), terms) == Err::<
                Discovered,
                ErrorView,
            >(ErrorView::Directory(dirs.len() as int))
            &&& before is Ok ==> after_dirs(dirs.push(DirView::Files(files)), terms)
                == after_files(before->Ok_0, listed_files(files), rank as u8, terms)
        }),
{
    assert(dirs.push(dir).drop_last() =~= dirs);
    assert(dirs.push(DirView::Absent).drop_last() =~= dirs);
    assert(dirs.push(DirView::Unreadable).drop_last() =~= dirs);
    assert(dirs.push(DirView::Files(files)).drop_last() =~= dirs);
}

/// What is discovered is all that was kept, in the order of lowercase names; those of one such name
/// stand as they were found. The places are those at which they were found.
pub proof fn lemma_by_name(found: Seq<EntryView>) -> (places: Seq<int>)
    ensures
        by_name(found).len() == found.len(),
        places.len() == found.len(),
        forall|p: int| 0 <= p < found.len() ==> #[trigger] places.contains(p),
        forall|i: int|
            0 <= i < found.len() ==> 0 <= #[trigger] places[i] < found.len() && by_name(found)[i]
                == found[places[i]],
        forall|i: int, j: int|
            0 <= i < j < found.len() ==> {
                let a = lowercase((#[trigger] by_name(found)[i]).name);
                let b = lowercase((#[trigger] by_name(found)[j]).name);
                text_less(a, b) || (a == b && places[i] < places[j])
            },
{
    let keys = Seq::new(found.len(), |i: int| entry_key(found[i]));
    let order = rank_order(keys);
    lemma_rank_order(keys);
    assert forall|i: int, j: int| 0 <= i < j < found.len() implies {
        let a = lowercase((#[trigger] by_name(found)[i]).name);
        let b = lowercase((#[trigger] by_name(found)[j]).name);
        text_less(a, b) || (a == b && order[i] < order[j])
    } by {
        assert(precedes(keys, order[i], order[j]));
        assert(keys[order[i]] == entry_key(by_name(found)[i]));
        assert(keys[order[j]] == entry_key(by_name(found)[j]));
    }
    order
}

/// Where each discovered entry comes from: a desktop file in the first directory that has a file of
/// this id, with the place of the directory as its rank. No two have one id, and none stands after
/// one whose lowercase name comes later.
pub proof fn lemma_origin(dirs: Seq<DirView>, terms: Terms, i: int)
    requires
        discovered(dirs, terms) is Ok,
        0 <= i < discovered(dirs, terms)->Ok_0.len(),
    ensures
        ({
            let entries = discovered(dirs, terms)->Ok_0;
            let entry = entries[i];
            &&& exists|index: int, file: FileView|
                {
                    &&& 0 <= index < dirs.len()
                    &&& dirs[index] is Files
                    &&& #[trigger] dirs[index]->Files_0.contains(file)
                    &&& is_desktop_path(file.relative_path)
                    &&& file.text is Some
                    &&& entry_of(
                        id_of(file.relative_path),
                        file.path,
                        file_fields(file.text->0),
                        (if index < 255 {
                            index
                        } else {
                            255
                        }) as u8,
                        terms.include_hidden,
                        terms.current,
                    ) == Some(entry)
                    &&& forall|k: int, other: FileView|
                        0 <= k < index && dirs[k] is Files
                            && #[trigger] dirs[k]->Files_0.contains(other) && is_desktop_path(
                            other.relative_path,
                        ) ==> id_of(other.relative_path) != entry.id
                }
            &&& forall|j: int|
                0 <= j < entries.len() && j != i ==> (#[trigger] entries[j]).id != entry.id
            &&& forall|j: int|
                i < j < entries.len() ==> !text_less(
                    lowercase((#[trigger] entries[j]).name),
                    lowercase(entry.name),
                )
        }),
{
    lemma_discovered(dirs, terms);
    let entries = discovered(dirs, terms)->Ok_0;
    let entry = entries[i];
    assert(crate::desktop::comes_first(entry, dirs, terms));
    let index = choose|index: int| #[trigger] stands_first(entry, dirs, index, terms);
    let file = choose|file: FileView| #[trigger]
        has_file(dirs[index], file) && entry_of_file(file, index, terms) == Some(entry);
    assert(dirs[index]->Files_0.contains(file));
    assert forall|k: int, other: FileView|
        0 <= k < index && dirs[k] is Files && #[trigger] dirs[k]->Files_0.contains(other)
            && is_desktop_path(other.relative_path) implies id_of(other.relative_path)
        != entry.id by {
        let files = dirs[k]->Files_0;
        let f = choose|f: int| 0 <= f < files.len() && files[f] == other;
        assert(!has_id(dirs[k], entry.id));
        assert(is_desktop_path(files[f].relative_path));
    }
    assert forall|j: int| 0 <= j < entries.len() && j != i implies (#[trigger] entries[j]).id
        != entry.id by {
        if j < i {
            assert(entries[j].id != entries[i].id);
        } else {
            assert(entries[i].id != entries[j].id);
        }
    }
    let found = after_dirs(dirs, terms)->Ok_0.entries;
    let places = lemma_by_name(found);
    assert forall|j: int| i < j < entries.len() implies !text_less(
        lowercase((#[trigger] entries[j]).name),
        lowercase(entry.name),
    ) by {
        let a = lowercase(by_name(found)[i].name);
        let b = lowercase(by_name(found)[j].name);
        crate::order::lemma_text_less_strict(a, b);
    }
}

proof fn lemma_files_readable(
    before: Discovered,
    files: Seq<FileView>,
    source_rank: u8,
    terms: Terms,
)
    ensures
        (forall|f: int| 0 <= f < files.len() ==> (#[trigger] files[f]).text is Some) ==> after_files(
            before,
            files,
            source_rank,
            terms,
        ) is Ok,
        after_files(before, files, source_rank, terms) is Err ==> exists|f: int|
            0 <= f < files.len() && (#[trigger] files[f]).text is None && after_files(
                before,
                files,
                source_rank,
                terms,
            ) == Err::<Discovered, ErrorView>(ErrorView::File(files[f].path)),
    decreases files.len(),
{
    if files.len() > 0 {
        let head = files.drop_last();
        lemma_files_readable(before, head, source_rank, terms);
        if forall|f: int| 0 <= f < files.len() ==> (#[trigger] files[f]).text is Some {
            assert forall|f: int| 0 <= f < head.len() implies (#[trigger] head[f]).text is Some by {
                assert(head[f] == files[f]);
            }
            assert(files[files.len() - 1].text is Some);
        }
        if after_files(before, files, source_rank, terms) is Err {
            if after_files(before, head, source_rank, terms) is Err {
                let f = choose|f: int|
                    0 <= f < head.len() && (#[trigger] head[f]).text is None && after_files(
                        before,
                        head,
                        source_rank,
                        terms,
                    ) == Err::<Discovered, ErrorView>(ErrorView::File(head[f].path));
                assert(files[f] == head[f]);
            } else {
                assert(files[files.len() - 1].text is None);
            }
        }
    }
}

proof fn lemma_dirs_readable(dirs: Seq<DirView>, terms: Terms)
    ensures
        (forall|k: int| 0 <= k < dirs.len() ==> !(#[trigger] dirs[k] is Unreadable)) && (forall|
            k: int,
            file: FileView,
        |
            0 <= k < dirs.len() && dirs[k] is Files && #[trigger] dirs[k]->Files_0.contains(file)
                && is_desktop_path(file.relative_path) ==> file.text is Some) ==> after_dirs(
            dirs,
            terms,
        ) is Ok,
        forall|index: int| #[trigger]
            after_dirs(dirs, terms) == Err::<Discovered, ErrorView>(ErrorView::Directory(index))
                ==> 0 <= index < dirs.len() && dirs[index] is Unreadable && forall|k: int|
                0 <= k < index ==> !(#[trigger] dirs[k] is Unreadable),
        forall|path: Seq<u8>| #[trigger]
            after_dirs(dirs, terms) == Err::<Discovered, ErrorView>(ErrorView::File(path))
                ==> exists|k: int, file: FileView|
                0 <= k < dirs.len() && dirs[k] is Files && #[trigger] dirs[k]->Files_0.contains(
                    file,
                ) && is_desktop_path(file.relative_path) && file.text is None && file.path == path,
        after_dirs(dirs, terms) is Ok ==> forall|k: int|
            0 <= k < dirs.len() ==> !(#[trigger] dirs[k] is Unreadable),
    decreases dirs.len(),
{
    if dirs.len() > 0 {
        let head = dirs.drop_last();
        let last = dirs.len() - 1;
        lemma_dirs_readable(head, terms);
        assert forall|k: int| 0 <= k < head.len() implies #[trigger] head[k] == dirs[k] by {}
        assert(dirs[last] == dirs.last());
        if dirs.last() is Files && after_dirs(head, terms) is Ok {
            let files = dirs.last()->Files_0;
            let listed = listed_files(files);
            let before = after_dirs(head, terms)->Ok_0;
            lemma_files_readable(before, listed, rank_at(last), terms);
            assert forall|f: int| 0 <= f < listed.len() implies dirs[last]->Files_0.contains(
                #[trigger] listed[f],
            ) && is_desktop_path(listed[f].relative_path) by {
                assert(listed.contains(listed[f]));
                lemma_listed_files(files, listed[f]);
            }
        }
        assert forall|path: Seq<u8>| #[trigger]
            after_dirs(dirs, terms) == Err::<Discovered, ErrorView>(
                ErrorView::File(path),
            ) implies exists|k: int, file: FileView|
            0 <= k < dirs.len() && dirs[k] is Files && #[trigger] dirs[k]->Files_0.contains(file)
                && is_desktop_path(file.relative_path) && file.text is None && file.path == path by {
            if after_dirs(head, terms) is Err {
                let (k, file) = choose|k: int, file: FileView|
                    0 <= k < head.len() && head[k] is Files
                        && #[trigger] head[k]->Files_0.contains(file) && is_desktop_path(
                        file.relative_path,
                    ) && file.text is None && file.path == path;
                assert(head[k] == dirs[k]);
                assert(dirs[k]->Files_0.contains(file));
            } else {
                let files = dirs.last()->Files_0;
                let listed = listed_files(files);
                let before = after_dirs(head, terms)->Ok_0;
                let f = choose|f: int|
                    0 <= f < listed.len() && (#[trigger] listed[f]).text is None && after_files(
                        before,
                        listed,
                        rank_at(last),
                        terms,
                    ) == Err::<Discovered, ErrorView>(ErrorView::File(listed[f].path));
                assert(dirs[last]->Files_0.contains(listed[f]));
            }
        }
        if (forall|k: int| 0 <= k < dirs.len() ==> !(#[trigger] dirs[k] is Unreadable)) && (forall|
            k: int,
            file: FileView,
        |
            0 <= k < dirs.len() && dirs[k] is Files && #[trigger] dirs[k]->Files_0.contains(file)
                && is_desktop_path(file.relative_path) ==> file.text is Some) {
            assert forall|k: int| 0 <= k < head.len() implies !(#[trigger] head[k] is Unreadable) by {
                assert(dirs[k] == head[k]);
            }
            assert forall|k: int, file: FileView|
                0 <= k < head.len() && head[k] is Files && #[trigger] head[k]->Files_0.contains(
                    file,
                ) && is_desktop_path(file.relative_path) implies file.text is Some by {
                assert(dirs[k]->Files_0.contains(file));
            }
            assert(!(dirs[last] is Unreadable));
        }
        assert forall|index: int| #[trigger]
            after_dirs(dirs, terms) == Err::<Discovered, ErrorView>(
                ErrorView::Directory(index),
            ) implies 0 <= index < dirs.len() && dirs[index] is Unreadable && forall|k: int|
            0 <= k < index ==> !(#[trigger] dirs[k] is Unreadable) by {
            if after_dirs(head, terms) is Err {
                assert(head[index] == dirs[index]);
                assert forall|k: int| 0 <= k < index implies !(#[trigger] dirs[k] is Unreadable) by {
                    assert(head[k] == dirs[k]);
                }
            } else {
                assert(index == last);
                assert forall|k: int| 0 <= k < index implies !(#[trigger] dirs[k] is Unreadable) by {
                    assert(head[k] == dirs[k]);
                }
            }
        }
        if after_dirs(dirs, terms) is Ok {
            assert forall|k: int| 0 <= k < dirs.len() implies !(#[trigger] dirs[k] is Unreadable) by {
                if k < last {
                    assert(head[k] == dirs[k]);
                }
            }
        }
    }
}

/// Discovery fails only at a directory that cannot be listed, and then names the first such, or at a
/// desktop file that cannot be read, and then names its path. Where every directory can be listed
/// and every desktop file read, it does not fail; where a directory cannot be listed, it does.
pub proof fn lemma_failures(dirs: Seq<DirView>, terms: Terms)
    ensures
        (forall|k: int| 0 <= k < dirs.len() ==> !(#[trigger] dirs[k] is Unreadable)) && (forall|
            k: int,
            file: FileView,
        |
            0 <= k < dirs.len() && dirs[k] is Files && #[trigger] dirs[k]->Files_0.contains(file)
                && is_desktop_path(file.relative_path) ==> file.text is Some) ==> discovered(
            dirs,
            terms,
        ) is Ok,
        discovered(dirs, terms) is Ok ==> forall|k: int|
            0 <= k < dirs.len() ==> !(#[trigger] dirs[k] is Unreadable),
        forall|index: int| #[trigger]
            discovered(dirs, terms) == Err::<Seq<EntryView>, ErrorView>(ErrorView::Directory(index))
                ==> 0 <= index < dirs.len() && dirs[index] is Unreadable && forall|k: int|
                0 <= k < index ==> !(#[trigger] dirs[k] is Unreadable),
        forall|path: Seq<u8>| #[trigger]
            discovered(dirs, terms) == Err::<Seq<EntryView>, ErrorView>(ErrorView::File(path))
                ==> exists|k: int, file: FileView|
                0 <= k < dirs.len() && dirs[k] is Files && #[trigger] dirs[k]->Files_0.contains(
                    file,
                ) && is_desktop_path(file.relative_path) && file.text is None && file.path == path,
{
    lemma_dirs_readable(dirs, terms);
    assert forall|index: int| #[trigger]
        discovered(dirs, terms) == Err::<Seq<EntryView>, ErrorView>(
            ErrorView::Directory(index),
        ) implies 0 <= index < dirs.len() && dirs[index] is Unreadable && forall|k: int|
        0 <= k < index ==> !(#[trigger] dirs[k] is Unreadable) by {
        assert(after_dirs(dirs, terms) == Err::<Discovered, ErrorView>(
            ErrorView::Directory(index),
        ));
    }
    assert forall|path: Seq<u8>| #[trigger]
        discovered(dirs, terms) == Err::<Seq<EntryView>, ErrorView>(
            ErrorView::File(path),
        ) implies exists|k: int, file: FileView|
        0 <= k < dirs.len() && dirs[k] is Files && #[trigger] dirs[k]->Files_0.contains(file)
            && is_desktop_path(file.relative_path) && file.text is None && file.path == path by {
        assert(after_dirs(dirs, terms) == Err::<Discovered, ErrorView>(ErrorView::File(path)));
    }
}

// ---------------------------------------------------------------------------------------------
// Models
// ---------------------------------------------------------------------------------------------

/// What the models of entries, files and directories hold: all of their parts.
pub proof fn lemma_entry_model(entry: DesktopEntry, file: FoundFile, dir: ApplicationsDir)
    ensures
        entry@.id == entry.id@,
        entry@.path == entry.path@,
        entry@.name == entry.name@,
        entry@.exec_line == entry.exec_line@,
        entry@.terminal == entry.terminal,
        entry@.source_rank == entry.source_rank,
        entry@.generic_name is Some <==> entry.generic_name is Some,
        entry.generic_name is Some ==> entry@.generic_name->0 == entry.generic_name->0@,
        entry@.comment is Some <==> entry.comment is Some,
        entry.comment is Some ==> entry@.comment->0 == entry.comment->0@,
        entry@.icon is Some <==> entry.icon is Some,
        entry.icon is Some ==> entry@.icon->0 == entry.icon->0@,
        entry@.keywords == string_views(entry.keywords@),
        entry@.categories == string_views(entry.categories@),
        maybe_entry(Some(entry)) == Some(entry@),
        maybe_entry(None) is None,
        file@.relative_path == file.relative_path@,
        file@.path == file.path@,
        file@.text is Some <==> file.text is Some,
        file.text is Some ==> file@.text->0 == file.text->0@,
        match dir {
            ApplicationsDir::Absent => dir@ == DirView::Absent,
            ApplicationsDir::Unreadable => dir@ == DirView::Unreadable,
            ApplicationsDir::Files(files) => dir@ == DirView::Files(file_views(files@)),
        },
{
}

/// What the models of lists hold: the models of all their items, in order.
pub proof fn lemma_list_models(
    texts: Seq<String>,
    entries: Vec<DesktopEntry>,
    files: Seq<FoundFile>,
    dirs: Seq<ApplicationsDir>,
    error: DiscoveryError,
)
    ensures
        string_views(texts).len() == texts.len(),
        forall|i: int| 0 <= i < texts.len() ==> #[trigger] string_views(texts)[i] == texts[i]@,
        entry_views(entries@).len() == entries@.len(),
        forall|i: int|
            0 <= i < entries@.len() ==> #[trigger] entry_views(entries@)[i] == entries@[i]@,
        file_views(files).len() == files.len(),
        forall|i: int| 0 <= i < files.len() ==> #[trigger] file_views(files)[i] == files[i]@,
        dir_views(dirs).len() == dirs.len(),
        forall|i: int| 0 <= i < dirs.len() ==> #[trigger] dir_views(dirs)[i] == dirs[i]@,
        discovery_view(Ok(entries)) == Ok::<Seq<EntryView>, ErrorView>(entry_views(entries@)),
        discovery_view(Err(error)) == Err::<Seq<EntryView>, ErrorView>(error@),
        match error {
            DiscoveryError::Directory { index } => error@ == ErrorView::Directory(index as int),
            DiscoveryError::File { path } => error@ == ErrorView::File(path@),
        },
{
}

} // verus!
