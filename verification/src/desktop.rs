//! Desktop entries.
use vstd::prelude::*;
use vstd::utf8::{decode_utf8, valid_utf8};

use crate::order::{
    key_less, key_views, lemma_rank_order, lemma_ranked, rank_order, ranked, sort_by_rank, KeyView, RankKey,
};
use crate::paths::copy_bytes;
use crate::table::TextTable;
use crate::text::{
    clone_option, clone_strings, eq_ignore_ascii_case, equal_ignoring_ascii_case, from_chars, is_trimmed,
    lemma_trimmed, line_views, lines, option_view, pieces, slice_views, split, split_first, split_once, string_views, to_chars,
    trim, trimmed,
};
use crate::unicode::{from_utf8_lossy, lossy_text, lowercase, str_to_lowercase};

pub use crate::paths::applications_dirs;

verus! {

/// A launchable application.
#[derive(Debug, PartialEq, Eq)]
pub struct DesktopEntry {
    /// The path below the applications directory, with `-` for `/`.
    pub id: String,
    /// The path of the desktop file.
    pub path: Vec<u8>,
    pub name: String,
    pub generic_name: Option<String>,
    pub comment: Option<String>,
    pub keywords: Vec<String>,
    /// The `Exec` line.
    pub exec_line: String,
    pub icon: Option<String>,
    pub terminal: bool,
    pub categories: Vec<String>,
    /// The place of the applications directory in the search order.
    pub source_rank: u8,
}

/// The model of a [`DesktopEntry`].
#[verifier::ext_equal]
pub struct EntryView {
    pub id: Seq<char>,
    pub path: Seq<u8>,
    pub name: Seq<char>,
    pub generic_name: Option<Seq<char>>,
    pub comment: Option<Seq<char>>,
    pub keywords: Seq<Seq<char>>,
    pub exec_line: Seq<char>,
    pub icon: Option<Seq<char>>,
    pub terminal: bool,
    pub categories: Seq<Seq<char>>,
    pub source_rank: u8,
}

impl View for DesktopEntry {
    type V = EntryView;

    open spec fn view(&self) -> EntryView {
        EntryView {
            id: self.id@,
            path: self.path@,
            name: self.name@,
            generic_name: option_view(self.generic_name),
            comment: option_view(self.comment),
            keywords: string_views(self.keywords@),
            exec_line: self.exec_line@,
            icon: option_view(self.icon),
            terminal: self.terminal,
            categories: string_views(self.categories@),
            source_rank: self.source_rank,
        }
    }
}

impl Clone for DesktopEntry {
    fn clone(&self) -> (res: Self)
        ensures
            res@ == self@,
    {
        DesktopEntry {
            id: self.id.clone(),
            path: copy_bytes(self.path.as_slice()),
            name: self.name.clone(),
            generic_name: clone_option(&self.generic_name),
            comment: clone_option(&self.comment),
            keywords: clone_strings(&self.keywords),
            exec_line: self.exec_line.clone(),
            icon: clone_option(&self.icon),
            terminal: self.terminal,
            categories: clone_strings(&self.categories),
            source_rank: self.source_rank,
        }
    }
}

/// The models of a list of entries.
pub open spec fn entry_views(entries: Seq<DesktopEntry>) -> Seq<EntryView> {
    Seq::new(entries.len(), |i: int| entries[i]@)
}

// ---------------------------------------------------------------------------------------------
// Values
// ---------------------------------------------------------------------------------------------

/// The character that a backslash and `ch` stand for.
pub open spec fn escaped(ch: char) -> char {
    if ch == 'n' {
        '\n'
    } else if ch == 't' {
        '\t'
    } else if ch == 'r' {
        '\r'
    } else if ch == 's' {
        ' '
    } else {
        ch
    }
}

/// A value with its escape sequences replaced. A backslash at the end stands for itself.
pub open spec fn unescaped(value: Seq<char>) -> Seq<char>
    decreases value.len(),
{
    if value.len() == 0 {
        seq![]
    } else if value[0] != '\\' {
        seq![value[0]] + unescaped(value.drop_first())
    } else if value.len() == 1 {
        seq!['\\']
    } else {
        seq![escaped(value[1])] + unescaped(value.skip(2))
    }
}

/// A value with its escape sequences replaced.
pub fn unescape_value(value: &[char]) -> (res: String)
    ensures
        res@ == unescaped(value@),
{
    let mut out: String = String::new();
    let mut i: usize = 0;
    assert(out@ + unescaped(value@.skip(0)) =~= unescaped(value@)) by {
        assert(value@.skip(0) =~= value@);
    }
    while i < value.len()
        invariant
            i <= value@.len(),
            out@ + unescaped(value@.skip(i as int)) == unescaped(value@),
        decreases value@.len() - i,
    {
        let ghost rest = value@.skip(i as int);
        let ghost before = out@;
        let ch: char = value[i];
        if ch != '\\' {
            out.push(ch);
            i += 1;
            assert(rest.drop_first() =~= value@.skip(i as int));
        } else if i + 1 < value.len() {
            let next: char = value[i + 1];
            let plain: char = match next {
                'n' => '\n',
                't' => '\t',
                'r' => '\r',
                's' => ' ',
                other => other,
            };
            out.push(plain);
            i += 2;
            assert(rest.skip(2) =~= value@.skip(i as int));
        } else {
            out.push('\\');
            i += 1;
            assert(value@.skip(i as int) =~= seq![]);
        }
        assert(out@ + unescaped(value@.skip(i as int)) =~= before + unescaped(rest));
    }
    assert(value@.skip(i as int) =~= seq![]);
    assert(out@ + unescaped(value@.skip(i as int)) =~= out@);
    out
}

/// The non-empty items among some texts, without the white space around them.
pub open spec fn proper_items(parts: Seq<Seq<char>>) -> Seq<Seq<char>>
    decreases parts.len(),
{
    if parts.len() == 0 {
        seq![]
    } else {
        let before = proper_items(parts.drop_last());
        let item = trimmed(parts.last());
        if item.len() > 0 {
            before.push(item)
        } else {
            before
        }
    }
}

/// The items of a list that are separated by `sep`.
pub open spec fn list_items(value: Seq<char>, sep: char) -> Seq<Seq<char>> {
    proper_items(pieces(value, sep))
}

/// The items of a list that are separated by `sep`.
pub fn split_items(value: &str, sep: char) -> (res: Vec<String>)
    ensures
        string_views(res@) == list_items(value@, sep),
{
    let chars: Vec<char> = to_chars(value);
    let parts: Vec<&[char]> = split(chars.as_slice(), sep);
    let ghost views = slice_views(parts@);
    let mut out: Vec<String> = Vec::new();
    let mut i: usize = 0;
    assert(views.take(0) =~= seq![]);
    assert(string_views(out@) =~= seq![]);
    while i < parts.len()
        invariant
            i <= parts@.len(),
            views == slice_views(parts@),
            string_views(out@) == proper_items(views.take(i as int)),
        decreases parts@.len() - i,
    {
        let ghost before = out@;
        let item = trim(parts[i]);
        proof {
            assert(views.take(i + 1).drop_last() =~= views.take(i as int));
            assert(views.take(i + 1).last() == parts@[i as int]@);
        }
        if item.len() > 0 {
            out.push(from_chars(item));
            assert(string_views(out@) =~= string_views(before).push(item@));
        }
        i += 1;
    }
    assert(views.take(i as int) =~= views);
    out
}

/// The items of a value that may be missing.
pub open spec fn field_items(value: Option<Seq<char>>) -> Seq<Seq<char>> {
    match value {
        Some(value) => list_items(value, ';'),
        None => seq![],
    }
}

/// The items of a list of the desktop file, separated by semicolons.
pub fn split_semicolon_field(value: Option<&String>) -> (res: Vec<String>)
    ensures
        string_views(res@) == field_items(
            match value {
                Some(value) => Some(value@),
                None => None,
            },
        ),
{
    match value {
        Some(value) => split_items(value.as_str(), ';'),
        None => {
            let out: Vec<String> = Vec::new();
            assert(string_views(out@) =~= seq![]);
            out
        },
    }
}

/// Whether a value stands for truth.
pub open spec fn is_true(value: Seq<char>) -> bool {
    equal_ignoring_ascii_case(value, "true"@)
}

/// Whether a value stands for truth: `true`, in any case.
pub fn parse_bool(value: &str) -> (res: bool)
    ensures
        res == is_true(value@),
{
    eq_ignore_ascii_case(value, "true")
}

// ---------------------------------------------------------------------------------------------
// Desktop files
// ---------------------------------------------------------------------------------------------

/// The fields of a desktop file's main section.
pub type Fields = Map<Seq<char>, Seq<char>>;

/// How far a desktop file has been read: whether the line is in the main section, and the fields.
#[verifier::ext_equal]
pub struct Reading {
    pub in_entry: bool,
    pub fields: Fields,
}

/// What a line adds. Comments, other sections and localised keys are left out.
pub open spec fn read_line(before: Reading, raw_line: Seq<char>) -> Reading {
    let line = trimmed(raw_line);
    if line.len() == 0 || line[0] == '#' {
        before
    } else if line[0] == '[' && line.last() == ']' {
        Reading { in_entry: line == "[Desktop Entry]"@, fields: before.fields }
    } else if !before.in_entry {
        before
    } else {
        match split_first(line, '=') {
            Some((key, value)) => if trimmed(key).contains('[') {
                before
            } else {
                Reading {
                    in_entry: true,
                    fields: before.fields.insert(trimmed(key), unescaped(trimmed(value))),
                }
            },
            None => before,
        }
    }
}

/// What some lines hold.
pub open spec fn read_lines(lines: Seq<Seq<char>>) -> Reading
    decreases lines.len(),
{
    if lines.len() == 0 {
        Reading { in_entry: false, fields: Map::empty() }
    } else {
        read_line(read_lines(lines.drop_last()), lines.last())
    }
}

/// The fields of a desktop file. Of two lines with one key the later counts.
pub open spec fn file_fields(text: Seq<char>) -> Fields {
    read_lines(line_views(text)).fields
}

/// The value of a field.
pub open spec fn field(fields: Fields, key: Seq<char>) -> Option<Seq<char>> {
    if fields.contains_key(key) {
        Some(fields[key])
    } else {
        None
    }
}

/// The fields of a desktop file and its path.
#[derive(Debug)]
pub struct RawDesktopEntry {
    pub path: Vec<u8>,
    pub fields: TextTable<String>,
}

fn same_as(chars: &[char], text: &str) -> (res: bool)
    ensures
        res == (chars@ == text@),
{
    let left: String = from_chars(chars);
    let right: String = text.to_owned();
    left == right
}

fn holds_char(text: &[char], ch: char) -> (res: bool)
    ensures
        res == text@.contains(ch),
{
    let at: usize = crate::text::find_char(text, ch);
    proof {
        crate::text::lemma_position(text@, ch);
    }
    at < text.len()
}

/// Reads the text of a desktop file.
pub fn parse_desktop_file(path: Vec<u8>, text: &str) -> (res: RawDesktopEntry)
    ensures
        res.path@ == path@,
        res.fields@ == file_fields(text@),
{
    let chars: Vec<char> = to_chars(text);
    let parts: Vec<&[char]> = lines(chars.as_slice());
    let ghost views = line_views(text@);
    let mut in_entry: bool = false;
    let mut fields: TextTable<String> = TextTable::new();
    let mut i: usize = 0;
    assert(views.take(0) =~= seq![]);
    while i < parts.len()
        invariant
            i <= parts@.len(),
            slice_views(parts@) == views,
            read_lines(views.take(i as int)) == (Reading { in_entry, fields: fields@ }),
        decreases parts@.len() - i,
    {
        let line = trim(parts[i]);
        proof {
            assert(views.take(i + 1).drop_last() =~= views.take(i as int));
            assert(views.take(i + 1).last() == slice_views(parts@)[i as int]);
        }
        i += 1;
        if line.len() == 0 || line[0] == '#' {
            continue;
        }
        if line[0] == '[' && line[line.len() - 1] == ']' {
            in_entry = same_as(line, "[Desktop Entry]");
            continue;
        }
        if !in_entry {
            continue;
        }
        if let Some((key, value)) = split_once(line, '=') {
            let key = trim(key);
            if !holds_char(key, '[') {
                fields.insert(from_chars(key), unescape_value(trim(value)));
            }
        }
    }
    assert(views.take(i as int) =~= views);
    RawDesktopEntry { path, fields }
}

/// The value of a field without the white space around it, if that leaves something.
pub open spec fn proper_field(fields: Fields, key: Seq<char>) -> Option<Seq<char>> {
    match field(fields, key) {
        Some(value) => if trimmed(value).len() > 0 {
            Some(trimmed(value))
        } else {
            None
        },
        None => None,
    }
}

/// The value of a field without the white space around it, if that leaves something.
pub fn optional_field(fields: &TextTable<String>, key: &str) -> (res: Option<String>)
    ensures
        option_view(res) == proper_field(fields@, key@),
{
    match fields.get(key) {
        Some(value) => {
            let chars: Vec<char> = to_chars(value.as_str());
            let part = trim(chars.as_slice());
            if part.len() > 0 {
                Some(from_chars(part))
            } else {
                None
            }
        },
        None => None,
    }
}

/// Whether a desktop is among the current ones, in any case.
pub open spec fn is_current(desktop: Seq<char>, current: Seq<Seq<char>>) -> bool {
    exists|i: int|
        0 <= i < current.len() && equal_ignoring_ascii_case(#[trigger] current[i], desktop)
}

/// Whether one of some desktops is among the current ones.
pub open spec fn any_current(desktops: Seq<Seq<char>>, current: Seq<Seq<char>>) -> bool {
    exists|i: int| 0 <= i < desktops.len() && is_current(#[trigger] desktops[i], current)
}

/// Whether an entry is shown on the current desktops.
pub open spec fn shown(fields: Fields, current: Seq<Seq<char>>) -> bool {
    let only = field_items(field(fields, "OnlyShowIn"@));
    !any_current(field_items(field(fields, "NotShowIn"@)), current) && (only.len() == 0
        || any_current(only, current))
}

/// Whether a desktop is among the current ones, in any case.
pub fn desktop_matches(desktop: &str, current_desktop: &Vec<String>) -> (res: bool)
    ensures
        res == is_current(desktop@, string_views(current_desktop@)),
{
    let ghost current = string_views(current_desktop@);
    let mut i: usize = 0;
    while i < current_desktop.len()
        invariant
            i <= current_desktop@.len(),
            current == string_views(current_desktop@),
            forall|k: int|
                0 <= k < i ==> !equal_ignoring_ascii_case(#[trigger] current[k], desktop@),
        decreases current_desktop@.len() - i,
    {
        assert(current[i as int] == current_desktop@[i as int]@);
        if eq_ignore_ascii_case(current_desktop[i].as_str(), desktop) {
            return true;
        }
        i += 1;
    }
    false
}

fn any_desktop_matches(desktops: &Vec<String>, current_desktop: &Vec<String>) -> (res: bool)
    ensures
        res == any_current(string_views(desktops@), string_views(current_desktop@)),
{
    let ghost views = string_views(desktops@);
    let mut i: usize = 0;
    while i < desktops.len()
        invariant
            i <= desktops@.len(),
            views == string_views(desktops@),
            forall|k: int|
                0 <= k < i ==> !is_current(#[trigger] views[k], string_views(current_desktop@)),
        decreases desktops@.len() - i,
    {
        assert(views[i as int] == desktops@[i as int]@);
        if desktop_matches(desktops[i].as_str(), current_desktop) {
            return true;
        }
        i += 1;
    }
    false
}

/// Whether an entry is shown on the current desktops.
pub fn show_in_current_desktop(
    fields: &TextTable<String>,
    current_desktop: &Vec<String>,
) -> (res: bool)
    ensures
        res == shown(fields@, string_views(current_desktop@)),
{
    let not_show_in: Vec<String> = split_semicolon_field(fields.get("NotShowIn"));
    if any_desktop_matches(&not_show_in, current_desktop) {
        return false;
    }
    let only_show_in: Vec<String> = split_semicolon_field(fields.get("OnlyShowIn"));
    if only_show_in.len() == 0 {
        assert(string_views(only_show_in@).len() == 0);
        return true;
    }
    assert(string_views(only_show_in@).len() > 0);
    any_desktop_matches(&only_show_in, current_desktop)
}

/// The desktops that `XDG_CURRENT_DESKTOP` names.
pub open spec fn named_desktops(value: Option<Seq<char>>) -> Seq<Seq<char>> {
    match value {
        Some(value) => list_items(value, ':'),
        None => seq![],
    }
}

/// The desktops that the value of `XDG_CURRENT_DESKTOP` names, separated by colons.
pub fn current_desktops(value: Option<&str>) -> (res: Vec<String>)
    ensures
        string_views(res@) == named_desktops(
            match value {
                Some(value) => Some(value@),
                None => None,
            },
        ),
{
    match value {
        Some(value) => split_items(value, ':'),
        None => {
            let out: Vec<String> = Vec::new();
            assert(string_views(out@) =~= seq![]);
            out
        },
    }
}

// ---------------------------------------------------------------------------------------------
// Entries
// ---------------------------------------------------------------------------------------------

/// What discovery takes in.
#[derive(Debug, Clone, Copy, Default)]
pub struct DiscoveryOptions {
    /// Keep entries that are marked `NoDisplay`.
    pub include_hidden: bool,
}

/// Whether a field is there and stands for truth.
pub open spec fn flag(fields: Fields, key: Seq<char>) -> bool {
    match field(fields, key) {
        Some(value) => is_true(value),
        None => false,
    }
}

/// The entry of a desktop file, if it is to be listed: an application with a name and a command
/// that is not hidden and is shown on the current desktops.
pub open spec fn entry_of(
    id: Seq<char>,
    path: Seq<u8>,
    fields: Fields,
    source_rank: u8,
    include_hidden: bool,
    current: Seq<Seq<char>>,
) -> Option<EntryView> {
    if field(fields, "Type"@) != Some("Application"@) || flag(fields, "Hidden"@) || (!include_hidden
        && flag(fields, "NoDisplay"@)) || !shown(fields, current) {
        None
    } else {
        match (proper_field(fields, "Name"@), proper_field(fields, "Exec"@)) {
            (Some(name), Some(exec_line)) => Some(
                EntryView {
                    id,
                    path,
                    name,
                    generic_name: proper_field(fields, "GenericName"@),
                    comment: proper_field(fields, "Comment"@),
                    keywords: field_items(field(fields, "Keywords"@)),
                    exec_line,
                    icon: proper_field(fields, "Icon"@),
                    terminal: flag(fields, "Terminal"@),
                    categories: field_items(field(fields, "Categories"@)),
                    source_rank,
                },
            ),
            _ => None,
        }
    }
}

fn is_set(fields: &TextTable<String>, key: &str) -> (res: bool)
    ensures
        res == flag(fields@, key@),
{
    match fields.get(key) {
        Some(value) => parse_bool(value.as_str()),
        None => false,
    }
}

/// The model of an entry that may be missing.
pub open spec fn maybe_entry(entry: Option<DesktopEntry>) -> Option<EntryView> {
    match entry {
        Some(entry) => Some(entry@),
        None => None,
    }
}

impl DesktopEntry {
    /// The entry of a desktop file, if it is to be listed.
    pub fn from_raw(
        id: String,
        raw: RawDesktopEntry,
        source_rank: u8,
        options: &DiscoveryOptions,
        current_desktop: &Vec<String>,
    ) -> (res: Option<Self>)
        ensures
            maybe_entry(res) == entry_of(
                id@,
                raw.path@,
                raw.fields@,
                source_rank,
                options.include_hidden,
                string_views(current_desktop@),
            ),
    {
        let is_application: bool = match raw.fields.get("Type") {
            Some(kind) => {
                let application: String = "Application".to_owned();
                *kind == application
            },
            None => false,
        };
        if !is_application {
            return None;
        }
        if is_set(&raw.fields, "Hidden") {
            return None;
        }
        if !options.include_hidden && is_set(&raw.fields, "NoDisplay") {
            return None;
        }
        if !show_in_current_desktop(&raw.fields, current_desktop) {
            return None;
        }
        let (Some(name), Some(exec_line)) = (
            optional_field(&raw.fields, "Name"),
            optional_field(&raw.fields, "Exec"),
        ) else {
            return None;
        };
        Some(
            DesktopEntry {
                id,
                name,
                generic_name: optional_field(&raw.fields, "GenericName"),
                comment: optional_field(&raw.fields, "Comment"),
                keywords: split_semicolon_field(raw.fields.get("Keywords")),
                exec_line,
                icon: optional_field(&raw.fields, "Icon"),
                terminal: is_set(&raw.fields, "Terminal"),
                categories: split_semicolon_field(raw.fields.get("Categories")),
                source_rank,
                path: raw.path,
            },
        )
    }
}

// ---------------------------------------------------------------------------------------------
// Discovery
// ---------------------------------------------------------------------------------------------

/// A regular file below an applications directory.
#[derive(Debug)]
pub struct FoundFile {
    /// The path below the directory.
    pub relative_path: Vec<u8>,
    /// The whole path.
    pub path: Vec<u8>,
    /// What the file holds; `None` if it cannot be read as text.
    pub text: Option<String>,
}

/// What is found at the path of an applications directory.
#[derive(Debug)]
pub enum ApplicationsDir {
    /// No directory.
    Absent,
    /// A directory that cannot be listed.
    Unreadable,
    /// The regular files below the directory, at any depth and in any order.
    Files(Vec<FoundFile>),
}

/// Why discovery stopped.
#[derive(Debug)]
pub enum DiscoveryError {
    /// The applications directory at this place cannot be listed.
    Directory { index: usize },
    /// The desktop file at this path cannot be read.
    File { path: Vec<u8> },
}

/// The model of a [`FoundFile`].
#[verifier::ext_equal]
pub struct FileView {
    pub relative_path: Seq<u8>,
    pub path: Seq<u8>,
    pub text: Option<Seq<char>>,
}

impl View for FoundFile {
    type V = FileView;

    open spec fn view(&self) -> FileView {
        FileView {
            relative_path: self.relative_path@,
            path: self.path@,
            text: option_view(self.text),
        }
    }
}

/// The models of a list of files.
pub open spec fn file_views(files: Seq<FoundFile>) -> Seq<FileView> {
    Seq::new(files.len(), |i: int| files[i]@)
}

/// The model of an [`ApplicationsDir`].
#[verifier::ext_equal]
pub enum DirView {
    Absent,
    Unreadable,
    Files(Seq<FileView>),
}

impl View for ApplicationsDir {
    type V = DirView;

    open spec fn view(&self) -> DirView {
        match self {
            ApplicationsDir::Absent => DirView::Absent,
            ApplicationsDir::Unreadable => DirView::Unreadable,
            ApplicationsDir::Files(files) => DirView::Files(file_views(files@)),
        }
    }
}

/// The models of a list of directories.
pub open spec fn dir_views(dirs: Seq<ApplicationsDir>) -> Seq<DirView> {
    Seq::new(dirs.len(), |i: int| dirs[i]@)
}

/// The model of a [`DiscoveryError`].
#[verifier::ext_equal]
pub enum ErrorView {
    Directory(int),
    File(Seq<u8>),
}

impl View for DiscoveryError {
    type V = ErrorView;

    open spec fn view(&self) -> ErrorView {
        match self {
            DiscoveryError::Directory { index } => ErrorView::Directory(*index as int),
            DiscoveryError::File { path } => ErrorView::File(path@),
        }
    }
}

/// The bytes of `.desktop`.
pub open spec fn desktop_extension() -> Seq<u8> {
    seq![0x2e, 0x64, 0x65, 0x73, 0x6b, 0x74, 0x6f, 0x70]
}

/// Whether a path is that of a desktop file: its last part is a name and then `.desktop`.
pub open spec fn is_desktop_path(path: Seq<u8>) -> bool {
    path.len() > 8 && path.skip(path.len() - 8) == desktop_extension() && path[path.len() - 9]
        != 0x2f
}

/// Whether a path is that of a desktop file: its last part is a name and then `.desktop`.
pub fn is_desktop_file(path: &[u8]) -> (res: bool)
    ensures
        res == is_desktop_path(path@),
{
    if path.len() <= 8 {
        return false;
    }
    let at: usize = path.len() - 8;
    let res: bool = path[at] == 0x2e && path[at + 1] == 0x64 && path[at + 2] == 0x65 && path[at + 3]
        == 0x73 && path[at + 4] == 0x6b && path[at + 5] == 0x74 && path[at + 6] == 0x6f && path[at
        + 7] == 0x70;
    proof {
        let tail = path@.skip(at as int);
        if res {
            assert(tail =~= desktop_extension());
        } else {
            assert(forall|i: int| 0 <= i < 8 ==> tail[i] == path@[at + i]);
        }
    }
    res && path[at - 1] != 0x2f
}

/// The character that a byte of a path is ordered by: the separator before all others, so that
/// paths are ordered part by part.
pub open spec fn path_rank(byte: u8) -> char {
    if byte == 0x2f {
        '\0'
    } else {
        (byte + 1) as char
    }
}

/// What a file is placed by.
pub open spec fn file_key(file: FileView) -> KeyView {
    KeyView {
        weight: 0,
        rank: 0,
        name: Seq::new(file.relative_path.len(), |i: int| path_rank(file.relative_path[i])),
    }
}

/// The desktop files among some files.
pub open spec fn only_desktop_files(files: Seq<FileView>) -> Seq<FileView>
    decreases files.len(),
{
    if files.len() == 0 {
        seq![]
    } else if is_desktop_path(files.last().relative_path) {
        only_desktop_files(files.drop_last()).push(files.last())
    } else {
        only_desktop_files(files.drop_last())
    }
}

/// The desktop files of a directory in the order of their paths.
pub open spec fn listed_files(files: Seq<FileView>) -> Seq<FileView> {
    let kept = only_desktop_files(files);
    ranked(kept, Seq::new(kept.len(), |i: int| file_key(kept[i])))
}

fn rank_of_path(path: &[u8]) -> (res: Vec<char>)
    ensures
        res@ == Seq::new(path@.len(), |i: int| path_rank(path@[i])),
{
    let mut out: Vec<char> = Vec::new();
    let mut i: usize = 0;
    while i < path.len()
        invariant
            i <= path@.len(),
            out@ == Seq::new(i as nat, |k: int| path_rank(path@[k])),
        decreases path@.len() - i,
    {
        let byte: u8 = path[i];
        let ch: char = if byte == 0x2f {
            '\0'
        } else if byte == 0xff {
            '\u{100}'
        } else {
            (byte + 1) as char
        };
        out.push(ch);
        i += 1;
        assert(out@ =~= Seq::new(i as nat, |k: int| path_rank(path@[k])));
    }
    out
}

/// The desktop files of a directory in the order of their paths.
pub fn desktop_files(files: Vec<FoundFile>) -> (res: Vec<FoundFile>)
    ensures
        file_views(res@) == listed_files(file_views(files@)),
{
    let ghost views = file_views(files@);
    let mut kept: Vec<FoundFile> = Vec::new();
    let mut keys: Vec<RankKey> = Vec::new();
    assert(views.take(0) =~= seq![]);
    assert(file_views(kept@) =~= seq![]);
    for file in iter: files
        invariant
            iter.seq() == files@,
            views == file_views(files@),
            file_views(kept@) == only_desktop_files(views.take(iter.index() as int)),
            key_views(keys@) == Seq::new(kept@.len(), |i: int| file_key(kept@[i]@)),
            keys@.len() == kept@.len(),
    {
        let ghost at = iter.index() as int;
        let ghost before = kept@;
        let ghost keys_before = keys@;
        proof {
            assert(views.take(at + 1).drop_last() =~= views.take(at));
            assert(views.take(at + 1).last() == file@);
        }
        if is_desktop_file(file.relative_path.as_slice()) {
            let key = RankKey {
                weight: 0,
                rank: 0,
                name: rank_of_path(file.relative_path.as_slice()),
            };
            assert(key@ =~= file_key(file@));
            keys.push(key);
            kept.push(file);
            assert(file_views(kept@) =~= file_views(before).push(file@));
            assert(key_views(keys@) =~= key_views(keys_before).push(key@));
            assert(key_views(keys@) =~= Seq::new(kept@.len(), |i: int| file_key(kept@[i]@)));
        }
    }
    assert(views.take(views.len() as int) =~= views);
    let ghost all = kept@;
    let ghost key_seq = key_views(keys@);
    let sorted: Vec<FoundFile> = sort_by_rank(kept, keys);
    proof {
        let chosen = only_desktop_files(views);
        assert(key_seq =~= Seq::new(chosen.len(), |i: int| file_key(chosen[i])));
        lemma_rank_order(key_seq);
        let order = rank_order(key_seq);
        assert forall|i: int| 0 <= i < sorted@.len() implies (#[trigger] sorted@[i])@ == listed_files(
            views,
        )[i] by {
            assert(0 <= order[i] < key_seq.len());
            assert(sorted@[i] == all[order[i]]);
        }
        assert(file_views(sorted@) =~= listed_files(views));
    }
    sorted
}

/// A text with `-` for `/`.
pub open spec fn dashed(text: Seq<char>) -> Seq<char> {
    text.map_values(
        |ch: char|
            if ch == '/' {
                '-'
            } else {
                ch
            },
    )
}

/// The id of a desktop file: its path below the directory, with `-` for `/`.
pub open spec fn id_of(relative_path: Seq<u8>) -> Seq<char> {
    dashed(lossy_text(relative_path))
}

/// The id of a desktop file: its path below the directory, with `-` for `/`.
pub fn desktop_id(relative_path: &[u8]) -> (res: String)
    ensures
        res@ == id_of(relative_path@),
        valid_utf8(relative_path@) ==> res@ == dashed(decode_utf8(relative_path@)),
{
    let text: String = from_utf8_lossy(relative_path);
    let chars: Vec<char> = to_chars(text.as_str());
    let mut out: String = String::new();
    let mut i: usize = 0;
    while i < chars.len()
        invariant
            i <= chars@.len(),
            chars@ == lossy_text(relative_path@),
            out@ == id_of(relative_path@).take(i as int),
        decreases chars@.len() - i,
    {
        let ghost before = out@;
        let ch: char = chars[i];
        out.push(
            if ch == '/' {
                '-'
            } else {
                ch
            },
        );
        i += 1;
        assert(out@ =~= id_of(relative_path@).take(i as int));
    }
    assert(out@ =~= id_of(relative_path@));
    out
}

/// What discovery has come to: the ids met and the entries kept.
#[verifier::ext_equal]
pub struct Discovered {
    pub seen: Seq<Seq<char>>,
    pub entries: Seq<EntryView>,
}

/// What discovery goes by.
pub struct Terms {
    pub include_hidden: bool,
    pub current: Seq<Seq<char>>,
}

/// Discovery after one more file. A file whose id was met before is passed over.
pub open spec fn after_file(
    before: Discovered,
    file: FileView,
    source_rank: u8,
    terms: Terms,
) -> Result<Discovered, ErrorView> {
    let id = id_of(file.relative_path);
    if before.seen.contains(id) {
        Ok(before)
    } else {
        match file.text {
            Some(text) => Ok(
                Discovered {
                    seen: before.seen.push(id),
                    entries: match entry_of(
                        id,
                        file.path,
                        file_fields(text),
                        source_rank,
                        terms.include_hidden,
                        terms.current,
                    ) {
                        Some(entry) => before.entries.push(entry),
                        None => before.entries,
                    },
                },
            ),
            None => Err(ErrorView::File(file.path)),
        }
    }
}

/// Discovery after some files, up to the first that is needed and cannot be read.
pub open spec fn after_files(
    before: Discovered,
    files: Seq<FileView>,
    source_rank: u8,
    terms: Terms,
) -> Result<Discovered, ErrorView>
    decreases files.len(),
{
    if files.len() == 0 {
        Ok(before)
    } else {
        match after_files(before, files.drop_last(), source_rank, terms) {
            Ok(reached) => after_file(reached, files.last(), source_rank, terms),
            Err(error) => Err(error),
        }
    }
}

/// The rank of the directory at a place.
pub open spec fn rank_at(index: int) -> u8 {
    if index < 255 {
        index as u8
    } else {
        255
    }
}

/// Discovery after some directories, up to the first that cannot be read.
pub open spec fn after_dirs(dirs: Seq<DirView>, terms: Terms) -> Result<Discovered, ErrorView>
    decreases dirs.len(),
{
    if dirs.len() == 0 {
        Ok(Discovered { seen: seq![], entries: seq![] })
    } else {
        match after_dirs(dirs.drop_last(), terms) {
            Ok(reached) => match dirs.last() {
                DirView::Absent => Ok(reached),
                DirView::Unreadable => Err(ErrorView::Directory(dirs.len() - 1)),
                DirView::Files(files) => after_files(
                    reached,
                    listed_files(files),
                    rank_at(dirs.len() - 1),
                    terms,
                ),
            },
            Err(error) => Err(error),
        }
    }
}

/// What an entry is placed by.
pub open spec fn entry_key(entry: EntryView) -> KeyView {
    KeyView { weight: 0, rank: 0, name: lowercase(entry.name) }
}

/// Entries in the order of their lowercase names; of equal ones the one found first comes first.
pub open spec fn by_name(entries: Seq<EntryView>) -> Seq<EntryView> {
    ranked(entries, Seq::new(entries.len(), |i: int| entry_key(entries[i])))
}

/// The entries of some directories, or why there are none.
pub open spec fn discovered(dirs: Seq<DirView>, terms: Terms) -> Result<Seq<EntryView>, ErrorView> {
    match after_dirs(dirs, terms) {
        Ok(reached) => Ok(by_name(reached.entries)),
        Err(error) => Err(error),
    }
}

/// The model of what discovery returns.
pub open spec fn discovery_view(
    res: Result<Vec<DesktopEntry>, DiscoveryError>,
) -> Result<Seq<EntryView>, ErrorView> {
    match res {
        Ok(entries) => Ok(entry_views(entries@)),
        Err(error) => Err(error@),
    }
}

/// What stops discovery at some files stops it however many follow.
proof fn lemma_files_stop(
    before: Discovered,
    files: Seq<FileView>,
    count: int,
    source_rank: u8,
    terms: Terms,
)
    requires
        0 <= count <= files.len(),
        after_files(before, files.take(count), source_rank, terms) is Err,
    ensures
        after_files(before, files, source_rank, terms) == after_files(
            before,
            files.take(count),
            source_rank,
            terms,
        ),
    decreases files.len(),
{
    if count == files.len() {
        assert(files.take(count) =~= files);
    } else {
        assert(files.drop_last().take(count) =~= files.take(count));
        lemma_files_stop(before, files.drop_last(), count, source_rank, terms);
    }
}

/// What stops discovery at some directories stops it however many follow.
proof fn lemma_dirs_stop(dirs: Seq<DirView>, count: int, terms: Terms)
    requires
        0 <= count <= dirs.len(),
        after_dirs(dirs.take(count), terms) is Err,
    ensures
        after_dirs(dirs, terms) == after_dirs(dirs.take(count), terms),
    decreases dirs.len(),
{
    if count == dirs.len() {
        assert(dirs.take(count) =~= dirs);
    } else {
        assert(dirs.drop_last().take(count) =~= dirs.take(count));
        lemma_dirs_stop(dirs.drop_last(), count, terms);
    }
}

fn holds_text(texts: &Vec<String>, text: &String) -> (res: bool)
    ensures
        res == string_views(texts@).contains(text@),
{
    let ghost views = string_views(texts@);
    let mut i: usize = 0;
    while i < texts.len()
        invariant
            i <= texts@.len(),
            views == string_views(texts@),
            forall|k: int| 0 <= k < i ==> #[trigger] views[k] != text@,
        decreases texts@.len() - i,
    {
        assert(views[i as int] == texts@[i as int]@);
        if texts[i] == *text {
            assert(views.contains(text@));
            return true;
        }
        i += 1;
    }
    assert(!views.contains(text@));
    false
}

fn sort_by_name(entries: Vec<DesktopEntry>) -> (res: Vec<DesktopEntry>)
    ensures
        entry_views(res@) == by_name(entry_views(entries@)),
{
    let ghost views = entry_views(entries@);
    let mut keys: Vec<RankKey> = Vec::new();
    let mut i: usize = 0;
    while i < entries.len()
        invariant
            i <= entries@.len(),
            views == entry_views(entries@),
            key_views(keys@) == Seq::new(i as nat, |k: int| entry_key(views[k])),
            keys@.len() == i,
        decreases entries@.len() - i,
    {
        let ghost before = keys@;
        let lower: String = str_to_lowercase(entries[i].name.as_str());
        let key = RankKey { weight: 0, rank: 0, name: to_chars(lower.as_str()) };
        assert(key@ =~= entry_key(views[i as int]));
        keys.push(key);
        i += 1;
        assert(key_views(keys@) =~= key_views(before).push(key@));
        assert(key_views(keys@) =~= Seq::new(i as nat, |k: int| entry_key(views[k])));
    }
    let ghost key_seq = key_views(keys@);
    let sorted: Vec<DesktopEntry> = sort_by_rank(entries, keys);
    proof {
        assert(key_seq =~= Seq::new(views.len(), |k: int| entry_key(views[k])));
        lemma_rank_order(key_seq);
        let order = rank_order(key_seq);
        assert forall|k: int| 0 <= k < sorted@.len() implies (#[trigger] sorted@[k])@ == by_name(
            views,
        )[k] by {
            assert(0 <= order[k] < key_seq.len());
            assert(sorted@[k] == entries@[order[k]]);
        }
        assert(entry_views(sorted@) =~= by_name(views));
    }
    sorted
}

/// The entries of some applications directories, the most important first, by name. An id that an
/// earlier directory has hides the later files with that id, also where the earlier file gives no
/// entry.
pub fn discover_desktop_entries_in_dirs(
    application_dirs: Vec<ApplicationsDir>,
    options: &DiscoveryOptions,
    current_desktop: &Vec<String>,
) -> (res: Result<Vec<DesktopEntry>, DiscoveryError>)
    ensures
        discovery_view(res) == discovered(
            dir_views(application_dirs@),
            Terms {
                include_hidden: options.include_hidden,
                current: string_views(current_desktop@),
            },
        ),
{
    let ghost views = dir_views(application_dirs@);
    let ghost terms = Terms {
        include_hidden: options.include_hidden,
        current: string_views(current_desktop@),
    };
    let mut entries: Vec<DesktopEntry> = Vec::new();
    let mut seen: Vec<String> = Vec::new();
    let mut index: usize = 0;
    let count: usize = application_dirs.len();
    assert(views.take(0) =~= seq![]);
    assert(string_views(seen@) =~= seq![]);
    assert(entry_views(entries@) =~= seq![]);
    for dir in iter: application_dirs
        invariant
            iter.seq() == application_dirs@,
            views == dir_views(application_dirs@),
            terms == (Terms {
                include_hidden: options.include_hidden,
                current: string_views(current_desktop@),
            }),
            index == iter.index(),
            count == application_dirs@.len(),
            after_dirs(views.take(index as int), terms) == Ok::<Discovered, ErrorView>(
                Discovered { seen: string_views(seen@), entries: entry_views(entries@) },
            ),
    {
        let source_rank: u8 = if index < 255 {
            index as u8
        } else {
            255
        };
        let ghost reached = Discovered {
            seen: string_views(seen@),
            entries: entry_views(entries@),
        };
        proof {
            assert(views.take(index + 1).drop_last() =~= views.take(index as int));
            assert(views.take(index + 1).last() == dir@);
        }
        match dir {
            ApplicationsDir::Absent => {},
            ApplicationsDir::Unreadable => {
                proof {
                    lemma_dirs_stop(views, index + 1, terms);
                }
                return Err(DiscoveryError::Directory { index });
            },
            ApplicationsDir::Files(found) => {
                let listed: Vec<FoundFile> = desktop_files(found);
                let ghost files = file_views(listed@);
                let ghost all = listed@;
                assert(files.take(0) =~= seq![]);
                for file in inner: listed
                    invariant
                        inner.seq() == all,
                        files == file_views(all),
                        files.len() == all.len(),
                        files == listed_files(file_views(found@)),
                        views == dir_views(application_dirs@),
                        index < views.len(),
                        views[index as int] == DirView::Files(file_views(found@)),
                        views.take(index + 1).drop_last() == views.take(index as int),
                        after_dirs(views.take(index as int), terms) == Ok::<Discovered, ErrorView>(
                            reached,
                        ),
                        source_rank == rank_at(index as int),
                        terms == (Terms {
                            include_hidden: options.include_hidden,
                            current: string_views(current_desktop@),
                        }),
                        after_files(reached, files.take(inner.index() as int), source_rank, terms)
                            == Ok::<Discovered, ErrorView>(
                            Discovered { seen: string_views(seen@), entries: entry_views(entries@) },
                        ),
                {
                    let ghost at = inner.index() as int;
                    let ghost seen_before = seen@;
                    let ghost entries_before = entries@;
                    proof {
                        assert(files.take(at + 1).drop_last() =~= files.take(at));
                        assert(files.take(at + 1).last() == file@);
                    }
                    let id: String = desktop_id(file.relative_path.as_slice());
                    if !holds_text(&seen, &id) {
                        seen.push(id.clone());
                        assert(string_views(seen@) =~= string_views(seen_before).push(id@));
                        match file.text {
                            Some(text) => {
                                let raw: RawDesktopEntry = parse_desktop_file(
                                    file.path,
                                    text.as_str(),
                                );
                                if let Some(entry) = DesktopEntry::from_raw(
                                    id,
                                    raw,
                                    source_rank,
                                    options,
                                    current_desktop,
                                ) {
                                    let ghost view = entry@;
                                    entries.push(entry);
                                    assert(entry_views(entries@) =~= entry_views(
                                        entries_before,
                                    ).push(view));
                                }
                            },
                            None => {
                                proof {
                                    lemma_files_stop(reached, files, at + 1, source_rank, terms);
                                    lemma_dirs_stop(views, index + 1, terms);
                                }
                                return Err(DiscoveryError::File { path: file.path });
                            },
                        }
                    }
                }
                assert(files.take(files.len() as int) =~= files);
            },
        }
        index += 1;
    }
    assert(views.take(views.len() as int) =~= views);
    Ok(sort_by_name(entries))
}

/// The entries of the applications directories for the desktops that the value of
/// `XDG_CURRENT_DESKTOP` names.
pub fn discover_desktop_entries(
    application_dirs: Vec<ApplicationsDir>,
    options: &DiscoveryOptions,
    xdg_current_desktop: Option<&str>,
) -> (res: Result<Vec<DesktopEntry>, DiscoveryError>)
    ensures
        discovery_view(res) == discovered(
            dir_views(application_dirs@),
            Terms {
                include_hidden: options.include_hidden,
                current: named_desktops(
                    match xdg_current_desktop {
                        Some(value) => Some(value@),
                        None => None,
                    },
                ),
            },
        ),
{
    let current: Vec<String> = current_desktops(xdg_current_desktop);
    discover_desktop_entries_in_dirs(application_dirs, options, &current)
}

// ---------------------------------------------------------------------------------------------
// What holds of discovery
// ---------------------------------------------------------------------------------------------

/// A value without a backslash stands for itself.
pub proof fn lemma_unescaped_plain(value: Seq<char>)
    requires
        !value.contains('\\'),
    ensures
        unescaped(value) == value,
    decreases value.len(),
{
    if value.len() > 0 {
        assert(value[0] != '\\');
        let rest = value.drop_first();
        assert forall|i: int| 0 <= i < rest.len() implies rest[i] != '\\' by {
            assert(value[i + 1] == rest[i]);
        }
        lemma_unescaped_plain(rest);
        assert(seq![value[0]] + rest =~= value);
    } else {
        assert(unescaped(value) =~= value);
    }
}

/// A text that is not empty and has no white space around it.
pub open spec fn proper_text(text: Seq<char>) -> bool {
    text.len() > 0 && is_trimmed(text)
}

/// Texts that are not empty and have no white space around them.
pub open spec fn proper_texts(texts: Seq<Seq<char>>) -> bool {
    forall|i: int| 0 <= i < texts.len() ==> proper_text(#[trigger] texts[i])
}

/// An entry with a name and a command, in which no text is empty or has white space around it.
pub open spec fn proper_entry(entry: EntryView) -> bool {
    &&& proper_text(entry.name)
    &&& proper_text(entry.exec_line)
    &&& entry.generic_name is Some ==> proper_text(entry.generic_name->0)
    &&& entry.comment is Some ==> proper_text(entry.comment->0)
    &&& entry.icon is Some ==> proper_text(entry.icon->0)
    &&& proper_texts(entry.keywords)
    &&& proper_texts(entry.categories)
}

proof fn lemma_proper_items(parts: Seq<Seq<char>>)
    ensures
        proper_texts(proper_items(parts)),
    decreases parts.len(),
{
    if parts.len() > 0 {
        lemma_proper_items(parts.drop_last());
        lemma_trimmed(parts.last());
    }
}

/// The items of a list are not empty and have no white space around them.
pub proof fn lemma_list_items(value: Seq<char>, sep: char)
    ensures
        proper_texts(list_items(value, sep)),
{
    lemma_proper_items(pieces(value, sep));
}

proof fn lemma_proper_field(fields: Fields, key: Seq<char>)
    ensures
        proper_field(fields, key) is Some ==> proper_text(proper_field(fields, key)->0),
{
    if fields.contains_key(key) {
        lemma_trimmed(fields[key]);
    }
}

/// Whatever a desktop file holds, its entry is proper; a file marked `Hidden` gives none, and one
/// marked `NoDisplay` gives one only where hidden entries are kept.
pub proof fn lemma_entry_of(
    id: Seq<char>,
    path: Seq<u8>,
    fields: Fields,
    source_rank: u8,
    include_hidden: bool,
    current: Seq<Seq<char>>,
)
    ensures
        entry_of(id, path, fields, source_rank, include_hidden, current) matches Some(entry)
            ==> proper_entry(entry) && entry.id == id && entry.path == path && entry.source_rank
            == source_rank && !flag(fields, "Hidden"@) && (flag(fields, "NoDisplay"@)
            ==> include_hidden),
{
    lemma_proper_field(fields, "Name"@);
    lemma_proper_field(fields, "Exec"@);
    lemma_proper_field(fields, "GenericName"@);
    lemma_proper_field(fields, "Comment"@);
    lemma_proper_field(fields, "Icon"@);
    if fields.contains_key("Keywords"@) {
        lemma_list_items(fields["Keywords"@], ';');
    }
    if fields.contains_key("Categories"@) {
        lemma_list_items(fields["Categories"@], ';');
    }
}

/// To keep hidden entries changes nothing about the entries that are kept anyway.
pub proof fn lemma_include_hidden(
    id: Seq<char>,
    path: Seq<u8>,
    fields: Fields,
    source_rank: u8,
    current: Seq<Seq<char>>,
)
    requires
        entry_of(id, path, fields, source_rank, false, current) is Some,
    ensures
        entry_of(id, path, fields, source_rank, true, current) == entry_of(
            id,
            path,
            fields,
            source_rank,
            false,
            current,
        ),
{
}

/// The keys of a desktop file are not localised and have no white space around them.
pub proof fn lemma_file_fields(text: Seq<char>, key: Seq<char>)
    requires
        file_fields(text).contains_key(key),
    ensures
        !key.contains('['),
        is_trimmed(key),
{
    lemma_read_lines(line_views(text), key);
}

proof fn lemma_read_lines(lines: Seq<Seq<char>>, key: Seq<char>)
    requires
        read_lines(lines).fields.contains_key(key),
    ensures
        !key.contains('['),
        is_trimmed(key),
    decreases lines.len(),
{
    let before = read_lines(lines.drop_last());
    if before.fields.contains_key(key) {
        lemma_read_lines(lines.drop_last(), key);
    } else {
        let line = trimmed(lines.last());
        let (name, value) = split_first(line, '=')->0;
        lemma_trimmed(name);
    }
}

proof fn lemma_only_desktop_files(files: Seq<FileView>)
    ensures
        forall|i: int|
            0 <= i < only_desktop_files(files).len() ==> is_desktop_path(
                (#[trigger] only_desktop_files(files)[i]).relative_path,
            ) && files.contains(only_desktop_files(files)[i]),
        forall|f: int|
            0 <= f < files.len() && is_desktop_path((#[trigger] files[f]).relative_path)
                ==> only_desktop_files(files).contains(files[f]),
    decreases files.len(),
{
    if files.len() > 0 {
        let head = files.drop_last();
        lemma_only_desktop_files(head);
        let kept = only_desktop_files(files);
        let before = only_desktop_files(head);
        assert forall|i: int| 0 <= i < kept.len() implies is_desktop_path(
            (#[trigger] kept[i]).relative_path,
        ) && files.contains(kept[i]) by {
            if i < before.len() {
                assert(kept[i] == before[i]);
                let f = choose|f: int| 0 <= f < head.len() && head[f] == before[i];
                assert(files[f] == kept[i]);
            } else {
                assert(files[files.len() - 1] == kept[i]);
            }
        }
        assert forall|f: int|
            0 <= f < files.len() && is_desktop_path(
                (#[trigger] files[f]).relative_path,
            ) implies kept.contains(files[f]) by {
            if f < head.len() {
                assert(head[f] == files[f]);
                let i = choose|i: int| 0 <= i < before.len() && before[i] == head[f];
                assert(kept[i] == files[f]);
            } else {
                assert(kept[kept.len() - 1] == files[f]);
            }
        }
    }
}

/// The files that are listed are the desktop files of the directory.
pub proof fn lemma_listed_files(files: Seq<FileView>, file: FileView)
    ensures
        listed_files(files).contains(file) <==> files.contains(file) && is_desktop_path(
            file.relative_path,
        ),
{
    let kept = only_desktop_files(files);
    let keys = Seq::new(kept.len(), |i: int| file_key(kept[i]));
    lemma_only_desktop_files(files);
    lemma_ranked(kept, keys);
    let listed = listed_files(files);
    let order = rank_order(keys);
    if listed.contains(file) {
        let i = choose|i: int| 0 <= i < listed.len() && listed[i] == file;
        assert(kept[order[i]] == file);
        assert(files.contains(kept[order[i]]));
    }
    if files.contains(file) && is_desktop_path(file.relative_path) {
        let f = choose|f: int| 0 <= f < files.len() && files[f] == file;
        assert(kept.contains(files[f]));
        let p = choose|p: int| 0 <= p < kept.len() && kept[p] == file;
        assert(order.contains(p));
        let i = choose|i: int| 0 <= i < order.len() && order[i] == p;
        assert(listed[i] == file);
    }
}

/// Whether a directory has a desktop file with an id.
pub open spec fn has_id(dir: DirView, id: Seq<char>) -> bool {
    dir matches DirView::Files(files) && exists|f: int|
        0 <= f < files.len() && is_desktop_path((#[trigger] files[f]).relative_path) && id_of(
            files[f].relative_path,
        ) == id
}

/// Whether a file is a desktop file of a directory.
pub open spec fn has_file(dir: DirView, file: FileView) -> bool {
    dir matches DirView::Files(files) && files.contains(file) && is_desktop_path(
        file.relative_path,
    )
}

/// The entry of a file in the directory at a place.
pub open spec fn entry_of_file(file: FileView, index: int, terms: Terms) -> Option<EntryView> {
    match file.text {
        Some(text) => entry_of(
            id_of(file.relative_path),
            file.path,
            file_fields(text),
            rank_at(index),
            terms.include_hidden,
            terms.current,
        ),
        None => None,
    }
}

/// Whether an entry is that of a desktop file in the directory at a place, and no directory before
/// it has a file with the same id.
pub open spec fn stands_first(entry: EntryView, dirs: Seq<DirView>, index: int, terms: Terms) -> bool {
    &&& 0 <= index < dirs.len()
    &&& exists|file: FileView| #[trigger]
        has_file(dirs[index], file) && entry_of_file(file, index, terms) == Some(entry)
    &&& forall|k: int| 0 <= k < index ==> !has_id(#[trigger] dirs[k], entry.id)
}

/// Whether an entry is that of a desktop file in the first directory that has a file with its id.
pub open spec fn comes_first(entry: EntryView, dirs: Seq<DirView>, terms: Terms) -> bool {
    exists|index: int| #[trigger] stands_first(entry, dirs, index, terms)
}

/// Whether what discovery has come to is what some directories give.
spec fn faithful(reached: Discovered, dirs: Seq<DirView>, terms: Terms) -> bool {
    &&& forall|id: Seq<char>| #[trigger]
        reached.seen.contains(id) <==> exists|k: int| 0 <= k < dirs.len() && has_id(#[trigger] dirs[k], id)
    &&& forall|i: int, j: int|
        0 <= i < j < reached.entries.len() ==> (#[trigger] reached.entries[i]).id != (
        #[trigger] reached.entries[j]).id
    &&& forall|i: int|
        0 <= i < reached.entries.len() ==> comes_first(#[trigger] reached.entries[i], dirs, terms)
}

/// Whether what discovery has come to is what some directories and some of the files of one more
/// give.
spec fn partly_faithful(
    reached: Discovered,
    dirs: Seq<DirView>,
    files: Seq<FileView>,
    terms: Terms,
) -> bool {
    &&& forall|id: Seq<char>| #[trigger]
        reached.seen.contains(id) <==> (exists|k: int|
            0 <= k < dirs.len() && has_id(#[trigger] dirs[k], id)) || exists|f: int|
            0 <= f < files.len() && id_of((#[trigger] files[f]).relative_path) == id
    &&& forall|i: int, j: int|
        0 <= i < j < reached.entries.len() ==> (#[trigger] reached.entries[i]).id != (
        #[trigger] reached.entries[j]).id
    &&& forall|i: int|
        0 <= i < reached.entries.len() ==> reached.seen.contains(
            (#[trigger] reached.entries[i]).id,
        ) && (comes_first(reached.entries[i], dirs, terms) || exists|f: int|
            0 <= f < files.len() && entry_of_file(#[trigger] files[f], dirs.len() as int, terms)
                == Some(reached.entries[i]) && forall|k: int|
                0 <= k < dirs.len() ==> !has_id(#[trigger] dirs[k], reached.entries[i].id))
}

proof fn lemma_after_files(before: Discovered, dirs: Seq<DirView>, files: Seq<FileView>, terms: Terms)
    requires
        faithful(before, dirs, terms),
        forall|i: int|
            0 <= i < before.entries.len() ==> before.seen.contains(
                (#[trigger] before.entries[i]).id,
            ),
        after_files(before, files, rank_at(dirs.len() as int), terms) is Ok,
    ensures
        partly_faithful(
            after_files(before, files, rank_at(dirs.len() as int), terms)->Ok_0,
            dirs,
            files,
            terms,
        ),
    decreases files.len(),
{
    let rank = rank_at(dirs.len() as int);
    if files.len() > 0 {
        let head = files.drop_last();
        lemma_after_files(before, dirs, head, terms);
        let reached = after_files(before, head, rank, terms)->Ok_0;
        let next = after_files(before, files, rank, terms)->Ok_0;
        let file = files.last();
        let id = id_of(file.relative_path);
        assert(files[files.len() - 1] == file);
        assert forall|f: int| 0 <= f < head.len() implies #[trigger] head[f] == files[f] by {}
        assert forall|other: Seq<char>| #[trigger] next.seen.contains(other) <==> reached.seen.contains(
            other,
        ) || other == id by {
            if next.seen.len() > reached.seen.len() {
                assert(next.seen[reached.seen.len() as int] == id);
                if reached.seen.contains(other) {
                    let i = choose|i: int|
                        0 <= i < reached.seen.len() && reached.seen[i] == other;
                    assert(next.seen[i] == other);
                }
            }
        }
        assert forall|other: Seq<char>| #[trigger] next.seen.contains(other) implies (exists|k: int|
            0 <= k < dirs.len() && has_id(#[trigger] dirs[k], other)) || exists|f: int|
            0 <= f < files.len() && id_of((#[trigger] files[f]).relative_path) == other by {
            if other != id {
                assert(reached.seen.contains(other));
                if !(exists|k: int| 0 <= k < dirs.len() && has_id(#[trigger] dirs[k], other)) {
                    let f = choose|f: int|
                        0 <= f < head.len() && id_of((#[trigger] head[f]).relative_path) == other;
                    assert(files[f] == head[f]);
                }
            }
        }
        assert forall|other: Seq<char>|
            (exists|k: int| 0 <= k < dirs.len() && has_id(#[trigger] dirs[k], other)) || (exists|
                f: int,
            |
                0 <= f < files.len() && id_of((#[trigger] files[f]).relative_path)
                    == other) implies #[trigger] next.seen.contains(other) by {
            if exists|k: int| 0 <= k < dirs.len() && has_id(#[trigger] dirs[k], other) {
                assert(reached.seen.contains(other));
            } else {
                let f = choose|f: int|
                    0 <= f < files.len() && id_of((#[trigger] files[f]).relative_path) == other;
                if f < head.len() {
                    assert(head[f] == files[f]);
                    assert(reached.seen.contains(other));
                }
            }
        }
        lemma_entry_of(
            id,
            file.path,
            file_fields(file.text->0),
            rank,
            terms.include_hidden,
            terms.current,
        );
        assert forall|i: int| 0 <= i < next.entries.len() implies next.seen.contains(
            (#[trigger] next.entries[i]).id,
        ) && (comes_first(next.entries[i], dirs, terms) || exists|f: int|
            0 <= f < files.len() && entry_of_file(#[trigger] files[f], dirs.len() as int, terms)
                == Some(next.entries[i]) && forall|k: int|
                0 <= k < dirs.len() ==> !has_id(#[trigger] dirs[k], next.entries[i].id)) by {
            if i < reached.entries.len() {
                assert(next.entries[i] == reached.entries[i]);
                if !comes_first(next.entries[i], dirs, terms) {
                    let f = choose|f: int|
                        0 <= f < head.len() && entry_of_file(
                            #[trigger] head[f],
                            dirs.len() as int,
                            terms,
                        ) == Some(reached.entries[i]) && forall|k: int|
                            0 <= k < dirs.len() ==> !has_id(
                                #[trigger] dirs[k],
                                reached.entries[i].id,
                            );
                    assert(files[f] == head[f]);
                }
            } else {
                assert(next.entries[i].id == id);
                assert(!reached.seen.contains(id));
                assert(entry_of_file(files[files.len() - 1], dirs.len() as int, terms) == Some(
                    next.entries[i],
                ));
            }
        }
    } else {
        let reached = before;
        assert forall|i: int| 0 <= i < reached.entries.len() implies comes_first(
            #[trigger] reached.entries[i],
            dirs,
            terms,
        ) by {}
    }
}

proof fn lemma_comes_first_grows(entry: EntryView, dirs: Seq<DirView>, dir: DirView, terms: Terms)
    requires
        comes_first(entry, dirs, terms),
    ensures
        comes_first(entry, dirs.push(dir), terms),
{
    let index = choose|index: int| #[trigger] stands_first(entry, dirs, index, terms);
    let next = dirs.push(dir);
    assert(next[index] == dirs[index]);
    assert forall|k: int| 0 <= k < index implies !has_id(#[trigger] next[k], entry.id) by {
        assert(next[k] == dirs[k]);
    }
    assert(stands_first(entry, next, index, terms));
}

proof fn lemma_entry_seen(reached: Discovered, dirs: Seq<DirView>, terms: Terms, i: int)
    requires
        faithful(reached, dirs, terms),
        0 <= i < reached.entries.len(),
    ensures
        reached.seen.contains(reached.entries[i].id),
{
    let entry = reached.entries[i];
    let index = choose|index: int| #[trigger] stands_first(entry, dirs, index, terms);
    let file = choose|file: FileView| #[trigger]
        has_file(dirs[index], file) && entry_of_file(file, index, terms) == Some(entry);
    lemma_entry_of(
        id_of(file.relative_path),
        file.path,
        file_fields(file.text->0),
        rank_at(index),
        terms.include_hidden,
        terms.current,
    );
    let files = dirs[index]->Files_0;
    let f = choose|f: int| 0 <= f < files.len() && files[f] == file;
    assert(is_desktop_path(files[f].relative_path));
    assert(has_id(dirs[index], entry.id));
}

proof fn lemma_after_dirs(dirs: Seq<DirView>, terms: Terms)
    requires
        after_dirs(dirs, terms) is Ok,
    ensures
        faithful(after_dirs(dirs, terms)->Ok_0, dirs, terms),
    decreases dirs.len(),
{
    if dirs.len() > 0 {
        let head = dirs.drop_last();
        let dir = dirs.last();
        lemma_after_dirs(head, terms);
        let reached = after_dirs(head, terms)->Ok_0;
        let next = after_dirs(dirs, terms)->Ok_0;
        assert(head.push(dir) =~= dirs);
        let listed = match dir {
            DirView::Files(files) => listed_files(files),
            _ => seq![],
        };
        assert forall|i: int| 0 <= i < reached.entries.len() implies reached.seen.contains(
            (#[trigger] reached.entries[i]).id,
        ) by {
            lemma_entry_seen(reached, head, terms, i);
        }
        assert(next == after_files(reached, listed, rank_at(head.len() as int), terms)->Ok_0);
        lemma_after_files(reached, head, listed, terms);
        assert forall|id: Seq<char>| has_id(dir, id) <==> exists|f: int|
            0 <= f < listed.len() && id_of((#[trigger] listed[f]).relative_path) == id by {
            if dir is Files {
                let files = dir->Files_0;
                if has_id(dir, id) {
                    let f = choose|f: int|
                        0 <= f < files.len() && is_desktop_path(
                            (#[trigger] files[f]).relative_path,
                        ) && id_of(files[f].relative_path) == id;
                    lemma_listed_files(files, files[f]);
                    assert(files.contains(files[f]));
                    let g = choose|g: int| 0 <= g < listed.len() && listed[g] == files[f];
                    assert(id_of(listed[g].relative_path) == id);
                }
                if exists|f: int|
                    0 <= f < listed.len() && id_of((#[trigger] listed[f]).relative_path) == id {
                    let g = choose|g: int|
                        0 <= g < listed.len() && id_of((#[trigger] listed[g]).relative_path) == id;
                    lemma_listed_files(files, listed[g]);
                    assert(listed.contains(listed[g]));
                    let f = choose|f: int| 0 <= f < files.len() && files[f] == listed[g];
                    assert(is_desktop_path(files[f].relative_path));
                }
            }
        }
        assert forall|id: Seq<char>| #[trigger] next.seen.contains(id) <==> exists|k: int|
            0 <= k < dirs.len() && has_id(#[trigger] dirs[k], id) by {
            assert(dirs[dirs.len() - 1] == dir);
            if next.seen.contains(id) {
                if exists|k: int| 0 <= k < head.len() && has_id(#[trigger] head[k], id) {
                    let k = choose|k: int| 0 <= k < head.len() && has_id(#[trigger] head[k], id);
                    assert(has_id(dirs[k], id));
                } else {
                    assert(has_id(dir, id));
                }
            }
            if exists|k: int| 0 <= k < dirs.len() && has_id(#[trigger] dirs[k], id) {
                let k = choose|k: int| 0 <= k < dirs.len() && has_id(#[trigger] dirs[k], id);
                if k < head.len() {
                    assert(has_id(head[k], id));
                } else {
                    assert(has_id(dir, id));
                }
            }
        }
        assert forall|i: int| 0 <= i < next.entries.len() implies comes_first(
            #[trigger] next.entries[i],
            dirs,
            terms,
        ) by {
            let entry = next.entries[i];
            if comes_first(entry, head, terms) {
                lemma_comes_first_grows(entry, head, dir, terms);
            } else {
                let f = choose|f: int|
                    0 <= f < listed.len() && entry_of_file(
                        #[trigger] listed[f],
                        head.len() as int,
                        terms,
                    ) == Some(entry) && forall|k: int|
                        0 <= k < head.len() ==> !has_id(#[trigger] head[k], entry.id);
                lemma_listed_files(dir->Files_0, listed[f]);
                assert(listed.contains(listed[f]));
                assert(has_file(dirs[head.len() as int], listed[f]));
                assert forall|k: int| 0 <= k < head.len() implies !has_id(
                    #[trigger] dirs[k],
                    entry.id,
                ) by {
                    assert(head[k] == dirs[k]);
                }
                assert(stands_first(entry, dirs, head.len() as int, terms));
            }
        }
    }
}

/// Of discovered entries no two have the same id, each is proper and is that of a desktop file in
/// the first directory that has its id, and none stands after one whose lowercase name comes later.
pub proof fn lemma_discovered(dirs: Seq<DirView>, terms: Terms)
    requires
        discovered(dirs, terms) is Ok,
    ensures
        ({
            let entries = discovered(dirs, terms)->Ok_0;
            &&& forall|i: int, j: int|
                0 <= i < j < entries.len() ==> (#[trigger] entries[i]).id != (
                #[trigger] entries[j]).id
            &&& forall|i: int|
                0 <= i < entries.len() ==> proper_entry(#[trigger] entries[i]) && comes_first(
                    entries[i],
                    dirs,
                    terms,
                )
            &&& forall|i: int, j: int|
                0 <= i < j < entries.len() ==> !key_less(
                    entry_key(#[trigger] entries[j]),
                    entry_key(#[trigger] entries[i]),
                )
        }),
{
    lemma_after_dirs(dirs, terms);
    let found = after_dirs(dirs, terms)->Ok_0.entries;
    let keys = Seq::new(found.len(), |i: int| entry_key(found[i]));
    lemma_ranked(found, keys);
    let entries = by_name(found);
    let order = rank_order(keys);
    assert forall|i: int, j: int| 0 <= i < j < entries.len() implies (#[trigger] entries[i]).id != (
    #[trigger] entries[j]).id && !key_less(entry_key(entries[j]), entry_key(entries[i])) by {
        assert(order[i] != order[j]);
        assert(entries[i] == found[order[i]]);
        assert(entries[j] == found[order[j]]);
    }
    assert forall|i: int| 0 <= i < entries.len() implies proper_entry(#[trigger] entries[i])
        && comes_first(entries[i], dirs, terms) by {
        assert(entries[i] == found[order[i]]);
        let entry = entries[i];
        let index = choose|index: int| #[trigger] stands_first(entry, dirs, index, terms);
        let file = choose|file: FileView| #[trigger]
            has_file(dirs[index], file) && entry_of_file(file, index, terms) == Some(entry);
        lemma_entry_of(
            id_of(file.relative_path),
            file.path,
            file_fields(file.text->0),
            rank_at(index),
            terms.include_hidden,
            terms.current,
        );
    }
}

proof fn lemma_files_keep(
    before: Discovered,
    files: Seq<FileView>,
    source_rank: u8,
    terms: Terms,
    entry: EntryView,
)
    requires
        before.entries.contains(entry),
        after_files(before, files, source_rank, terms) is Ok,
    ensures
        after_files(before, files, source_rank, terms)->Ok_0.entries.contains(entry),
    decreases files.len(),
{
    if files.len() > 0 {
        lemma_files_keep(before, files.drop_last(), source_rank, terms, entry);
        let reached = after_files(before, files.drop_last(), source_rank, terms)->Ok_0;
        let next = after_files(before, files, source_rank, terms)->Ok_0;
        let i = choose|i: int| 0 <= i < reached.entries.len() && reached.entries[i] == entry;
        assert(next.entries[i] == entry);
    }
}

proof fn lemma_dirs_keep(dirs: Seq<DirView>, count: int, terms: Terms, entry: EntryView)
    requires
        0 <= count <= dirs.len(),
        after_dirs(dirs, terms) is Ok,
        after_dirs(dirs.take(count), terms) is Ok,
        after_dirs(dirs.take(count), terms)->Ok_0.entries.contains(entry),
    ensures
        after_dirs(dirs, terms)->Ok_0.entries.contains(entry),
    decreases dirs.len(),
{
    if count == dirs.len() {
        assert(dirs.take(count) =~= dirs);
    } else {
        let head = dirs.drop_last();
        assert(head.take(count) =~= dirs.take(count));
        lemma_dirs_keep(head, count, terms, entry);
        let reached = after_dirs(head, terms)->Ok_0;
        if dirs.last() is Files {
            lemma_files_keep(
                reached,
                listed_files(dirs.last()->Files_0),
                rank_at(dirs.len() - 1),
                terms,
                entry,
            );
        }
    }
}

proof fn lemma_file_listed(
    before: Discovered,
    dirs: Seq<DirView>,
    files: Seq<FileView>,
    file: FileView,
    terms: Terms,
)
    requires
        faithful(before, dirs, terms),
        forall|i: int|
            0 <= i < before.entries.len() ==> before.seen.contains(
                (#[trigger] before.entries[i]).id,
            ),
        after_files(before, files, rank_at(dirs.len() as int), terms) is Ok,
        files.contains(file),
        forall|f: int|
            0 <= f < files.len() && id_of((#[trigger] files[f]).relative_path) == id_of(
                file.relative_path,
            ) ==> files[f] == file,
        forall|k: int|
            0 <= k < dirs.len() ==> !has_id(#[trigger] dirs[k], id_of(file.relative_path)),
        entry_of_file(file, dirs.len() as int, terms) is Some,
    ensures
        after_files(before, files, rank_at(dirs.len() as int), terms)->Ok_0.entries.contains(
            entry_of_file(file, dirs.len() as int, terms)->0,
        ),
    decreases files.len(),
{
    let rank = rank_at(dirs.len() as int);
    let entry = entry_of_file(file, dirs.len() as int, terms)->0;
    let id = id_of(file.relative_path);
    let head = files.drop_last();
    let reached = after_files(before, head, rank, terms)->Ok_0;
    let next = after_files(before, files, rank, terms)->Ok_0;
    assert forall|f: int| 0 <= f < head.len() implies #[trigger] head[f] == files[f] by {}
    if head.contains(file) {
        lemma_file_listed(before, dirs, head, file, terms);
        let i = choose|i: int| 0 <= i < reached.entries.len() && reached.entries[i] == entry;
        assert(next.entries[i] == entry);
    } else {
        let f = choose|f: int| 0 <= f < files.len() && files[f] == file;
        if f < head.len() {
            assert(head[f] == file);
        }
        lemma_after_files(before, dirs, head, terms);
        if reached.seen.contains(id) {
            let g = choose|g: int|
                0 <= g < head.len() && id_of((#[trigger] head[g]).relative_path) == id;
            assert(files[g] == file);
            assert(head[g] == file);
        }
        assert(files.last() == file);
        assert(next.entries == reached.entries.push(entry));
        assert(next.entries[reached.entries.len() as int] == entry);
    }
}

/// A desktop file that gives an entry is listed, where no earlier directory and no other file of its
/// own directory has the same id.
pub proof fn lemma_first_file_listed(dirs: Seq<DirView>, index: int, file: FileView, terms: Terms)
    requires
        discovered(dirs, terms) is Ok,
        0 <= index < dirs.len(),
        has_file(dirs[index], file),
        entry_of_file(file, index, terms) is Some,
        forall|k: int|
            0 <= k < index ==> !has_id(#[trigger] dirs[k], id_of(file.relative_path)),
        forall|other: FileView| #[trigger]
            has_file(dirs[index], other) && id_of(other.relative_path) == id_of(file.relative_path)
                ==> other == file,
    ensures
        discovered(dirs, terms)->Ok_0.contains(entry_of_file(file, index, terms)->0),
{
    let entry = entry_of_file(file, index, terms)->0;
    let head = dirs.take(index);
    let through = dirs.take(index + 1);
    let files = dirs[index]->Files_0;
    let listed = listed_files(files);
    assert(after_dirs(head, terms) is Ok) by {
        if after_dirs(head, terms) is Err {
            lemma_dirs_stop(dirs, index, terms);
        }
    }
    assert(after_dirs(through, terms) is Ok) by {
        if after_dirs(through, terms) is Err {
            lemma_dirs_stop(dirs, index + 1, terms);
        }
    }
    assert(through.drop_last() =~= head);
    lemma_after_dirs(head, terms);
    let before = after_dirs(head, terms)->Ok_0;
    assert forall|i: int| 0 <= i < before.entries.len() implies before.seen.contains(
        (#[trigger] before.entries[i]).id,
    ) by {
        lemma_entry_seen(before, head, terms, i);
    }
    assert forall|k: int| 0 <= k < head.len() implies !has_id(
        #[trigger] head[k],
        id_of(file.relative_path),
    ) by {
        assert(head[k] == dirs[k]);
    }
    lemma_listed_files(files, file);
    assert forall|f: int|
        0 <= f < listed.len() && id_of((#[trigger] listed[f]).relative_path) == id_of(
            file.relative_path,
        ) implies listed[f] == file by {
        lemma_listed_files(files, listed[f]);
        assert(listed.contains(listed[f]));
        assert(has_file(dirs[index], listed[f]));
    }
    lemma_file_listed(before, head, listed, file, terms);
    lemma_dirs_keep(dirs, index + 1, terms, entry);
    let found = after_dirs(dirs, terms)->Ok_0.entries;
    let keys = Seq::new(found.len(), |i: int| entry_key(found[i]));
    lemma_ranked(found, keys);
    let order = rank_order(keys);
    let p = choose|p: int| 0 <= p < found.len() && found[p] == entry;
    assert(order.contains(p));
    let i = choose|i: int| 0 <= i < order.len() && order[i] == p;
    assert(by_name(found)[i] == entry);
}

} // verus!
