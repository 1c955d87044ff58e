//! What is logged about a run: events, and spans with their duration and memory.
use vstd::prelude::*;

use crate::paths::maybe_bytes;
use crate::text::{
    line_views, lines, parse_decimal, read_decimal, slice_views, split_whitespace, string_views,
    to_chars, words,
};

pub use crate::paths::{default_telemetry_path, state_home};

verus! {

// ---------------------------------------------------------------------------------------------
// Memory
// ---------------------------------------------------------------------------------------------

/// The memory of a process in KiB.
#[derive(Debug, Clone, Copy, PartialEq, Eq)]
pub struct MemorySnapshot {
    pub rss_kib: Option<u64>,
    pub vm_size_kib: Option<u64>,
}

/// The number of KiB that a value of the status file starts with.
pub open spec fn kib(value: Seq<char>) -> Option<nat> {
    if words(value).len() == 0 {
        None
    } else {
        read_decimal(words(value)[0], u64::MAX as nat)
    }
}

/// What follows a label at the start of a line.
pub open spec fn after_label(line: Seq<char>, label: Seq<char>) -> Option<Seq<char>> {
    if label.is_prefix_of(line) {
        Some(line.skip(label.len() as int))
    } else {
        None
    }
}

/// The memory that the lines of a status file tell of. Of two lines with one label the later
/// counts.
pub open spec fn lines_memory(lines: Seq<Seq<char>>) -> (Option<nat>, Option<nat>)
    decreases lines.len(),
{
    if lines.len() == 0 {
        (None, None)
    } else {
        let (rss, vm_size) = lines_memory(lines.drop_last());
        match after_label(lines.last(), "VmRSS:"@) {
            Some(value) => (kib(value), vm_size),
            None => match after_label(lines.last(), "VmSize:"@) {
                Some(value) => (rss, kib(value)),
                None => (rss, vm_size),
            },
        }
    }
}

/// The memory that a status file tells of: resident, and virtual.
pub open spec fn status_memory(status: Seq<char>) -> (Option<nat>, Option<nat>) {
    lines_memory(line_views(status))
}

/// The model of a number that may be missing.
pub open spec fn maybe_nat(value: Option<u64>) -> Option<nat> {
    match value {
        Some(value) => Some(value as nat),
        None => None,
    }
}

impl View for MemorySnapshot {
    type V = (Option<nat>, Option<nat>);

    open spec fn view(&self) -> (Option<nat>, Option<nat>) {
        (maybe_nat(self.rss_kib), maybe_nat(self.vm_size_kib))
    }
}

/// The number of KiB that a value of the status file starts with.
pub fn parse_kib(value: &[char]) -> (res: Option<u64>)
    ensures
        maybe_nat(res) == kib(value@),
{
    let parts: Vec<&[char]> = split_whitespace(value);
    if parts.len() == 0 {
        assert(slice_views(parts@).len() == 0);
        return None;
    }
    assert(slice_views(parts@)[0] == parts@[0]@);
    parse_decimal(parts[0], u64::MAX)
}

fn strip_label<'a>(line: &'a [char], label: &str) -> (res: Option<&'a [char]>)
    ensures
        match res {
            Some(rest) => after_label(line@, label@) == Some(rest@),
            None => after_label(line@, label@) is None,
        },
{
    let wanted: Vec<char> = to_chars(label);
    if wanted.len() > line.len() {
        return None;
    }
    let mut i: usize = 0;
    while i < wanted.len()
        invariant
            wanted@ == label@,
            i <= wanted@.len() <= line@.len(),
            forall|k: int| 0 <= k < i ==> wanted@[k] == line@[k],
        decreases wanted@.len() - i,
    {
        if wanted[i] != line[i] {
            assert(line@.subrange(0, wanted@.len() as int)[i as int] == line@[i as int]);
            return None;
        }
        i += 1;
    }
    assert(line@.subrange(0, wanted@.len() as int) =~= wanted@);
    let rest = vstd::slice::slice_subrange(line, wanted.len(), line.len());
    assert(rest@ =~= line@.skip(wanted@.len() as int));
    Some(rest)
}

/// The memory that the text of a status file tells of.
pub fn memory_snapshot_from_status_text(status: &str) -> (res: MemorySnapshot)
    ensures
        res@ == status_memory(status@),
{
    let chars: Vec<char> = to_chars(status);
    let parts: Vec<&[char]> = lines(chars.as_slice());
    let ghost views = line_views(status@);
    let mut rss_kib: Option<u64> = None;
    let mut vm_size_kib: Option<u64> = None;
    let mut i: usize = 0;
    assert(views.take(0) =~= seq![]);
    while i < parts.len()
        invariant
            i <= parts@.len(),
            slice_views(parts@) == views,
            lines_memory(views.take(i as int)) == (maybe_nat(rss_kib), maybe_nat(vm_size_kib)),
        decreases parts@.len() - i,
    {
        let line = parts[i];
        proof {
            assert(views.take(i + 1).drop_last() =~= views.take(i as int));
            assert(views.take(i + 1).last() == slice_views(parts@)[i as int]);
        }
        if let Some(value) = strip_label(line, "VmRSS:") {
            rss_kib = parse_kib(value);
        } else if let Some(value) = strip_label(line, "VmSize:") {
            vm_size_kib = parse_kib(value);
        }
        i += 1;
    }
    assert(views.take(i as int) =~= views);
    MemorySnapshot { rss_kib, vm_size_kib }
}

impl MemorySnapshot {
    /// The memory of this process, from the text of its status file; unknown where that cannot be
    /// read.
    pub fn current(status: Option<&str>) -> (res: Self)
        ensures
            res@ == match status {
                Some(text) => status_memory(text@),
                None => (None, None),
            },
    {
        match status {
            Some(text) => memory_snapshot_from_status_text(text),
            None => MemorySnapshot { rss_kib: None, vm_size_kib: None },
        }
    }
}

/// By how much a size has grown, if both sizes are known. Sizes from 2^63 on wrap round.
pub open spec fn growth(end: Option<u64>, start: Option<u64>) -> Option<i64> {
    match (end, start) {
        (Some(end), Some(start)) => Some((end as i64).wrapping_sub(start as i64)),
        _ => None,
    }
}

/// By how much a size has grown, if both sizes are known.
pub fn delta(end: Option<u64>, start: Option<u64>) -> (res: Option<i64>)
    ensures
        res == growth(end, start),
        end is Some && start is Some && end->0 <= i64::MAX && start->0 <= i64::MAX ==> res is Some
            && res->0 == end->0 - start->0,
{
    match (end, start) {
        (Some(end), Some(start)) => Some((end as i64).wrapping_sub(start as i64)),
        _ => None,
    }
}

// ---------------------------------------------------------------------------------------------
// Records
// ---------------------------------------------------------------------------------------------

/// A value of a record.
#[derive(Debug)]
pub enum FieldValue {
    Null,
    Count(u64),
    Change(i64),
    Text(String),
    Texts(Vec<String>),
}

/// What a value of a record stands for: nothing, a whole number, a text, a list of texts, or
/// something else.
#[verifier::ext_equal]
pub enum FieldView {
    Null,
    Number(int),
    Text(Seq<char>),
    Texts(Seq<Seq<char>>),
    Other,
}

impl View for FieldValue {
    type V = FieldView;

    open spec fn view(&self) -> FieldView {
        match self {
            FieldValue::Null => FieldView::Null,
            FieldValue::Count(value) => FieldView::Number(*value as int),
            FieldValue::Change(value) => FieldView::Number(*value as int),
            FieldValue::Text(text) => FieldView::Text(text@),
            FieldValue::Texts(texts) => FieldView::Texts(string_views(texts@)),
        }
    }
}

/// A JSON value.
#[verifier::external_type_specification]
#[verifier::external_body]
pub struct ExJsonValue(serde_json::Value);

/// A JSON object.
#[verifier::external_type_specification]
#[verifier::external_body]
#[verifier::reject_recursive_types(K)]
#[verifier::reject_recursive_types(V)]
pub struct ExJsonMap<K, V>(serde_json::Map<K, V>);

/// A record of the log.
pub type Record = serde_json::Map<String, serde_json::Value>;

/// The fields of a record and what their values stand for.
pub uninterp spec fn record_fields(record: Record) -> Map<Seq<char>, FieldView>;

/// The fields of an empty record.
pub open spec fn no_fields() -> Map<Seq<char>, FieldView> {
    Map::empty()
}

/// Calls `serde_json::Map::new`, which gives an object without fields.
#[verifier::external_body]
pub(crate) fn new_record() -> (res: Record)
    ensures
        record_fields(res) == no_fields(),
{
    serde_json::Map::new()
}

/// Calls `serde_json::Map::insert` with the JSON value that stands for the given one. The field
/// is added, or its value replaced.
#[verifier::external_body]
pub(crate) fn insert_field(record: &mut Record, key: String, value: FieldValue)
    ensures
        record_fields(*final(record)) == record_fields(*old(record)).insert(key@, value@),
{
    let value = match value {
        FieldValue::Null => serde_json::Value::Null,
        FieldValue::Count(value) => serde_json::Value::from(value),
        FieldValue::Change(value) => serde_json::Value::from(value),
        FieldValue::Text(text) => serde_json::Value::from(text),
        FieldValue::Texts(texts) => serde_json::Value::from(texts),
    };
    record.insert(key, value);
}

/// Calls `extend` of `serde_json::Map`: the fields of the second object are added to the first, or
/// replace the values there.
#[verifier::external_body]
fn extend_record(record: &mut Record, fields: Record)
    ensures
        record_fields(*final(record)) == record_fields(*old(record)).union_prefer_right(
            record_fields(fields),
        ),
{
    record.extend(fields);
}

/// When and by which process a record is written.
#[derive(Debug, Clone, Copy)]
pub struct Stamp {
    pub ts_unix_ms: u64,
    pub pid: u32,
}

/// The fields that every record has.
pub open spec fn base_fields(kind: Seq<char>, name: Seq<char>, stamp: Stamp) -> Map<
    Seq<char>,
    FieldView,
> {
    no_fields().insert("ts_unix_ms"@, FieldView::Number(stamp.ts_unix_ms as int)).insert(
        "kind"@,
        FieldView::Text(kind),
    ).insert("name"@, FieldView::Text(name)).insert("pid"@, FieldView::Number(stamp.pid as int))
}

/// The record with the fields that every record has.
pub fn base_record(kind: &str, name: &str, stamp: Stamp) -> (res: Record)
    ensures
        record_fields(res) == base_fields(kind@, name@, stamp),
{
    let mut record: Record = new_record();
    insert_field(&mut record, "ts_unix_ms".to_owned(), FieldValue::Count(stamp.ts_unix_ms));
    insert_field(&mut record, "kind".to_owned(), FieldValue::Text(kind.to_owned()));
    insert_field(&mut record, "name".to_owned(), FieldValue::Text(name.to_owned()));
    insert_field(&mut record, "pid".to_owned(), FieldValue::Count(stamp.pid as u64));
    record
}

// ---------------------------------------------------------------------------------------------
// Telemetry
// ---------------------------------------------------------------------------------------------

/// Whether and where a run is logged.
#[derive(Debug)]
pub struct Telemetry {
    path: Option<Vec<u8>>,
}

impl View for Telemetry {
    type V = Option<Seq<u8>>;

    closed spec fn view(&self) -> Option<Seq<u8>> {
        maybe_bytes(self.path)
    }
}

/// The fields of an event's record.
pub open spec fn event_fields(
    name: Seq<char>,
    fields: Map<Seq<char>, FieldView>,
    stamp: Stamp,
) -> Map<Seq<char>, FieldView> {
    base_fields("event"@, name, stamp).union_prefer_right(fields)
}

/// The model of a record that may be missing.
pub open spec fn maybe_record(record: Option<Record>) -> Option<Map<Seq<char>, FieldView>> {
    match record {
        Some(record) => Some(record_fields(record)),
        None => None,
    }
}

impl Telemetry {
    /// Logs to the file at a path, or not at all.
    pub fn new(path: Option<Vec<u8>>) -> (res: Self)
        ensures
            res@ == maybe_bytes(path),
    {
        Telemetry { path }
    }

    /// Whether anything is logged.
    pub fn enabled(&self) -> (res: bool)
        ensures
            res == (self@ is Some),
    {
        self.path.is_some()
    }

    /// The path of the log.
    pub fn path(&self) -> (res: Option<&Vec<u8>>)
        ensures
            match res {
                Some(path) => self@ == Some(path@),
                None => self@ is None,
            },
    {
        match &self.path {
            Some(path) => Some(path),
            None => None,
        }
    }

    /// Starts a span. `memory` is the memory at its start.
    pub fn span<'a>(&'a self, name: String, memory: MemorySnapshot) -> (res: Span<'a>)
        ensures
            res.name() == name@,
            res.start() == memory,
            res.fields() == no_fields(),
            res.enabled() == (self@ is Some),
    {
        Span { telemetry: self, name, start_mem: memory, fields: new_record() }
    }

    /// The record of an event, if anything is logged. The event's own fields go before those that
    /// every record has.
    pub fn event(&self, name: &str, fields: Record, stamp: Stamp) -> (res: Option<Record>)
        ensures
            maybe_record(res) == if self@ is Some {
                Some(event_fields(name@, record_fields(fields), stamp))
            } else {
                None
            },
    {
        if !self.enabled() {
            return None;
        }
        let mut record: Record = base_record("event", name, stamp);
        extend_record(&mut record, fields);
        Some(record)
    }
}

/// Something that takes time.
#[derive(Debug)]
pub struct Span<'a> {
    telemetry: &'a Telemetry,
    name: String,
    start_mem: MemorySnapshot,
    fields: Record,
}

/// What stands for a number that may be missing.
pub open spec fn number_or_null(value: Option<u64>) -> FieldView {
    match value {
        Some(value) => FieldView::Number(value as int),
        None => FieldView::Null,
    }
}

/// What stands for a change that may be unknown.
pub open spec fn change_or_null(value: Option<i64>) -> FieldView {
    match value {
        Some(value) => FieldView::Number(value as int),
        None => FieldView::Null,
    }
}

/// What every span measures.
pub open spec fn measured_fields(
    name: Seq<char>,
    start: MemorySnapshot,
    end: MemorySnapshot,
    duration_ns: u64,
    stamp: Stamp,
) -> Map<Seq<char>, FieldView> {
    base_fields("span"@, name, stamp).insert(
        "duration_ns"@,
        FieldView::Number(duration_ns as int),
    ).insert("rss_kib"@, number_or_null(end.rss_kib)).insert(
        "vm_size_kib"@,
        number_or_null(end.vm_size_kib),
    ).insert("rss_delta_kib"@, change_or_null(growth(end.rss_kib, start.rss_kib))).insert(
        "vm_size_delta_kib"@,
        change_or_null(growth(end.vm_size_kib, start.vm_size_kib)),
    )
}

fn count_or_null(value: Option<u64>) -> (res: FieldValue)
    ensures
        res@ == number_or_null(value),
{
    match value {
        Some(value) => FieldValue::Count(value),
        None => FieldValue::Null,
    }
}

fn delta_or_null(value: Option<i64>) -> (res: FieldValue)
    ensures
        res@ == change_or_null(value),
{
    match value {
        Some(value) => FieldValue::Change(value),
        None => FieldValue::Null,
    }
}

impl<'a> Span<'a> {
    /// The span's name.
    pub closed spec fn name(&self) -> Seq<char> {
        self.name@
    }

    /// The memory at the span's start.
    pub closed spec fn start(&self) -> MemorySnapshot {
        self.start_mem
    }

    /// The span's own fields.
    pub closed spec fn fields(&self) -> Map<Seq<char>, FieldView> {
        record_fields(self.fields)
    }

    /// Whether the span is logged.
    pub closed spec fn enabled(&self) -> bool {
        self.telemetry@ is Some
    }

    /// The span with one more field of its own.
    pub fn field(self, key: String, value: FieldValue) -> (res: Self)
        ensures
            res.name() == self.name(),
            res.start() == self.start(),
            res.fields() == self.fields().insert(key@, value@),
            res.enabled() == self.enabled(),
    {
        let mut span: Span<'a> = self;
        span.set_field(key, value);
        span
    }

    /// Sets a field of the span's own.
    pub fn set_field(&mut self, key: String, value: FieldValue)
        ensures
            final(self).name() == old(self).name(),
            final(self).start() == old(self).start(),
            final(self).fields() == old(self).fields().insert(key@, value@),
            final(self).enabled() == old(self).enabled(),
    {
        insert_field(&mut self.fields, key, value);
    }

    /// Ends the span and gives its record, if anything is logged. The span's own fields go before
    /// those that every span has. `memory` is the memory at its end.
    pub fn finish(self, duration_ns: u64, memory: MemorySnapshot, stamp: Stamp) -> (res: Option<
        Record,
    >)
        ensures
            maybe_record(res) == if self.enabled() {
                Some(
                    measured_fields(
                        self.name(),
                        self.start(),
                        memory,
                        duration_ns,
                        stamp,
                    ).union_prefer_right(self.fields()),
                )
            } else {
                None
            },
    {
        if !self.telemetry.enabled() {
            return None;
        }
        let start: MemorySnapshot = self.start_mem;
        let mut record: Record = base_record("span", self.name.as_str(), stamp);
        insert_field(&mut record, "duration_ns".to_owned(), FieldValue::Count(duration_ns));
        insert_field(&mut record, "rss_kib".to_owned(), count_or_null(memory.rss_kib));
        insert_field(&mut record, "vm_size_kib".to_owned(), count_or_null(memory.vm_size_kib));
        insert_field(
            &mut record,
            "rss_delta_kib".to_owned(),
            delta_or_null(delta(memory.rss_kib, start.rss_kib)),
        );
        insert_field(
            &mut record,
            "vm_size_delta_kib".to_owned(),
            delta_or_null(delta(memory.vm_size_kib, start.vm_size_kib)),
        );
        extend_record(&mut record, self.fields);
        Some(record)
    }
}

// ---------------------------------------------------------------------------------------------
// What holds of records
// ---------------------------------------------------------------------------------------------

pub(crate) proof fn lemma_labels()
    ensures
        "ts_unix_ms"@ != "kind"@,
        "ts_unix_ms"@ != "name"@,
        "ts_unix_ms"@ != "pid"@,
        "kind"@ != "name"@,
        "kind"@ != "pid"@,
        "name"@ != "pid"@,
        forall|label: Seq<char>| #[trigger]
            measures(label) ==> label != "ts_unix_ms"@ && label != "kind"@ && label != "name"@
                && label != "pid"@,
        "duration_ns"@ != "rss_kib"@,
        "duration_ns"@ != "vm_size_kib"@,
        "duration_ns"@ != "rss_delta_kib"@,
        "duration_ns"@ != "vm_size_delta_kib"@,
        "rss_kib"@ != "vm_size_kib"@,
        "rss_kib"@ != "rss_delta_kib"@,
        "rss_kib"@ != "vm_size_delta_kib"@,
        "vm_size_kib"@ != "rss_delta_kib"@,
        "vm_size_kib"@ != "vm_size_delta_kib"@,
        "rss_delta_kib"@ != "vm_size_delta_kib"@,
{
    reveal_strlit("ts_unix_ms");
    reveal_strlit("kind");
    reveal_strlit("name");
    reveal_strlit("pid");
    reveal_strlit("duration_ns");
    reveal_strlit("rss_kib");
    reveal_strlit("vm_size_kib");
    reveal_strlit("rss_delta_kib");
    reveal_strlit("vm_size_delta_kib");
    assert("ts_unix_ms"@[0] == 't' && "kind"@[0] == 'k' && "name"@[0] == 'n' && "pid"@[0] == 'p');
    assert("duration_ns"@[0] == 'd' && "rss_kib"@[0] == 'r' && "vm_size_kib"@[0] == 'v'
        && "rss_delta_kib"@[0] == 'r' && "vm_size_delta_kib"@[0] == 'v');
    assert("rss_kib"@.len() == 7 && "rss_delta_kib"@.len() == 13);
    assert("vm_size_kib"@.len() == 11 && "vm_size_delta_kib"@.len() == 17);
}

/// Whether a field is one of those that every span measures.
pub open spec fn measures(label: Seq<char>) -> bool {
    label == "duration_ns"@ || label == "rss_kib"@ || label == "vm_size_kib"@ || label
        == "rss_delta_kib"@ || label == "vm_size_delta_kib"@
}

/// The record of a span has every field that spans measure, and, where the span's own fields do not
/// go before them, with the measured values: the duration, the memory at the end and its growth.
pub proof fn lemma_span_record(
    name: Seq<char>,
    start: MemorySnapshot,
    end: MemorySnapshot,
    duration_ns: u64,
    stamp: Stamp,
    own: Map<Seq<char>, FieldView>,
)
    ensures
        ({
            let record = measured_fields(name, start, end, duration_ns, stamp).union_prefer_right(
                own,
            );
            &&& forall|label: Seq<char>| #[trigger] measures(label) ==> record.contains_key(label)
            &&& forall|label: Seq<char>| #[trigger]
                own.contains_key(label) ==> record.contains_pair(label, own[label])
            &&& record.contains_key("ts_unix_ms"@)
            &&& record.contains_key("pid"@)
            &&& !own.contains_key("kind"@) ==> record.contains_pair(
                "kind"@,
                FieldView::Text("span"@),
            )
            &&& !own.contains_key("name"@) ==> record.contains_pair("name"@, FieldView::Text(name))
            &&& !own.contains_key("duration_ns"@) ==> record["duration_ns"@] == FieldView::Number(
                duration_ns as int,
            )
            &&& !own.contains_key("rss_kib"@) ==> record["rss_kib"@] == number_or_null(end.rss_kib)
            &&& !own.contains_key("vm_size_kib"@) ==> record["vm_size_kib"@] == number_or_null(
                end.vm_size_kib,
            )
            &&& !own.contains_key("rss_delta_kib"@) ==> record["rss_delta_kib"@] == change_or_null(
                growth(end.rss_kib, start.rss_kib),
            )
            &&& !own.contains_key("vm_size_delta_kib"@) ==> record["vm_size_delta_kib"@]
                == change_or_null(growth(end.vm_size_kib, start.vm_size_kib))
        }),
{
    lemma_labels();
    assert(measures("duration_ns"@) && measures("rss_kib"@) && measures("vm_size_kib"@)
        && measures("rss_delta_kib"@) && measures("vm_size_delta_kib"@));
}

/// The record of an event has the event's own fields, and its kind and name where those do not go
/// before them.
pub proof fn lemma_event_record(name: Seq<char>, own: Map<Seq<char>, FieldView>, stamp: Stamp)
    ensures
        ({
            let record = event_fields(name, own, stamp);
            &&& forall|label: Seq<char>| #[trigger]
                own.contains_key(label) ==> record.contains_pair(label, own[label])
            &&& record.contains_key("ts_unix_ms"@)
            &&& record.contains_key("pid"@)
            &&& !own.contains_key("kind"@) ==> record.contains_pair(
                "kind"@,
                FieldView::Text("event"@),
            )
            &&& !own.contains_key("name"@) ==> record.contains_pair("name"@, FieldView::Text(name))
        }),
{
    lemma_labels();
}

} // verus!
