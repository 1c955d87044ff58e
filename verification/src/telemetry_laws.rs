//! What holds of the memory that is read and of every record that is logged.
use vstd::prelude::*;

use crate::events::selected_view;
use crate::telemetry::{
    base_fields, event_fields, growth, kib, lemma_labels, lines_memory, maybe_nat, maybe_record,
    measured_fields, measures, record_fields, status_memory, FieldValue, FieldView, MemorySnapshot,
    Record, Stamp,
};
use crate::text::{line_views, read_decimal, words};

verus! {

// ---------------------------------------------------------------------------------------------
// Memory
// ---------------------------------------------------------------------------------------------

/// A line that starts with neither label changes nothing, wherever it stands.
proof fn lemma_other_line(before: Seq<Seq<char>>, line: Seq<char>)
    requires
        !"VmRSS:"@.is_prefix_of(line),
        !"VmSize:"@.is_prefix_of(line),
    ensures
        lines_memory(before.push(line)) == lines_memory(before),
{
    assert(before.push(line).drop_last() =~= before);
}

/// No line starts with both labels.
proof fn lemma_one_label(line: Seq<char>)
    ensures
        !("VmRSS:"@.is_prefix_of(line) && "VmSize:"@.is_prefix_of(line)),
{
    reveal_strlit("VmRSS:");
    reveal_strlit("VmSize:");
    if "VmRSS:"@.is_prefix_of(line) && "VmSize:"@.is_prefix_of(line) {
        assert("VmRSS:"@[2] == line[2]);
        assert("VmSize:"@[2] == line[2]);
    }
}

/// The resident size is read off the last line that starts with `VmRSS:`, and the virtual size off
/// the last one that starts with `VmSize:`, whatever the other lines are: each is the number that
/// follows on that line, and missing where there is no such line or no such number.
proof fn lemma_last_label(lines: Seq<Seq<char>>, at: int)
    requires
        -1 <= at < lines.len(),
    ensures
        (forall|k: int| at < k < lines.len() ==> !"VmRSS:"@.is_prefix_of(#[trigger] lines[k])) ==> {
            &&& at == -1 ==> lines_memory(lines).0 is None
            &&& at >= 0 && "VmRSS:"@.is_prefix_of(lines[at]) ==> lines_memory(lines).0 == if words(
                lines[at].skip(6),
            ).len() == 0 {
                None
            } else {
                read_decimal(words(lines[at].skip(6))[0], u64::MAX as nat)
            }
        },
        (forall|k: int| at < k < lines.len() ==> !"VmSize:"@.is_prefix_of(#[trigger] lines[k])) ==> {
            &&& at == -1 ==> lines_memory(lines).1 is None
            &&& at >= 0 && "VmSize:"@.is_prefix_of(lines[at]) ==> lines_memory(lines).1 == if words(
                lines[at].skip(7),
            ).len() == 0 {
                None
            } else {
                read_decimal(words(lines[at].skip(7))[0], u64::MAX as nat)
            }
        },
    decreases lines.len(),
{
    reveal_strlit("VmRSS:");
    reveal_strlit("VmSize:");
    if lines.len() > 0 {
        let before = lines.drop_last();
        lemma_one_label(lines.last());
        if at < lines.len() - 1 {
            lemma_last_label(before, at);
            assert forall|k: int| at < k < before.len() implies #[trigger] before[k] == lines[k] by {}
            let last = lines[lines.len() - 1];
            if at >= 0 {
                assert(before[at] == lines[at]);
            }
        }
    }
}

/// If just one line of a status file starts with `VmRSS:`, the resident size is the number that
/// follows on that line, whatever the other lines are; missing where no number follows.
pub proof fn lemma_resident_size(status: Seq<char>, at: int)
    requires
        0 <= at < line_views(status).len(),
        "VmRSS:"@.is_prefix_of(line_views(status)[at]),
        forall|k: int|
            at < k < line_views(status).len() ==> !"VmRSS:"@.is_prefix_of(
                #[trigger] line_views(status)[k],
            ),
    ensures
        status_memory(status).0 == ({
            let parts = words(line_views(status)[at].skip(6));
            if parts.len() == 0 {
                None
            } else {
                read_decimal(parts[0], 0xffff_ffff_ffff_ffff)
            }
        }),
{
    lemma_last_label(line_views(status), at);
}

/// If just one line of a status file starts with `VmSize:`, the virtual size is the number that
/// follows on that line, whatever the other lines are; missing where no number follows.
pub proof fn lemma_virtual_size(status: Seq<char>, at: int)
    requires
        0 <= at < line_views(status).len(),
        "VmSize:"@.is_prefix_of(line_views(status)[at]),
        forall|k: int|
            at < k < line_views(status).len() ==> !"VmSize:"@.is_prefix_of(
                #[trigger] line_views(status)[k],
            ),
    ensures
        status_memory(status).1 == ({
            let parts = words(line_views(status)[at].skip(7));
            if parts.len() == 0 {
                None
            } else {
                read_decimal(parts[0], 0xffff_ffff_ffff_ffff)
            }
        }),
{
    lemma_last_label(line_views(status), at);
}

/// A value tells a size by its first word alone, which has to be a number.
pub proof fn lemma_size(value: Seq<char>)
    ensures
        words(value).len() == 0 ==> kib(value) is None,
        words(value).len() > 0 ==> kib(value) == read_decimal(words(value)[0], 0xffff_ffff_ffff_ffff),
{
}

/// A size that no line is labelled with is missing.
pub proof fn lemma_missing_size(status: Seq<char>)
    ensures
        (forall|k: int|
            0 <= k < line_views(status).len() ==> !"VmRSS:"@.is_prefix_of(
                #[trigger] line_views(status)[k],
            )) ==> status_memory(status).0 is None,
        (forall|k: int|
            0 <= k < line_views(status).len() ==> !"VmSize:"@.is_prefix_of(
                #[trigger] line_views(status)[k],
            )) ==> status_memory(status).1 is None,
{
    lemma_last_label(line_views(status), -1);
}

/// The line labelled with one size says nothing of the other, and a line that starts with neither
/// label changes nothing.
pub proof fn lemma_further_line(before: Seq<Seq<char>>, line: Seq<char>)
    ensures
        !"VmRSS:"@.is_prefix_of(line) ==> lines_memory(before.push(line)).0 == lines_memory(
            before,
        ).0,
        !"VmSize:"@.is_prefix_of(line) ==> lines_memory(before.push(line)).1 == lines_memory(
            before,
        ).1,
{
    assert(before.push(line).drop_last() =~= before);
    lemma_one_label(line);
    if !"VmRSS:"@.is_prefix_of(line) && !"VmSize:"@.is_prefix_of(line) {
        lemma_other_line(before, line);
    }
}

/// The growth of a size is the difference of the two, and unknown where one of them is.
pub proof fn lemma_growth(end: u64, start: u64)
    requires
        end <= i64::MAX,
        start <= i64::MAX,
    ensures
        growth(Some(end), Some(start)) is Some,
        growth(Some(end), Some(start))->0 == end - start,
        growth(None, Some(start)) is None,
        growth(Some(end), None) is None,
        growth(None, None) is None,
{
}

/// The growth of sizes that signed numbers do not tell wraps round.
pub proof fn lemma_wrapped_growth(end: u64, start: u64)
    ensures
        growth(Some(end), Some(start)) == Some((end as i64).wrapping_sub(start as i64)),
{
}

/// A snapshot is modelled by both of its sizes.
pub proof fn lemma_snapshot_model(memory: MemorySnapshot)
    ensures
        memory.rss_kib is Some <==> memory@.0 is Some,
        memory.rss_kib is Some ==> memory@.0->0 == memory.rss_kib->0,
        memory.vm_size_kib is Some <==> memory@.1 is Some,
        memory.vm_size_kib is Some ==> memory@.1->0 == memory.vm_size_kib->0,
        maybe_nat(memory.rss_kib) == memory@.0,
{
}

// ---------------------------------------------------------------------------------------------
// Records
// ---------------------------------------------------------------------------------------------

/// A value of a record stands for itself.
pub proof fn lemma_field_model(value: FieldValue, record: Record)
    ensures
        match value {
            FieldValue::Null => value@ == FieldView::Null,
            FieldValue::Count(n) => value@ == FieldView::Number(n as int),
            FieldValue::Change(n) => value@ == FieldView::Number(n as int),
            FieldValue::Text(text) => value@ == FieldView::Text(text@),
            FieldValue::Texts(texts) => value@ is Texts && value@->Texts_0.len() == texts@.len()
                && forall|i: int| 0 <= i < texts@.len() ==> #[trigger] value@->Texts_0[i] == texts@[i]@,
        },
        maybe_record(Some(record)) == Some(record_fields(record)),
        maybe_record(None) is None,
{
}

proof fn lemma_distinct_labels()
    ensures
        "ts_unix_ms"@ != "kind"@,
        "ts_unix_ms"@ != "name"@,
        "ts_unix_ms"@ != "pid"@,
        "kind"@ != "name"@,
        "kind"@ != "pid"@,
        "name"@ != "pid"@,
        "entry"@ != "query"@,
        "entry"@ != "command"@,
        "query"@ != "command"@,
{
    reveal_strlit("ts_unix_ms");
    reveal_strlit("kind");
    reveal_strlit("name");
    reveal_strlit("pid");
    reveal_strlit("entry");
    reveal_strlit("query");
    reveal_strlit("command");
    assert("ts_unix_ms"@[0] == 't' && "kind"@[0] == 'k' && "name"@[0] == 'n' && "pid"@[0] == 'p');
    assert("entry"@[0] == 'e' && "query"@[0] == 'q' && "command"@[0] == 'c');
}

/// Every record has four fields: when it was written, of what kind and name it is, and by which
/// process it was written.
pub proof fn lemma_base_record(kind: Seq<char>, name: Seq<char>, stamp: Stamp)
    ensures
        base_fields(kind, name, stamp).dom() == set!["ts_unix_ms"@, "kind"@, "name"@, "pid"@],
        base_fields(kind, name, stamp)["ts_unix_ms"@] == FieldView::Number(stamp.ts_unix_ms as int),
        base_fields(kind, name, stamp)["kind"@] == FieldView::Text(kind),
        base_fields(kind, name, stamp)["name"@] == FieldView::Text(name),
        base_fields(kind, name, stamp)["pid"@] == FieldView::Number(stamp.pid as int),
{
    lemma_distinct_labels();
    assert(base_fields(kind, name, stamp).dom() =~= set!["ts_unix_ms"@, "kind"@, "name"@, "pid"@]);
}

/// The record of an event has the event's own fields, whatever they are called, and beside them its
/// time, kind, name and process.
pub proof fn lemma_event_values(name: Seq<char>, own: Map<Seq<char>, FieldView>, stamp: Stamp)
    ensures
        ({
            let record = event_fields(name, own, stamp);
            &&& record.dom() == set!["ts_unix_ms"@, "kind"@, "name"@, "pid"@].union(own.dom())
            &&& forall|label: Seq<char>| #[trigger]
                own.contains_key(label) ==> record[label] == own[label]
            &&& !own.contains_key("ts_unix_ms"@) ==> record["ts_unix_ms"@] == FieldView::Number(
                stamp.ts_unix_ms as int,
            )
            &&& !own.contains_key("kind"@) ==> record["kind"@] == FieldView::Text("event"@)
            &&& !own.contains_key("name"@) ==> record["name"@] == FieldView::Text(name)
            &&& !own.contains_key("pid"@) ==> record["pid"@] == FieldView::Number(stamp.pid as int)
        }),
{
    lemma_distinct_labels();
    assert(event_fields(name, own, stamp).dom() =~= set![
        "ts_unix_ms"@,
        "kind"@,
        "name"@,
        "pid"@,
    ].union(own.dom()));
}

/// What a span measures: how long it took, how large the process is at its end, and by how much it
/// has grown since the start. What is not known is written as null.
pub proof fn lemma_measured(
    name: Seq<char>,
    start: MemorySnapshot,
    end: MemorySnapshot,
    duration_ns: u64,
    stamp: Stamp,
)
    ensures
        ({
            let record = measured_fields(name, start, end, duration_ns, stamp);
            &&& record.dom() == set![
                "ts_unix_ms"@,
                "kind"@,
                "name"@,
                "pid"@,
                "duration_ns"@,
                "rss_kib"@,
                "vm_size_kib"@,
                "rss_delta_kib"@,
                "vm_size_delta_kib"@,
            ]
            &&& record["ts_unix_ms"@] == FieldView::Number(stamp.ts_unix_ms as int)
            &&& record["kind"@] == FieldView::Text("span"@)
            &&& record["name"@] == FieldView::Text(name)
            &&& record["pid"@] == FieldView::Number(stamp.pid as int)
            &&& record["duration_ns"@] == FieldView::Number(duration_ns as int)
            &&& record["rss_kib"@] == match end.rss_kib {
                Some(n) => FieldView::Number(n as int),
                None => FieldView::Null,
            }
            &&& record["vm_size_kib"@] == match end.vm_size_kib {
                Some(n) => FieldView::Number(n as int),
                None => FieldView::Null,
            }
            &&& end.rss_kib is Some && start.rss_kib is Some && end.rss_kib->0 <= i64::MAX
                && start.rss_kib->0 <= i64::MAX ==> record["rss_delta_kib"@] == FieldView::Number(
                end.rss_kib->0 - start.rss_kib->0,
            )
            &&& end.rss_kib is None || start.rss_kib is None ==> record["rss_delta_kib"@]
                == FieldView::Null
            &&& end.vm_size_kib is Some && start.vm_size_kib is Some && end.vm_size_kib->0
                <= i64::MAX && start.vm_size_kib->0 <= i64::MAX ==> record["vm_size_delta_kib"@]
                == FieldView::Number(end.vm_size_kib->0 - start.vm_size_kib->0)
            &&& end.vm_size_kib is None || start.vm_size_kib is None
                ==> record["vm_size_delta_kib"@] == FieldView::Null
        }),
{
    lemma_labels();
    assert(measures("duration_ns"@) && measures("rss_kib"@) && measures("vm_size_kib"@)
        && measures("rss_delta_kib"@) && measures("vm_size_delta_kib"@));
    assert(measured_fields(name, start, end, duration_ns, stamp).dom() =~= set![
        "ts_unix_ms"@,
        "kind"@,
        "name"@,
        "pid"@,
        "duration_ns"@,
        "rss_kib"@,
        "vm_size_kib"@,
        "rss_delta_kib"@,
        "vm_size_delta_kib"@,
    ]);
}

/// An event about a chosen entry tells its name, the query and the words of the command.
pub proof fn lemma_selected(entry: Seq<char>, query: Seq<char>, command: Seq<Seq<char>>)
    ensures
        selected_view(entry, query, command).dom() == set!["entry"@, "query"@, "command"@],
        selected_view(entry, query, command)["entry"@] == FieldView::Text(entry),
        selected_view(entry, query, command)["query"@] == FieldView::Text(query),
        selected_view(entry, query, command)["command"@] == FieldView::Texts(command),
{
    lemma_distinct_labels();
    assert(selected_view(entry, query, command).dom() =~= set!["entry"@, "query"@, "command"@]);
}

} // verus!
