//! The fields of the events that are logged.
use vstd::prelude::*;

use crate::telemetry::{
    insert_field, new_record, no_fields, record_fields, FieldValue, FieldView, Record,
};
use crate::text::{clone_strings, string_views};

verus! {

/// The fields of an event about an entry that is to be started.
pub open spec fn selected_view(entry: Seq<char>, query: Seq<char>, command: Seq<Seq<char>>) -> Map<
    Seq<char>,
    FieldView,
> {
    no_fields().insert("entry"@, FieldView::Text(entry)).insert(
        "query"@,
        FieldView::Text(query),
    ).insert("command"@, FieldView::Texts(command))
}

/// The fields of an event about an entry that is to be started.
pub fn selected_fields(entry: &str, query: &str, command: &Vec<String>) -> (res: Record)
    ensures
        record_fields(res) == selected_view(entry@, query@, string_views(command@)),
{
    let mut record: Record = new_record();
    insert_field(&mut record, "entry".to_owned(), FieldValue::Text(entry.to_owned()));
    insert_field(&mut record, "query".to_owned(), FieldValue::Text(query.to_owned()));
    insert_field(&mut record, "command".to_owned(), FieldValue::Texts(clone_strings(command)));
    record
}

/// The fields of an event about an entry that something went wrong with.
pub fn entry_error_fields(entry: &str, error: &str) -> (res: Record)
    ensures
        record_fields(res) == no_fields().insert("entry"@, FieldView::Text(entry@)).insert(
            "error"@,
            FieldView::Text(error@),
        ),
{
    let mut record: Record = new_record();
    insert_field(&mut record, "entry".to_owned(), FieldValue::Text(entry.to_owned()));
    insert_field(&mut record, "error".to_owned(), FieldValue::Text(error.to_owned()));
    record
}

/// The fields of an event about something that went wrong.
pub fn error_fields(error: &str) -> (res: Record)
    ensures
        record_fields(res) == no_fields().insert("error"@, FieldView::Text(error@)),
{
    let mut record: Record = new_record();
    insert_field(&mut record, "error".to_owned(), FieldValue::Text(error.to_owned()));
    record
}

/// The fields of the event that the window opens.
pub fn start_fields(namespace: &str, font_path: &str, entries: usize) -> (res: Record)
    ensures
        record_fields(res) == no_fields().insert("namespace"@, FieldView::Text(namespace@)).insert(
            "font_path"@,
            FieldView::Text(font_path@),
        ).insert("entries"@, FieldView::Number(entries as int)),
{
    let mut record: Record = new_record();
    insert_field(&mut record, "namespace".to_owned(), FieldValue::Text(namespace.to_owned()));
    insert_field(&mut record, "font_path".to_owned(), FieldValue::Text(font_path.to_owned()));
    insert_field(&mut record, "entries".to_owned(), FieldValue::Count(entries as u64));
    record
}

/// The fields of the event that the window closes.
pub fn exit_fields(uptime_ns: u64, last_draw_ns: u64) -> (res: Record)
    ensures
        record_fields(res) == no_fields().insert(
            "uptime_ns"@,
            FieldView::Number(uptime_ns as int),
        ).insert("last_draw_ns"@, FieldView::Number(last_draw_ns as int)),
{
    let mut record: Record = new_record();
    insert_field(&mut record, "uptime_ns".to_owned(), FieldValue::Count(uptime_ns));
    insert_field(&mut record, "last_draw_ns".to_owned(), FieldValue::Count(last_draw_ns));
    record
}

} // verus!
