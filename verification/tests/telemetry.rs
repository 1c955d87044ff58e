use jofi::events::{
    entry_error_fields, error_fields, exit_fields, selected_fields, start_fields,
};
use jofi::telemetry::{
    delta, memory_snapshot_from_status_text, FieldValue, MemorySnapshot, Stamp, Telemetry,
};
use serde_json::Value;

const STAMP: Stamp = Stamp { ts_unix_ms: 1234, pid: 42 };

fn memory(rss: Option<u64>, vm_size: Option<u64>) -> MemorySnapshot {
    MemorySnapshot { rss_kib: rss, vm_size_kib: vm_size }
}

fn logged() -> Telemetry {
    Telemetry::new(Some(b"/tmp/log".to_vec()))
}

#[test]
fn parses_proc_status_memory() {
    let snapshot = memory_snapshot_from_status_text(
        "Name:\tjofi\nVmSize:\t 123456 kB\nVmRSS:\t   7890 kB\n",
    );
    assert_eq!(snapshot.rss_kib, Some(7890));
    assert_eq!(snapshot.vm_size_kib, Some(123456));
}

#[test]
fn telemetry_can_be_disabled() {
    let telemetry = Telemetry::new(None);
    assert!(!telemetry.enabled());
    let span = telemetry.span("disabled".to_string(), memory(None, None));
    assert!(span.finish(1, memory(None, None), STAMP).is_none());
    assert!(telemetry.event("x", serde_json::Map::new(), STAMP).is_none());
    assert!(telemetry.path().is_none());
}

#[test]
fn memory_is_unknown_without_a_readable_status() {
    assert_eq!(MemorySnapshot::current(None), memory(None, None));
    assert_eq!(MemorySnapshot::current(Some("VmRSS: 5 kB")), memory(Some(5), None));
    assert_eq!(MemorySnapshot::current(Some("VmRSS:\nVmSize: x kB")), memory(None, None));
    assert_eq!(MemorySnapshot::current(Some(" VmRSS: 5")), memory(None, None));
    assert_eq!(
        MemorySnapshot::current(Some("VmRSS: 5\nVmRSS: +6\nVmSize: 18446744073709551615")),
        memory(Some(6), Some(u64::MAX))
    );
    assert_eq!(
        MemorySnapshot::current(Some("VmRSS: 5\nVmRSS: 18446744073709551616")),
        memory(None, None)
    );
}

#[test]
fn deltas() {
    assert_eq!(delta(Some(10), Some(4)), Some(6));
    assert_eq!(delta(Some(4), Some(10)), Some(-6));
    assert_eq!(delta(None, Some(10)), None);
    assert_eq!(delta(Some(10), None), None);
    assert_eq!(delta(Some(u64::MAX), Some(0)), Some(-1));
}

#[test]
fn spans_record_duration_and_memory() {
    let telemetry = logged();
    assert!(telemetry.enabled());
    assert_eq!(telemetry.path().unwrap(), b"/tmp/log");
    let mut span = telemetry
        .span("search.query".to_string(), memory(Some(100), Some(500)))
        .field("query".to_string(), FieldValue::Text("fire".to_string()));
    span.set_field("results".to_string(), FieldValue::Count(3));
    span.set_field("results".to_string(), FieldValue::Count(4));
    let record = span.finish(777, memory(Some(90), None), STAMP).unwrap();
    let text = Value::Object(record).to_string();
    assert_eq!(
        text,
        "{\"duration_ns\":777,\"kind\":\"span\",\"name\":\"search.query\",\"pid\":42,\"query\":\"fire\",\"results\":4,\"rss_delta_kib\":-10,\"rss_kib\":90,\"ts_unix_ms\":1234,\"vm_size_delta_kib\":null,\"vm_size_kib\":null}"
    );
}

#[test]
fn own_fields_go_before_the_usual_ones() {
    let telemetry = logged();
    let span = telemetry
        .span("s".to_string(), memory(None, None))
        .field("duration_ns".to_string(), FieldValue::Null)
        .field("command".to_string(), FieldValue::Texts(vec!["a".to_string(), "b".to_string()]));
    let record = span.finish(5, memory(None, None), STAMP).unwrap();
    assert_eq!(record.get("duration_ns"), Some(&Value::Null));
    assert_eq!(
        record.get("command"),
        Some(&Value::Array(vec![Value::from("a"), Value::from("b")]))
    );
}

#[test]
fn events_have_their_fields() {
    let mut fields = serde_json::Map::new();
    fields.insert("width".to_string(), Value::from(1920u32));
    fields.insert("kind".to_string(), Value::from("mine"));
    let record = logged().event("ui.draw", fields, STAMP).unwrap();
    assert_eq!(
        Value::Object(record).to_string(),
        "{\"kind\":\"mine\",\"name\":\"ui.draw\",\"pid\":42,\"ts_unix_ms\":1234,\"width\":1920}"
    );
    let record = logged().event("x", serde_json::Map::new(), STAMP).unwrap();
    assert_eq!(record.get("kind"), Some(&Value::from("event")));
}

#[test]
fn fields_of_events() {
    let json = |record: jofi::telemetry::Record| Value::Object(record).to_string();
    assert_eq!(
        json(selected_fields("E", "q", &vec!["a".to_string(), "b".to_string()])),
        "{\"command\":[\"a\",\"b\"],\"entry\":\"E\",\"query\":\"q\"}"
    );
    assert_eq!(json(entry_error_fields("E", "bad")), "{\"entry\":\"E\",\"error\":\"bad\"}");
    assert_eq!(json(error_fields("bad")), "{\"error\":\"bad\"}");
    assert_eq!(
        json(start_fields("n", "/f.ttf", 3)),
        "{\"entries\":3,\"font_path\":\"/f.ttf\",\"namespace\":\"n\"}"
    );
    assert_eq!(json(exit_fields(5, 6)), "{\"last_draw_ns\":6,\"uptime_ns\":5}");
}
