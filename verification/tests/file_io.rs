use wasm_rr::trace::json::read_event;
use wasm_rr::trace::json_write::write_event;
use wasm_rr::trace::TraceEvent;

/// Trace events are written and read back as they were.
#[test]
fn test_trace_event_serialization() {
    let events = vec![
        TraceEvent::RandomBytes { bytes: vec![1, 2, 3, 4, 5] },
        TraceEvent::RandomBytes { bytes: vec![] },
        TraceEvent::InsecureRandomBytes { bytes: vec![72, 101, 108, 108, 111] },
        TraceEvent::InsecureRandomBytes { bytes: vec![] },
    ];

    for event in events {
        let mut json = Vec::new();
        write_event(&mut json, false, 0, &event);
        let (deserialized, end) = read_event(&json, 0).expect("Failed to deserialize");
        assert_eq!(end, json.len());
        assert_eq!(event, deserialized);
    }
}
