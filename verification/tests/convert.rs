use wasm_rr::trace::convert::{decode, encode};
use wasm_rr::trace::event::Datetime;
use wasm_rr::trace::{convert, TraceError, TraceEvent, TraceFile, TraceFormat};
use wasm_rr::{Playback, Recorder};

fn pairs(items: &[(&str, &str)]) -> Vec<(String, String)> {
    items.iter().map(|(a, b)| (a.to_string(), b.to_string())).collect()
}

fn one_of_each() -> Vec<TraceEvent> {
    vec![
        TraceEvent::ClockNow { seconds: 1_700_000_000, nanoseconds: 123_456_789 },
        TraceEvent::ClockResolution { seconds: 0, nanoseconds: 1 },
        TraceEvent::MonotonicClockNow { nanoseconds: u64::MAX },
        TraceEvent::MonotonicClockResolution { nanoseconds: 1000 },
        TraceEvent::Environment { entries: pairs(&[("HOME", "/root"), ("EMPTY", "")]) },
        TraceEvent::Arguments { args: vec!["prog.wasm".into(), "alpha".into(), "beta".into()] },
        TraceEvent::InitialCwd { path: Some("/work".into()) },
        TraceEvent::RandomBytes { bytes: vec![0x01, 0x02, 0x03] },
        TraceEvent::InsecureRandomBytes { bytes: vec![0xde, 0xad] },
        TraceEvent::RandomU64 { value: 42 },
        TraceEvent::InsecureRandomU64 { value: 0 },
        TraceEvent::InsecureSeed { seed: (7, 8) },
        TraceEvent::Read,
        TraceEvent::HttpResponse {
            request_method: "GET".into(),
            request_url: "https://example/x".into(),
            request_headers: pairs(&[("accept", "text/plain")]),
            status: 200,
            headers: pairs(&[("content-type", "text/plain")]),
            body: b"hello".to_vec(),
        },
        TraceEvent::Exit { code: 2 },
    ]
}

#[test]
fn roundtrip_json_to_cbor_to_json() {
    let trace = TraceFile { events: one_of_each() };
    let json = encode(TraceFormat::Json, &trace.events);
    let cbor = convert(&json, TraceFormat::Json, TraceFormat::Cbor).unwrap();
    let json2 = convert(&cbor, TraceFormat::Cbor, TraceFormat::Json).unwrap();
    assert_eq!(TraceFile { events: decode(TraceFormat::Json, &json2).unwrap() }, trace);
    assert_eq!(json2, json);
}

#[test]
fn roundtrip_cbor_to_json_to_cbor() {
    let trace = TraceFile { events: one_of_each() };
    let cbor = encode(TraceFormat::Cbor, &trace.events);
    let json = convert(&cbor, TraceFormat::Cbor, TraceFormat::Json).unwrap();
    let cbor2 = convert(&json, TraceFormat::Json, TraceFormat::Cbor).unwrap();
    assert_eq!(TraceFile { events: decode(TraceFormat::Cbor, &cbor2).unwrap() }, trace);
    assert_eq!(cbor2, cbor);
}

#[test]
fn converting_into_the_same_encoding_keeps_the_events() {
    let events = one_of_each();
    for format in [TraceFormat::Json, TraceFormat::Cbor] {
        let bytes = encode(format, &events);
        assert_eq!(convert(&bytes, format, format), Ok(bytes));
    }
}

#[test]
fn a_text_trace_converted_there_and_back_is_its_pretty_form() {
    let events = one_of_each();
    let mut recorder = Recorder::new(TraceFormat::Json);
    for e in &events {
        recorder.record(e.clone());
    }
    let mut text = recorder.take_pending();
    text.extend(recorder.save().unwrap());
    let binary = convert(&text, TraceFormat::Json, TraceFormat::Cbor).unwrap();
    let back = convert(&binary, TraceFormat::Cbor, TraceFormat::Json).unwrap();
    assert_eq!(back, encode(TraceFormat::Json, &events));
    assert_ne!(back, text);
}

#[test]
fn an_empty_trace_converts() {
    let json = encode(TraceFormat::Json, &vec![]);
    assert_eq!(convert(&json, TraceFormat::Json, TraceFormat::Cbor), Ok(vec![]));
    assert_eq!(convert(&[], TraceFormat::Cbor, TraceFormat::Json), Ok(json));
}

#[test]
fn input_that_is_no_trace_is_refused() {
    assert_eq!(convert(b"not json", TraceFormat::Json, TraceFormat::Cbor), Err(TraceError::InvalidJson));
    assert_eq!(convert(&[0x00], TraceFormat::Cbor, TraceFormat::Json), Err(TraceError::InvalidCbor));
    assert_eq!(convert(b"{\"events\":[]}", TraceFormat::Cbor, TraceFormat::Json), Err(TraceError::InvalidCbor));
}

#[test]
fn clock_capture() {
    for format in [TraceFormat::Json, TraceFormat::Cbor] {
        let mut recorder = Recorder::new(format);
        recorder.record_now(&Datetime { seconds: 1_700_000_000, nanoseconds: 123_456_789 });
        let mut file = recorder.take_pending();
        file.extend(recorder.save().unwrap());
        assert_eq!(
            decode(format, &file),
            Ok(vec![TraceEvent::ClockNow { seconds: 1_700_000_000, nanoseconds: 123_456_789 }])
        );
        let mut playback = Playback::from_file(file, format).unwrap();
        assert_eq!(playback.next_now(), Ok(Datetime { seconds: 1_700_000_000, nanoseconds: 123_456_789 }));
        assert_eq!(playback.finish(), Ok(()));
    }
}

#[test]
fn exit_capture() {
    for format in [TraceFormat::Json, TraceFormat::Cbor] {
        let mut recorder = Recorder::new(format);
        recorder.record_filesystem_read();
        recorder.record_exit(2);
        let mut file = recorder.take_pending();
        file.extend(recorder.save().unwrap());
        let events = decode(format, &file).unwrap();
        assert_eq!(events.last(), Some(&TraceEvent::Exit { code: 2 }));
        let mut playback = Playback::from_file(file, format).unwrap();
        assert_eq!(playback.expect_read(), Ok(()));
        assert_eq!(playback.take_exit(), Some(2));
        assert_eq!(playback.finish(), Ok(()));
    }
}

#[test]
fn well_formed_events_are_told_from_others() {
    assert!(TraceEvent::ClockNow { seconds: 0, nanoseconds: 999_999_999 }.is_well_formed());
    assert!(!TraceEvent::ClockNow { seconds: 0, nanoseconds: 1_000_000_000 }.is_well_formed());
    assert!(!TraceEvent::ClockResolution { seconds: 0, nanoseconds: u32::MAX }.is_well_formed());
    assert!(TraceEvent::MonotonicClockNow { nanoseconds: u64::MAX }.is_well_formed());
    let unsorted = TraceEvent::HttpResponse {
        request_method: "GET".into(),
        request_url: "u".into(),
        request_headers: pairs(&[("b", "1"), ("a", "1")]),
        status: 200,
        headers: vec![],
        body: vec![],
    };
    assert!(!unsorted.is_well_formed());
    for e in one_of_each() {
        assert!(e.is_well_formed());
    }
}
