use wasm_rr::playback::{Playback, RecordedHttpRequest, RecordedHttpResponse, ReplayError};
use wasm_rr::trace::cbor::write_events;
use wasm_rr::trace::event::{Datetime, EventKind};
use wasm_rr::trace::{TraceError, TraceEvent, TraceFormat};

fn pairs(items: &[(&str, &str)]) -> Vec<(String, String)> {
    items.iter().map(|(a, b)| (a.to_string(), b.to_string())).collect()
}

fn http_event() -> TraceEvent {
    TraceEvent::HttpResponse {
        request_method: "GET".into(),
        request_url: "https://example/x".into(),
        request_headers: pairs(&[("accept", "text/plain")]),
        status: 200,
        headers: pairs(&[("content-type", "text/plain")]),
        body: b"hello".to_vec(),
    }
}

#[test]
fn events_come_back_in_their_order() {
    let events = vec![
        TraceEvent::ClockNow { seconds: 1, nanoseconds: 2 },
        TraceEvent::Read,
        TraceEvent::RandomU64 { value: 3 },
    ];
    let mut p = Playback::from_events(events.clone());
    assert_eq!(p.next_event(), Ok(events[0].clone()));
    assert_eq!(p.next_event(), Ok(events[1].clone()));
    assert_eq!(p.next_event(), Ok(events[2].clone()));
    assert_eq!(p.next_event(), Err(ReplayError::TraceExhausted));
    assert_eq!(p.next_event(), Err(ReplayError::TraceExhausted));
}

#[test]
fn every_accessor_gives_its_payload() {
    let mut p = Playback::from_events(vec![
        TraceEvent::ClockNow { seconds: 1_700_000_000, nanoseconds: 123_456_789 },
        TraceEvent::ClockResolution { seconds: 0, nanoseconds: 1 },
        TraceEvent::MonotonicClockNow { nanoseconds: 5 },
        TraceEvent::MonotonicClockResolution { nanoseconds: 6 },
        TraceEvent::Environment { entries: pairs(&[("A", "B")]) },
        TraceEvent::Arguments { args: vec!["prog.wasm".into()] },
        TraceEvent::InitialCwd { path: Some("/".into()) },
        TraceEvent::RandomBytes { bytes: vec![1, 2, 3] },
        TraceEvent::InsecureRandomBytes { bytes: vec![4] },
        TraceEvent::RandomU64 { value: 7 },
        TraceEvent::InsecureRandomU64 { value: 8 },
        TraceEvent::InsecureSeed { seed: (9, 10) },
        TraceEvent::Read,
        http_event(),
        TraceEvent::Exit { code: 2 },
    ]);
    assert_eq!(p.next_now(), Ok(Datetime { seconds: 1_700_000_000, nanoseconds: 123_456_789 }));
    assert_eq!(p.next_resolution(), Ok(Datetime { seconds: 0, nanoseconds: 1 }));
    assert_eq!(p.next_monotonic_now(), Ok(5));
    assert_eq!(p.next_monotonic_resolution(), Ok(6));
    assert_eq!(p.next_environment(), Ok(pairs(&[("A", "B")])));
    assert_eq!(p.next_arguments(), Ok(vec!["prog.wasm".to_string()]));
    assert_eq!(p.next_initial_cwd(), Ok(Some("/".to_string())));
    assert_eq!(p.next_random_bytes(3), Ok(vec![1, 2, 3]));
    assert_eq!(p.next_insecure_random_bytes(1), Ok(vec![4]));
    assert_eq!(p.next_random_u64(), Ok(7));
    assert_eq!(p.next_insecure_random_u64(), Ok(8));
    assert_eq!(p.next_insecure_seed(), Ok((9, 10)));
    assert_eq!(p.expect_read(), Ok(()));
    assert_eq!(
        p.next_http_response(),
        Ok((
            RecordedHttpRequest {
                method: "GET".into(),
                url: "https://example/x".into(),
                headers: pairs(&[("accept", "text/plain")]),
            },
            RecordedHttpResponse {
                status: 200,
                headers: pairs(&[("content-type", "text/plain")]),
                body: b"hello".to_vec(),
            },
        ))
    );
    assert_eq!(p.next_exit(), Ok(2));
    assert_eq!(p.finish(), Ok(()));
}

#[test]
fn another_kind_than_expected_is_a_divergence() {
    let mut p = Playback::from_events(vec![TraceEvent::RandomU64 { value: 1 }, TraceEvent::Read]);
    assert_eq!(
        p.next_now(),
        Err(ReplayError::UnexpectedEventKind { expected: EventKind::ClockNow, got: EventKind::RandomU64 })
    );
    assert_eq!(
        p.next_arguments(),
        Err(ReplayError::UnexpectedEventKind { expected: EventKind::Arguments, got: EventKind::Read })
    );
    assert_eq!(p.next_environment(), Err(ReplayError::TraceExhausted));
    assert_eq!(p.expect_read(), Err(ReplayError::TraceExhausted));
}

#[test]
fn random_bytes_of_another_length_are_a_divergence() {
    let mut p = Playback::from_events(vec![TraceEvent::RandomBytes { bytes: vec![0x01, 0x02, 0x03] }]);
    assert_eq!(p.next_random_bytes(4), Err(ReplayError::RandomLengthMismatch { expected: 4, got: 3 }));
    let mut p = Playback::from_events(vec![TraceEvent::InsecureRandomBytes { bytes: vec![] }]);
    assert_eq!(p.next_insecure_random_bytes(1), Err(ReplayError::RandomLengthMismatch { expected: 1, got: 0 }));
    let mut p = Playback::from_events(vec![TraceEvent::RandomBytes { bytes: vec![] }]);
    assert_eq!(p.next_random_bytes(0), Ok(vec![]));
}

#[test]
fn finish_skips_read_markers_only() {
    assert_eq!(Playback::from_events(vec![]).finish(), Ok(()));
    assert_eq!(Playback::from_events(vec![TraceEvent::Read, TraceEvent::Read]).finish(), Ok(()));
    assert_eq!(
        Playback::from_events(vec![TraceEvent::Read, TraceEvent::Exit { code: 0 }, TraceEvent::Read]).finish(),
        Err(ReplayError::UnusedEvents { first: EventKind::Exit })
    );
    assert_eq!(
        Playback::from_events(vec![TraceEvent::RandomU64 { value: 1 }]).finish(),
        Err(ReplayError::UnusedEvents { first: EventKind::RandomU64 })
    );
}

#[test]
fn a_request_is_held_against_the_recorded_one() {
    let sent = pairs(&[("accept", "text/plain")]);
    let mut p = Playback::from_events(vec![http_event()]);
    assert_eq!(
        p.replay_http_request("GET", "https://example/x", &sent),
        Ok(RecordedHttpResponse {
            status: 200,
            headers: pairs(&[("content-type", "text/plain")]),
            body: b"hello".to_vec(),
        })
    );
    let mut p = Playback::from_events(vec![http_event()]);
    assert_eq!(
        p.replay_http_request("GET", "https://example/x", &pairs(&[("accept", "application/json")])),
        Err(ReplayError::HttpHeadersMismatch)
    );
    let mut p = Playback::from_events(vec![http_event()]);
    assert_eq!(
        p.replay_http_request("POST", "https://example/x", &sent),
        Err(ReplayError::HttpRequestMismatch {
            expected_method: "GET".into(),
            expected_url: "https://example/x".into(),
        })
    );
    let mut p = Playback::from_events(vec![http_event()]);
    assert_eq!(
        p.replay_http_request("GET", "https://example/y", &sent),
        Err(ReplayError::HttpRequestMismatch {
            expected_method: "GET".into(),
            expected_url: "https://example/x".into(),
        })
    );
    let mut p = Playback::from_events(vec![TraceEvent::Read]);
    assert_eq!(
        p.replay_http_request("GET", "https://example/x", &sent),
        Err(ReplayError::UnexpectedEventKind { expected: EventKind::HttpResponse, got: EventKind::Read })
    );
}

#[test]
fn an_exit_is_taken_only_where_it_is_next() {
    let mut p = Playback::from_events(vec![TraceEvent::Read, TraceEvent::Exit { code: 2 }]);
    assert_eq!(p.take_exit(), None);
    assert_eq!(p.expect_read(), Ok(()));
    assert_eq!(p.take_exit(), Some(2));
    assert_eq!(p.take_exit(), None);
    assert_eq!(p.finish(), Ok(()));
}

fn binary(events: &Vec<TraceEvent>) -> Vec<u8> {
    let mut out = Vec::new();
    write_events(&mut out, events);
    out
}

#[test]
fn a_binary_trace_is_read_on_demand() {
    let events = vec![TraceEvent::RandomU64 { value: 1 }, TraceEvent::Exit { code: 3 }];
    let mut bytes = binary(&events);
    bytes.push(0x00);
    let mut p = Playback::from_file(bytes, TraceFormat::Cbor).unwrap();
    assert_eq!(p.next_random_u64(), Ok(1));
    assert_eq!(p.take_exit(), Some(3));
    assert_eq!(p.take_exit(), None);
    assert_eq!(p.next_event(), Err(ReplayError::CorruptTrace));
    assert_eq!(p.finish(), Err(ReplayError::CorruptTrace));
}

#[test]
fn a_binary_trace_ends_where_its_bytes_end() {
    let events = vec![TraceEvent::Read, TraceEvent::Read];
    let mut bytes = binary(&events);
    bytes.extend([0xa2, 0x64, b'c']);
    let mut p = Playback::from_file(bytes, TraceFormat::Cbor).unwrap();
    assert_eq!(p.expect_read(), Ok(()));
    assert_eq!(p.finish(), Ok(()));
}

#[test]
fn a_text_trace_is_read_at_once() {
    let text = b"{\"events\":[\n{\"call\":\"random_u64\",\"value\":9},\n{\"call\":\"read\"}\n]}".to_vec();
    let mut p = Playback::from_file(text, TraceFormat::Json).unwrap();
    assert_eq!(p.next_random_u64(), Ok(9));
    assert_eq!(p.finish(), Ok(()));
    assert!(matches!(
        Playback::from_file(b"{\"events\":[{\"call\":\"nope\"}]}".to_vec(), TraceFormat::Json),
        Err(TraceError::InvalidJson)
    ));
}
