use wasm_rr::playback::Playback;
use wasm_rr::recorder::{RecordError, Recorder};
use wasm_rr::trace::convert::decode;
use wasm_rr::trace::event::Datetime;
use wasm_rr::trace::{TraceEvent, TraceFormat};

fn pairs(items: &[(&str, &str)]) -> Vec<(String, String)> {
    items.iter().map(|(a, b)| (a.to_string(), b.to_string())).collect()
}

fn record_all(r: &mut Recorder) -> Vec<TraceEvent> {
    r.record_now(&Datetime { seconds: 1_700_000_000, nanoseconds: 123_456_789 });
    r.record_resolution(&Datetime { seconds: 0, nanoseconds: 1 });
    r.record_monotonic_now(5);
    r.record_monotonic_resolution(6);
    r.record_environment(pairs(&[("A", "B")]));
    r.record_arguments(vec!["prog.wasm".into(), "alpha".into(), "beta".into()]);
    r.record_initial_cwd(None);
    r.record_random_bytes(vec![1, 2, 3]);
    r.record_insecure_random_bytes(vec![4]);
    r.record_random_u64(7);
    r.record_insecure_random_u64(8);
    r.record_insecure_seed((9, 10));
    r.record_filesystem_read();
    r.record_http_response(
        "GET".into(),
        "https://example/x".into(),
        pairs(&[("accept", "text/plain")]),
        200,
        pairs(&[("content-type", "text/plain")]),
        b"hello".to_vec(),
    );
    r.record_exit(2);
    vec![
        TraceEvent::ClockNow { seconds: 1_700_000_000, nanoseconds: 123_456_789 },
        TraceEvent::ClockResolution { seconds: 0, nanoseconds: 1 },
        TraceEvent::MonotonicClockNow { nanoseconds: 5 },
        TraceEvent::MonotonicClockResolution { nanoseconds: 6 },
        TraceEvent::Environment { entries: pairs(&[("A", "B")]) },
        TraceEvent::Arguments { args: vec!["prog.wasm".into(), "alpha".into(), "beta".into()] },
        TraceEvent::InitialCwd { path: None },
        TraceEvent::RandomBytes { bytes: vec![1, 2, 3] },
        TraceEvent::InsecureRandomBytes { bytes: vec![4] },
        TraceEvent::RandomU64 { value: 7 },
        TraceEvent::InsecureRandomU64 { value: 8 },
        TraceEvent::InsecureSeed { seed: (9, 10) },
        TraceEvent::Read,
        TraceEvent::HttpResponse {
            request_method: "GET".into(),
            request_url: "https://example/x".into(),
            request_headers: pairs(&[("accept", "text/plain")]),
            status: 200,
            headers: pairs(&[("content-type", "text/plain")]),
            body: b"hello".to_vec(),
        },
        TraceEvent::Exit { code: 2 },
    ]
}

#[test]
fn a_text_recording_starts_with_its_preamble() {
    let mut r = Recorder::new(TraceFormat::Json);
    assert_eq!(r.take_pending(), b"{\"events\":[\n".to_vec());
    assert_eq!(r.take_pending(), Vec::<u8>::new());
    assert_eq!(r.save(), Ok(b"\n]}".to_vec()));
}

#[test]
fn a_binary_recording_has_no_framing() {
    let mut r = Recorder::new(TraceFormat::Cbor);
    assert_eq!(r.take_pending(), Vec::<u8>::new());
    r.record(TraceEvent::Read);
    assert_eq!(r.take_pending(), vec![0xa1, 0x64, b'c', b'a', b'l', b'l', 0x64, b'r', b'e', b'a', b'd']);
    assert_eq!(r.save(), Ok(vec![]));
}

#[test]
fn events_are_separated_by_a_comma_and_a_line_feed() {
    let mut r = Recorder::new(TraceFormat::Json);
    r.take_pending();
    r.record(TraceEvent::Read);
    assert_eq!(r.take_pending(), b"{\"call\":\"read\"}".to_vec());
    r.record(TraceEvent::Exit { code: 0 });
    assert_eq!(r.take_pending(), b",\n{\"call\":\"exit\",\"code\":0}".to_vec());
}

#[test]
fn what_is_recorded_is_read_back_in_order() {
    for format in [TraceFormat::Json, TraceFormat::Cbor] {
        let mut r = Recorder::new(format);
        let mut file = r.take_pending();
        let events = record_all(&mut r);
        file.extend(r.take_pending());
        assert_eq!(Playback::from_file(file.clone(), format).unwrap().next_event(), Ok(events[0].clone()));
        assert_eq!(decode(format, &file), Ok(events.clone()));
        file.extend(r.save().unwrap());
        assert_eq!(decode(format, &file), Ok(events));
    }
}

#[test]
fn every_prefix_of_a_recording_is_a_trace() {
    for format in [TraceFormat::Json, TraceFormat::Cbor] {
        let mut probe = Recorder::new(format);
        let events = record_all(&mut probe);
        let mut r = Recorder::new(format);
        let mut file = r.take_pending();
        assert_eq!(decode(format, &file), Ok(vec![]));
        for (n, e) in events.iter().enumerate() {
            r.record(e.clone());
            file.extend(r.take_pending());
            assert_eq!(decode(format, &file), Ok(events[..n + 1].to_vec()));
        }
    }
}

#[test]
fn the_first_failure_sticks() {
    let mut r = Recorder::new(TraceFormat::Json);
    r.take_pending();
    r.record(TraceEvent::Read);
    r.fail(RecordError { message: "disk full".into() });
    r.fail(RecordError { message: "later".into() });
    r.take_pending();
    r.record(TraceEvent::Exit { code: 1 });
    assert_eq!(r.take_pending(), Vec::<u8>::new());
    assert_eq!(r.save(), Err(RecordError { message: "disk full".into() }));
}
