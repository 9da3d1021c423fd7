use ciborium::Value;
use wasm_rr::cbor_util::is_cbor_eof;
use wasm_rr::trace::cbor::{
    read_event, read_events, read_head, write_event, write_events, write_head, CborError,
};
use wasm_rr::trace::convert::{decode, encode};
use wasm_rr::trace::{TraceError, TraceEvent, TraceFormat};

fn pairs(items: &[(&str, &str)]) -> Vec<(String, String)> {
    items.iter().map(|(a, b)| (a.to_string(), b.to_string())).collect()
}

fn one_of_each() -> Vec<TraceEvent> {
    vec![
        TraceEvent::ClockNow { seconds: 1_700_000_000, nanoseconds: 123_456_789 },
        TraceEvent::ClockResolution { seconds: 0, nanoseconds: 1 },
        TraceEvent::MonotonicClockNow { nanoseconds: u64::MAX },
        TraceEvent::MonotonicClockResolution { nanoseconds: 1000 },
        TraceEvent::Environment { entries: pairs(&[("HOME", "/root"), ("EMPTY", "")]) },
        TraceEvent::Arguments { args: vec!["prog.wasm".into(), "alpha".into(), "beta".into()] },
        TraceEvent::InitialCwd { path: Some("/work dir/\u{e9}".into()) },
        TraceEvent::InitialCwd { path: None },
        TraceEvent::RandomBytes { bytes: vec![0x01, 0x02, 0x03, 0xff] },
        TraceEvent::InsecureRandomBytes { bytes: (0..=255).collect() },
        TraceEvent::RandomU64 { value: 42 },
        TraceEvent::InsecureRandomU64 { value: 0 },
        TraceEvent::InsecureSeed { seed: (7, 18_446_744_073_709_551_615) },
        TraceEvent::Read,
        TraceEvent::HttpResponse {
            request_method: "GET".into(),
            request_url: "https://example/x".into(),
            request_headers: pairs(&[("accept", "text/plain")]),
            status: 200,
            headers: pairs(&[("content-type", "text/plain")]),
            body: b"hello".to_vec(),
        },
        TraceEvent::Exit { code: -2 },
        TraceEvent::Exit { code: i32::MIN },
        TraceEvent::Exit { code: i32::MAX },
    ]
}

fn text(s: &str) -> Value {
    Value::Text(s.to_string())
}

fn uint(n: u64) -> Value {
    Value::Integer(n.into())
}

fn pair_list(items: &[(String, String)]) -> Value {
    Value::Array(items.iter().map(|(a, b)| Value::Array(vec![text(a), text(b)])).collect())
}

fn map(tag: &str, fields: Vec<(&str, Value)>) -> Value {
    let mut entries = vec![(text("call"), text(tag))];
    for (k, v) in fields {
        entries.push((text(k), v));
    }
    Value::Map(entries)
}

/// What serde gives for an event whose variants are tagged by `call`, with
/// bytes as byte strings.
fn oracle(e: &TraceEvent) -> Value {
    match e {
        TraceEvent::ClockNow { seconds, nanoseconds } => {
            map("clock_now", vec![("seconds", uint(*seconds)), ("nanoseconds", uint(*nanoseconds as u64))])
        }
        TraceEvent::ClockResolution { seconds, nanoseconds } => map(
            "clock_resolution",
            vec![("seconds", uint(*seconds)), ("nanoseconds", uint(*nanoseconds as u64))],
        ),
        TraceEvent::MonotonicClockNow { nanoseconds } => {
            map("monotonic_clock_now", vec![("nanoseconds", uint(*nanoseconds))])
        }
        TraceEvent::MonotonicClockResolution { nanoseconds } => {
            map("monotonic_clock_resolution", vec![("nanoseconds", uint(*nanoseconds))])
        }
        TraceEvent::Environment { entries } => map("environment", vec![("entries", pair_list(entries))]),
        TraceEvent::Arguments { args } => {
            map("arguments", vec![("args", Value::Array(args.iter().map(|a| text(a)).collect()))])
        }
        TraceEvent::InitialCwd { path } => map(
            "initial_cwd",
            vec![("path", match path {
                Some(p) => text(p),
                None => Value::Null,
            })],
        ),
        TraceEvent::RandomBytes { bytes } => map("random_bytes", vec![("bytes", Value::Bytes(bytes.clone()))]),
        TraceEvent::InsecureRandomBytes { bytes } => {
            map("insecure_random_bytes", vec![("bytes", Value::Bytes(bytes.clone()))])
        }
        TraceEvent::RandomU64 { value } => map("random_u64", vec![("value", uint(*value))]),
        TraceEvent::InsecureRandomU64 { value } => map("insecure_random_u64", vec![("value", uint(*value))]),
        TraceEvent::InsecureSeed { seed } => {
            map("insecure_seed", vec![("seed", Value::Array(vec![uint(seed.0), uint(seed.1)]))])
        }
        TraceEvent::Read => map("read", vec![]),
        TraceEvent::HttpResponse { request_method, request_url, request_headers, status, headers, body } => map(
            "http_response",
            vec![
                ("request_method", text(request_method)),
                ("request_url", text(request_url)),
                ("request_headers", pair_list(request_headers)),
                ("status", uint(*status as u64)),
                ("headers", pair_list(headers)),
                ("body", Value::Bytes(body.clone())),
            ],
        ),
        TraceEvent::Exit { code } => map("exit", vec![("code", Value::Integer((*code).into()))]),
    }
}

fn by_ciborium(v: &Value) -> Vec<u8> {
    let mut out = Vec::new();
    ciborium::into_writer(v, &mut out).unwrap();
    out
}

fn ours(e: &TraceEvent) -> Vec<u8> {
    let mut out = Vec::new();
    write_event(&mut out, e);
    out
}

#[test]
fn events_have_the_expected_bytes() {
    assert_eq!(ours(&TraceEvent::Read), vec![0xa1, 0x64, b'c', b'a', b'l', b'l', 0x64, b'r', b'e', b'a', b'd']);
    assert_eq!(
        ours(&TraceEvent::Exit { code: 2 }),
        vec![0xa2, 0x64, b'c', b'a', b'l', b'l', 0x64, b'e', b'x', b'i', b't', 0x64, b'c', b'o', b'd', b'e', 0x02]
    );
    assert_eq!(
        ours(&TraceEvent::Exit { code: -1 }),
        vec![0xa2, 0x64, b'c', b'a', b'l', b'l', 0x64, b'e', b'x', b'i', b't', 0x64, b'c', b'o', b'd', b'e', 0x20]
    );
    let bytes = ours(&TraceEvent::RandomBytes { bytes: vec![1, 2, 3] });
    assert_eq!(&bytes[bytes.len() - 4..], &[0x43, 1, 2, 3]);
    let none = ours(&TraceEvent::InitialCwd { path: None });
    assert_eq!(none[none.len() - 1], 0xf6);
}

#[test]
fn heads_take_the_shortest_form() {
    let cases: Vec<(u64, Vec<u8>)> = vec![
        (0, vec![0x00]),
        (23, vec![0x17]),
        (24, vec![0x18, 24]),
        (255, vec![0x18, 255]),
        (256, vec![0x19, 1, 0]),
        (65535, vec![0x19, 255, 255]),
        (65536, vec![0x1a, 0, 1, 0, 0]),
        (4294967295, vec![0x1a, 255, 255, 255, 255]),
        (4294967296, vec![0x1b, 0, 0, 0, 1, 0, 0, 0, 0]),
        (u64::MAX, vec![0x1b, 255, 255, 255, 255, 255, 255, 255, 255]),
    ];
    for (n, expected) in cases {
        let mut out = Vec::new();
        write_head(&mut out, 0, n);
        assert_eq!(out, expected);
        assert_eq!(read_head(&out, 0), Ok((0, n, out.len())));
        assert_eq!(out, by_ciborium(&uint(n)));
    }
    let mut out = Vec::new();
    write_head(&mut out, 5, 3);
    assert_eq!(out, vec![0xa3]);
}

#[test]
fn events_are_what_ciborium_writes() {
    for e in one_of_each() {
        assert_eq!(ours(&e), by_ciborium(&oracle(&e)), "{:?}", e);
    }
}

#[test]
fn what_ciborium_writes_is_read_back() {
    let events = one_of_each();
    let mut bytes = Vec::new();
    for e in &events {
        bytes.extend(by_ciborium(&oracle(e)));
    }
    assert_eq!(read_events(&bytes), Ok(events));
}

#[test]
fn what_is_written_is_read_by_ciborium() {
    let events = one_of_each();
    let bytes = encode(TraceFormat::Cbor, &events);
    let mut rest: &[u8] = &bytes;
    for e in &events {
        let v: Value = ciborium::from_reader(&mut rest).unwrap();
        assert_eq!(v, oracle(e));
    }
    assert!(rest.is_empty());
}

#[test]
fn every_event_round_trips_through_binary() {
    for e in one_of_each() {
        let bytes = ours(&e);
        assert_eq!(read_event(&bytes, 0), Ok((e, bytes.len())));
    }
}

#[test]
fn a_trace_round_trips_through_binary() {
    let events = one_of_each();
    let mut bytes = Vec::new();
    write_events(&mut bytes, &events);
    assert_eq!(read_events(&bytes), Ok(events));
    assert_eq!(read_events(&[]), Ok(vec![]));
}

#[test]
fn a_trace_cut_short_ends_at_its_last_whole_event() {
    let events = one_of_each();
    let mut bytes = Vec::new();
    write_events(&mut bytes, &events[..3].to_vec());
    let whole = bytes.len();
    write_event(&mut bytes, &events[14]);
    for cut in whole..bytes.len() {
        assert_eq!(read_events(&bytes[..cut]), Ok(events[..3].to_vec()), "cut at {}", cut);
    }
}

#[test]
fn truncated_and_malformed_are_told_apart() {
    let bytes = ours(&TraceEvent::Exit { code: 2 });
    assert_eq!(read_event(&bytes[..5], 0), Err(CborError::Truncated));
    assert_eq!(read_event(&[], 0), Err(CborError::Truncated));
    assert_eq!(read_event(&[0x00], 0), Err(CborError::Malformed));
    assert_eq!(read_event(&[0xa1, 0x64, b'c', b'a', b'l', b'l', 0x64, b'n', b'o', b'p', b'e'], 0), Err(CborError::Malformed));
    assert_eq!(read_event(&[0xa2, 0x64, b'c', b'a', b'l', b'l', 0x64, b'r', b'e', b'a', b'd'], 0), Err(CborError::Malformed));
    assert_eq!(read_event(&[0xbf], 0), Err(CborError::Malformed));
    let mut wrong_value = ours(&TraceEvent::Exit { code: 2 });
    let last = wrong_value.len() - 1;
    wrong_value[last] = 0x60;
    assert_eq!(read_event(&wrong_value, 0), Err(CborError::Malformed));
    let mut bad_text = ours(&TraceEvent::Arguments { args: vec!["a".into()] });
    let last = bad_text.len() - 1;
    bad_text[last] = 0xff;
    assert_eq!(read_event(&bad_text, 0), Err(CborError::Malformed));
    assert!(is_cbor_eof(&CborError::Truncated));
    assert!(!is_cbor_eof(&CborError::Malformed));
}

#[test]
fn corrupt_bytes_behind_events_are_refused() {
    let mut bytes = ours(&TraceEvent::Read);
    bytes.push(0x00);
    assert_eq!(read_events(&bytes), Err(CborError::Malformed));
    assert_eq!(decode(TraceFormat::Cbor, &bytes), Err(TraceError::InvalidCbor));
}

#[test]
fn out_of_range_numbers_are_refused() {
    let mut e = vec![0xa3, 0x64, b'c', b'a', b'l', b'l', 0x69];
    e.extend(b"clock_now");
    e.push(0x67);
    e.extend(b"seconds");
    e.push(0x01);
    e.push(0x6b);
    e.extend(b"nanoseconds");
    let mut ok = e.clone();
    ok.extend([0x1a, 0xff, 0xff, 0xff, 0xff]);
    assert_eq!(read_event(&ok, 0), Ok((TraceEvent::ClockNow { seconds: 1, nanoseconds: u32::MAX }, ok.len())));
    let mut too_big = e.clone();
    too_big.extend([0x1b, 0, 0, 0, 1, 0, 0, 0, 0]);
    assert_eq!(read_event(&too_big, 0), Err(CborError::Malformed));
}
