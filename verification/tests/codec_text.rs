use serde_json::Value;
use wasm_rr::trace::convert::{decode, encode};
use wasm_rr::trace::json::{decode_hex, read_event, read_trace};
use wasm_rr::trace::json_write::{
    encode_hex, stream_preamble, write_event, write_pretty_trace, write_stream_close,
    write_stream_frame,
};
use wasm_rr::trace::{TraceError, TraceEvent, TraceFormat};

fn pairs(items: &[(&str, &str)]) -> Vec<(String, String)> {
    items.iter().map(|(a, b)| (a.to_string(), b.to_string())).collect()
}

fn one_of_each() -> Vec<TraceEvent> {
    vec![
        TraceEvent::ClockNow { seconds: 1_700_000_000, nanoseconds: 123_456_789 },
        TraceEvent::ClockResolution { seconds: 0, nanoseconds: 1 },
        TraceEvent::MonotonicClockNow { nanoseconds: u64::MAX },
        TraceEvent::MonotonicClockResolution { nanoseconds: 1000 },
        TraceEvent::Environment { entries: pairs(&[("HOME", "/root"), ("EMPTY", "")]) },
        TraceEvent::Arguments { args: vec!["prog.wasm".into(), "alpha".into(), "beta".into()] },
        TraceEvent::InitialCwd { path: Some("/work dir/\u{e9}".into()) },
        TraceEvent::InitialCwd { path: None },
        TraceEvent::RandomBytes { bytes: vec![0x01, 0x02, 0x03, 0xff] },
        TraceEvent::InsecureRandomBytes { bytes: vec![0xde, 0xad] },
        TraceEvent::RandomU64 { value: 42 },
        TraceEvent::InsecureRandomU64 { value: 0 },
        TraceEvent::InsecureSeed { seed: (7, 18_446_744_073_709_551_615) },
        TraceEvent::Read,
        TraceEvent::HttpResponse {
            request_method: "GET".into(),
            request_url: "https://example/x".into(),
            request_headers: pairs(&[("accept", "text/plain")]),
            status: 200,
            headers: pairs(&[("content-type", "text/plain"), ("x-quote", "say \"hi\"\\")]),
            body: b"hello".to_vec(),
        },
        TraceEvent::Exit { code: -2 },
    ]
}

fn text(s: &str) -> Value {
    Value::String(s.to_string())
}

fn pair_list(items: &[(String, String)]) -> Value {
    Value::Array(items.iter().map(|(a, b)| Value::Array(vec![text(a), text(b)])).collect())
}

fn hex(bytes: &[u8]) -> Value {
    let mut s = String::new();
    for b in bytes {
        s.push_str(&format!("{:02x}", b));
    }
    Value::String(s)
}

fn object(tag: &str, fields: Vec<(&str, Value)>) -> Value {
    let mut m = serde_json::Map::new();
    m.insert("call".to_string(), text(tag));
    for (k, v) in fields {
        m.insert(k.to_string(), v);
    }
    Value::Object(m)
}

/// What serde gives for an event whose variants are tagged by `call`, with
/// bytes as hexadecimal text.
fn oracle(e: &TraceEvent) -> Value {
    match e {
        TraceEvent::ClockNow { seconds, nanoseconds } => object(
            "clock_now",
            vec![("seconds", Value::from(*seconds)), ("nanoseconds", Value::from(*nanoseconds))],
        ),
        TraceEvent::ClockResolution { seconds, nanoseconds } => object(
            "clock_resolution",
            vec![("seconds", Value::from(*seconds)), ("nanoseconds", Value::from(*nanoseconds))],
        ),
        TraceEvent::MonotonicClockNow { nanoseconds } => {
            object("monotonic_clock_now", vec![("nanoseconds", Value::from(*nanoseconds))])
        }
        TraceEvent::MonotonicClockResolution { nanoseconds } => {
            object("monotonic_clock_resolution", vec![("nanoseconds", Value::from(*nanoseconds))])
        }
        TraceEvent::Environment { entries } => {
            object("environment", vec![("entries", pair_list(entries))])
        }
        TraceEvent::Arguments { args } => object(
            "arguments",
            vec![("args", Value::Array(args.iter().map(|a| text(a)).collect()))],
        ),
        TraceEvent::InitialCwd { path } => object(
            "initial_cwd",
            vec![("path", match path {
                Some(p) => text(p),
                None => Value::Null,
            })],
        ),
        TraceEvent::RandomBytes { bytes } => object("random_bytes", vec![("bytes", hex(bytes))]),
        TraceEvent::InsecureRandomBytes { bytes } => {
            object("insecure_random_bytes", vec![("bytes", hex(bytes))])
        }
        TraceEvent::RandomU64 { value } => object("random_u64", vec![("value", Value::from(*value))]),
        TraceEvent::InsecureRandomU64 { value } => {
            object("insecure_random_u64", vec![("value", Value::from(*value))])
        }
        TraceEvent::InsecureSeed { seed } => object(
            "insecure_seed",
            vec![("seed", Value::Array(vec![Value::from(seed.0), Value::from(seed.1)]))],
        ),
        TraceEvent::Read => object("read", vec![]),
        TraceEvent::HttpResponse { request_method, request_url, request_headers, status, headers, body } => {
            object(
                "http_response",
                vec![
                    ("request_method", text(request_method)),
                    ("request_url", text(request_url)),
                    ("request_headers", pair_list(request_headers)),
                    ("status", Value::from(*status)),
                    ("headers", pair_list(headers)),
                    ("body", hex(body)),
                ],
            )
        }
        TraceEvent::Exit { code } => object("exit", vec![("code", Value::from(*code))]),
    }
}

fn oracle_trace(events: &[TraceEvent]) -> Value {
    let mut m = serde_json::Map::new();
    m.insert("events".to_string(), Value::Array(events.iter().map(oracle).collect()));
    Value::Object(m)
}

fn compact(e: &TraceEvent) -> String {
    let mut out = Vec::new();
    write_event(&mut out, false, 0, e);
    String::from_utf8(out).unwrap()
}

#[test]
fn compact_events_have_the_expected_text() {
    assert_eq!(
        compact(&TraceEvent::ClockNow { seconds: 1_700_000_000, nanoseconds: 123_456_789 }),
        r#"{"call":"clock_now","seconds":1700000000,"nanoseconds":123456789}"#
    );
    assert_eq!(
        compact(&TraceEvent::Environment { entries: pairs(&[("HOME", "/root"), ("PATH", "/bin")]) }),
        r#"{"call":"environment","entries":[["HOME","/root"],["PATH","/bin"]]}"#
    );
    assert_eq!(
        compact(&TraceEvent::Arguments { args: vec!["prog.wasm".into(), "alpha".into()] }),
        r#"{"call":"arguments","args":["prog.wasm","alpha"]}"#
    );
    assert_eq!(compact(&TraceEvent::Arguments { args: vec![] }), r#"{"call":"arguments","args":[]}"#);
    assert_eq!(compact(&TraceEvent::InitialCwd { path: None }), r#"{"call":"initial_cwd","path":null}"#);
    assert_eq!(
        compact(&TraceEvent::RandomBytes { bytes: vec![1, 2, 3] }),
        r#"{"call":"random_bytes","bytes":"010203"}"#
    );
    assert_eq!(compact(&TraceEvent::InsecureSeed { seed: (1, 2) }), r#"{"call":"insecure_seed","seed":[1,2]}"#);
    assert_eq!(compact(&TraceEvent::Read), r#"{"call":"read"}"#);
    assert_eq!(compact(&TraceEvent::Exit { code: 2 }), r#"{"call":"exit","code":2}"#);
    assert_eq!(compact(&TraceEvent::Exit { code: i32::MIN }), r#"{"call":"exit","code":-2147483648}"#);
}

#[test]
fn compact_events_are_what_serde_json_writes() {
    for e in one_of_each() {
        assert_eq!(compact(&e), serde_json::to_string(&oracle(&e)).unwrap());
    }
}

#[test]
fn pretty_trace_is_what_serde_json_writes() {
    let events = one_of_each();
    let ours = String::from_utf8(write_pretty_trace(&events)).unwrap();
    assert_eq!(ours, serde_json::to_string_pretty(&oracle_trace(&events)).unwrap());
}

#[test]
fn pretty_empty_trace_is_what_serde_json_writes() {
    let ours = String::from_utf8(write_pretty_trace(&vec![])).unwrap();
    assert_eq!(ours, "{\n  \"events\": []\n}");
    assert_eq!(ours, serde_json::to_string_pretty(&oracle_trace(&[])).unwrap());
}

#[test]
fn strings_are_escaped_as_serde_json_escapes_them() {
    let nasty = "quote\" back\\ slash/ tab\t nl\n cr\r bs\u{8} ff\u{c} nul\u{0} esc\u{1b} del\u{7f} \u{e9}\u{4e2d}\u{1f600}";
    let e = TraceEvent::Arguments { args: vec![nasty.to_string()] };
    assert_eq!(compact(&e), serde_json::to_string(&oracle(&e)).unwrap());
    let bytes = compact(&e).into_bytes();
    assert_eq!(read_event(&bytes, 0), Some((e, bytes.len())));
}

#[test]
fn what_serde_json_writes_is_read_back() {
    let events = one_of_each();
    let value = oracle_trace(&events);
    let compact = serde_json::to_vec(&value).unwrap();
    let pretty = serde_json::to_vec_pretty(&value).unwrap();
    assert_eq!(read_trace(&compact), Some(events.clone()));
    assert_eq!(read_trace(&pretty), Some(events));
}

#[test]
fn what_is_written_is_read_by_serde_json() {
    let events = one_of_each();
    let bytes = encode(TraceFormat::Json, &events);
    let value: Value = serde_json::from_slice(&bytes).unwrap();
    assert_eq!(value, oracle_trace(&events));
}

fn recording(events: &[TraceEvent], closed: bool) -> Vec<u8> {
    let mut out = stream_preamble();
    let mut first = true;
    for e in events {
        write_stream_frame(&mut out, first, e);
        first = false;
    }
    if closed {
        write_stream_close(&mut out);
    }
    out
}

#[test]
fn a_recording_has_the_streaming_frame() {
    let events = vec![TraceEvent::Read, TraceEvent::Exit { code: 0 }];
    assert_eq!(
        String::from_utf8(recording(&events, true)).unwrap(),
        "{\"events\":[\n{\"call\":\"read\"},\n{\"call\":\"exit\",\"code\":0}\n]}"
    );
    assert_eq!(String::from_utf8(recording(&[], true)).unwrap(), "{\"events\":[\n\n]}");
    assert_eq!(String::from_utf8(stream_preamble()).unwrap(), "{\"events\":[\n");
}

#[test]
fn a_closed_recording_is_valid_json() {
    let events = one_of_each();
    let value: Value = serde_json::from_slice(&recording(&events, true)).unwrap();
    assert_eq!(value, oracle_trace(&events));
}

#[test]
fn a_recording_is_read_back_closed_or_not() {
    let events = one_of_each();
    assert_eq!(read_trace(&recording(&events, true)), Some(events.clone()));
    assert_eq!(read_trace(&recording(&events, false)), Some(events.clone()));
    assert_eq!(read_trace(&recording(&[], false)), Some(vec![]));
    assert_eq!(read_trace(&recording(&[], true)), Some(vec![]));
    for n in 0..events.len() {
        assert_eq!(read_trace(&recording(&events[..n], false)), Some(events[..n].to_vec()));
    }
}

#[test]
fn a_missing_preamble_is_not_tolerated() {
    assert_eq!(read_trace(b""), None);
    assert_eq!(read_trace(b"{\"call\":\"read\"}"), None);
    assert_eq!(read_trace(b"{\"events\":"), None);
    assert_eq!(decode(TraceFormat::Json, b""), Err(TraceError::InvalidJson));
}

#[test]
fn malformed_text_is_refused() {
    let bad: Vec<&[u8]> = vec![
        b"{\"events\":[{\"call\":\"read\"},]}",
        b"{\"events\":[,{\"call\":\"read\"}]}",
        b"{\"events\":[{\"call\":\"read\"}] }x",
        b"{\"events\":[{\"call\":\"read\"}]",
        b"{\"events\":[{\"call\":\"read\"",
        b"{\"events\":[{\"call\":\"nope\"}]}",
        b"{\"events\":[{\"call\":\"exit\",\"code\":01}]}",
        b"{\"events\":[{\"call\":\"exit\",\"code\":2147483648}]}",
        b"{\"events\":[{\"call\":\"exit\",\"code\":-2147483649}]}",
        b"{\"events\":[{\"call\":\"exit\",\"code\":-0}]}",
        b"{\"events\":[{\"call\":\"exit\",\"code\":1.0}]}",
        b"{\"events\":[{\"call\":\"exit\",\"kode\":1}]}",
        b"{\"events\":[{\"call\":\"exit\"}]}",
        b"{\"events\":[{\"call\":\"read\",\"extra\":1}]}",
        b"{\"events\":[{\"call\":\"random_u64\",\"value\":18446744073709551616}]}",
        b"{\"events\":[{\"call\":\"clock_now\",\"seconds\":1,\"nanoseconds\":4294967296}]}",
        b"{\"events\":[{\"call\":\"random_bytes\",\"bytes\":\"abc\"}]}",
        b"{\"events\":[{\"call\":\"random_bytes\",\"bytes\":\"zz\"}]}",
        b"{\"events\":[{\"call\":\"arguments\",\"args\":[\"a\",]}]}",
        b"{\"events\":[{\"call\":\"arguments\",\"args\":[\"a\nb\"]}]}",
        b"{\"events\":[{\"call\":\"arguments\",\"args\":[\"\\x\"]}]}",
        b"{\"events\":[{\"call\":\"arguments\",\"args\":[\"\\ud800\"]}]}",
        b"{\"events\":[{\"call\":\"arguments\",\"args\":[\"\\udc00\"]}]}",
        b"{\"events\":[{\"call\":\"arguments\",\"args\":[\"\xff\"]}]}",
        b"{\"events\":[{\"call\":\"environment\",\"entries\":[[\"a\"]]}]}",
        b"{\"events\":[{\"call\":\"environment\",\"entries\":[[\"a\",\"b\",\"c\"]]}]}",
    ];
    for text in bad {
        assert_eq!(read_trace(text), None, "{}", String::from_utf8_lossy(text));
    }
}

#[test]
fn white_space_and_escapes_are_read() {
    let text = b" \t\r\n{ \"events\" : [ { \"call\" : \"arguments\" , \"args\" : [ \"\\u0041\\u00e9\\ud83d\\ude00\\/\" , \"b\" ] } , {\"call\":\"random_bytes\",\"bytes\":\"DEadBEef\"} ] } \n";
    assert_eq!(
        read_trace(text),
        Some(vec![
            TraceEvent::Arguments { args: vec!["A\u{e9}\u{1f600}/".to_string(), "b".to_string()] },
            TraceEvent::RandomBytes { bytes: vec![0xde, 0xad, 0xbe, 0xef] },
        ])
    );
}

#[test]
fn hexadecimal_text_round_trips() {
    let all: Vec<u8> = (0..=255).collect();
    let text = encode_hex(&all);
    assert_eq!(text.len(), 512);
    assert_eq!(&text[..8], b"00010203");
    assert_eq!(&text[510..], b"ff");
    assert_eq!(decode_hex(&text), Some(all));
    assert_eq!(decode_hex(b"0"), None);
    assert_eq!(decode_hex(b"0g"), None);
    assert_eq!(decode_hex(b""), Some(vec![]));
    assert_eq!(decode_hex(b"Ff"), Some(vec![255]));
}

#[test]
fn every_event_round_trips_through_text() {
    for e in one_of_each() {
        let bytes = compact(&e).into_bytes();
        assert_eq!(read_event(&bytes, 0), Some((e.clone(), bytes.len())));
        let mut pretty = Vec::new();
        write_event(&mut pretty, true, 3, &e);
        assert_eq!(read_event(&pretty, 0), Some((e, pretty.len())));
    }
}
