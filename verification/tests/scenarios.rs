use hyper::header::{HeaderName, HeaderValue};
use hyper::HeaderMap;
use wasm_rr::engine::guest_arguments;
use wasm_rr::playback::ReplayError;
use wasm_rr::trace::convert::decode;
use wasm_rr::wasi::http::{record_exchange, replay_exchange, ShimError, BETWEEN_BYTES_TIMEOUT_SECS};
use wasm_rr::wasi::util::sorted_headers;
use wasm_rr::{Playback, Recorder, TraceEvent, TraceFormat};

fn headers(items: &[(&str, &str)]) -> HeaderMap {
    let mut map = HeaderMap::new();
    for (name, value) in items {
        map.append(HeaderName::from_bytes(name.as_bytes()).unwrap(), HeaderValue::from_str(value).unwrap());
    }
    map
}

#[test]
fn argument_forwarding() {
    let seen = guest_arguments("prog.wasm", &vec!["alpha".to_string(), "beta".to_string()]);
    assert_eq!(seen, vec!["prog.wasm".to_string(), "alpha".to_string(), "beta".to_string()]);
    let mut recorder = Recorder::new(TraceFormat::Json);
    recorder.record_arguments(seen.clone());
    let mut file = recorder.take_pending();
    file.extend(recorder.save().unwrap());
    assert_eq!(decode(TraceFormat::Json, &file), Ok(vec![TraceEvent::Arguments { args: seen.clone() }]));
    let mut playback = Playback::from_file(file, TraceFormat::Json).unwrap();
    assert_eq!(playback.next_arguments(), Ok(seen));
    assert_eq!(playback.finish(), Ok(()));
}

#[test]
fn http_round_trip() {
    for format in [TraceFormat::Json, TraceFormat::Cbor] {
        let request = headers(&[("Accept", "text/plain")]);
        let response = headers(&[("Content-Type", "text/plain")]);
        let mut recorder = Recorder::new(format);
        let sent = sorted_headers(&request).unwrap();
        assert_eq!(sent, vec![("accept".to_string(), "text/plain".to_string())]);
        record_exchange(
            &mut recorder,
            "GET".to_string(),
            "https://example/x".to_string(),
            sent,
            200,
            &response,
            b"hello".to_vec(),
        )
        .unwrap();
        let mut file = recorder.take_pending();
        file.extend(recorder.save().unwrap());
        assert_eq!(
            decode(format, &file),
            Ok(vec![TraceEvent::HttpResponse {
                request_method: "GET".to_string(),
                request_url: "https://example/x".to_string(),
                request_headers: vec![("accept".to_string(), "text/plain".to_string())],
                status: 200,
                headers: vec![("content-type".to_string(), "text/plain".to_string())],
                body: b"hello".to_vec(),
            }])
        );

        let mut playback = Playback::from_file(file.clone(), format).unwrap();
        let replayed = replay_exchange(&mut playback, "GET", "https://example/x", &request).ok().unwrap();
        assert_eq!(replayed.status, 200);
        assert_eq!(replayed.body, b"hello".to_vec());
        assert_eq!(replayed.headers, response);
        assert_eq!(playback.finish(), Ok(()));

        let mut playback = Playback::from_file(file, format).unwrap();
        let other = headers(&[("Accept", "application/json")]);
        assert_eq!(
            replay_exchange(&mut playback, "GET", "https://example/x", &other).err(),
            Some(ShimError::Replay(ReplayError::HttpHeadersMismatch))
        );
    }
    assert_eq!(BETWEEN_BYTES_TIMEOUT_SECS, 600);
}

#[test]
fn random_bytes_mismatch() {
    let mut playback = Playback::from_events(vec![TraceEvent::RandomBytes { bytes: vec![0x01, 0x02, 0x03] }]);
    assert_eq!(playback.next_random_bytes(4), Err(ReplayError::RandomLengthMismatch { expected: 4, got: 3 }));
}
