use hyper::header::{HeaderName, HeaderValue};
use hyper::HeaderMap;
use wasm_rr::playback::{Playback, ReplayError};
use wasm_rr::recorder::Recorder;
use wasm_rr::trace::convert::decode;
use wasm_rr::trace::order::{insert_sorted, is_bytes_less, is_pair_less, is_sorted, sort_pairs};
use wasm_rr::trace::{TraceEvent, TraceFormat};
use wasm_rr::wasi::http::{record_exchange, replay_exchange, ShimError};
use wasm_rr::wasi::util::{
    header_map_from_pairs, sorted_headers, sorted_pairs, visible_text, HeaderError, MAP_ROOM,
};

fn pairs(items: &[(&str, &str)]) -> Vec<(String, String)> {
    items.iter().map(|(a, b)| (a.to_string(), b.to_string())).collect()
}

fn map_of(items: &[(&str, &[u8])]) -> HeaderMap {
    let mut map = HeaderMap::new();
    for (name, value) in items {
        map.append(HeaderName::from_bytes(name.as_bytes()).unwrap(), HeaderValue::from_bytes(value).unwrap());
    }
    map
}

#[test]
fn headers_are_sorted_by_name_and_value() {
    let map = map_of(&[("X-B", b"2"), ("Accept", b"text/plain"), ("x-b", b"1"), ("Content-Type", b"a")]);
    assert_eq!(
        sorted_headers(&map),
        Ok(pairs(&[("accept", "text/plain"), ("content-type", "a"), ("x-b", "1"), ("x-b", "2")]))
    );
    assert_eq!(sorted_headers(&HeaderMap::new()), Ok(vec![]));
}

#[test]
fn sorting_is_what_std_sorting_is() {
    let mut items = pairs(&[("b", ""), ("a", "z"), ("a", "b"), ("ab", "a"), ("", "x"), ("a", ""), ("\u{e9}", "1"), ("z", "1"), ("a", "b")]);
    let ours = sort_pairs(items.clone());
    items.sort();
    assert_eq!(ours, items);
    assert!(is_sorted(&ours));
    assert!(!is_sorted(&pairs(&[("b", "1"), ("a", "1")])));
    assert!(is_sorted(&pairs(&[("a", "1"), ("a", "1")])));
}

#[test]
fn byte_strings_are_ordered_as_std_orders_them() {
    let samples: Vec<&[u8]> = vec![b"", b"a", b"ab", b"b", b"aa", b"\xff", b"a\x00"];
    for a in &samples {
        for b in &samples {
            assert_eq!(is_bytes_less(a, b), a < b, "{:?} {:?}", a, b);
        }
    }
    let x = ("a".to_string(), "b".to_string());
    let y = ("a".to_string(), "c".to_string());
    assert!(is_pair_less(&x, &y));
    assert!(!is_pair_less(&y, &x));
    assert!(!is_pair_less(&x, &x));
}

#[test]
fn a_pair_is_put_at_its_place() {
    let mut v = pairs(&[("a", "1"), ("c", "1")]);
    assert_eq!(insert_sorted(&mut v, ("b".into(), "1".into())), 1);
    assert_eq!(insert_sorted(&mut v, ("a".into(), "1".into())), 1);
    assert_eq!(insert_sorted(&mut v, ("d".into(), "".into())), 4);
    assert_eq!(v, pairs(&[("a", "1"), ("a", "1"), ("b", "1"), ("c", "1"), ("d", "")]));
}

#[test]
fn a_value_that_is_no_text_is_refused() {
    let map = map_of(&[("accept", b"ok"), ("x-bin", b"caf\xc3\xa9")]);
    assert_eq!(sorted_headers(&map), Err(HeaderError::InvalidValue { name: "x-bin".into() }));
    assert_eq!(
        sorted_pairs(&vec![("a".to_string(), b"fine\t".to_vec()), ("b".to_string(), vec![0x7f])]),
        Err(HeaderError::InvalidValue { name: "b".into() })
    );
    assert_eq!(visible_text(&b"tab\tand space ~".to_vec()), Some("tab\tand space ~".to_string()));
    assert_eq!(visible_text(&vec![0x1f]), None);
    assert_eq!(visible_text(&vec![0x80]), None);
    assert_eq!(visible_text(&vec![]), Some(String::new()));
}

#[test]
fn a_header_map_holds_the_pairs_it_was_made_from() {
    let items = pairs(&[("Content-Type", "text/plain"), ("x-a", "1"), ("x-a", "2")]);
    let map = header_map_from_pairs(&items).unwrap();
    assert_eq!(map.len(), 3);
    assert_eq!(map.get("content-type").unwrap(), "text/plain");
    let all: Vec<_> = map.get_all("x-a").iter().map(|v| v.to_str().unwrap().to_string()).collect();
    assert_eq!(all, vec!["1".to_string(), "2".to_string()]);
    assert_eq!(sorted_headers(&map), Ok(pairs(&[("content-type", "text/plain"), ("x-a", "1"), ("x-a", "2")])));
    assert_eq!(header_map_from_pairs(&vec![]).unwrap().len(), 0);
}

#[test]
fn names_and_values_that_are_none_are_refused() {
    assert_eq!(
        header_map_from_pairs(&pairs(&[("ok", "1"), ("bad name", "1")])).err(),
        Some(HeaderError::InvalidName { name: "bad name".into() })
    );
    assert_eq!(
        header_map_from_pairs(&pairs(&[("", "1")])).err(),
        Some(HeaderError::InvalidName { name: "".into() })
    );
    assert_eq!(
        header_map_from_pairs(&pairs(&[("ok", "line\nfeed")])).err(),
        Some(HeaderError::InvalidValue { name: "ok".into() })
    );
    assert!(header_map_from_pairs(&pairs(&[("ok", "caf\u{e9}")])).is_ok());
    let long = "a".repeat(65536);
    assert_eq!(
        header_map_from_pairs(&vec![(long.clone(), "1".to_string())]).err(),
        Some(HeaderError::InvalidName { name: long })
    );
    assert!(header_map_from_pairs(&vec![("a".repeat(65535), "1".to_string())]).is_ok());
}

#[test]
fn an_exchange_is_recorded_with_sorted_headers() {
    let mut r = Recorder::new(TraceFormat::Json);
    let mut file = r.take_pending();
    let response = map_of(&[("X-B", b"2"), ("Content-Type", b"text/plain")]);
    assert_eq!(
        record_exchange(
            &mut r,
            "GET".into(),
            "https://example/x".into(),
            pairs(&[("b", "1"), ("accept", "text/plain")]),
            200,
            &response,
            b"hello".to_vec(),
        ),
        Ok(())
    );
    file.extend(r.save().unwrap());
    let events = decode(TraceFormat::Json, &file).unwrap();
    assert_eq!(
        events,
        vec![TraceEvent::HttpResponse {
            request_method: "GET".into(),
            request_url: "https://example/x".into(),
            request_headers: pairs(&[("accept", "text/plain"), ("b", "1")]),
            status: 200,
            headers: pairs(&[("content-type", "text/plain"), ("x-b", "2")]),
            body: b"hello".to_vec(),
        }]
    );
    assert!(events[0].is_well_formed());
}

#[test]
fn nothing_is_recorded_for_a_response_with_a_bad_header() {
    let mut r = Recorder::new(TraceFormat::Cbor);
    let response = map_of(&[("x-bin", b"\xff")]);
    assert_eq!(
        record_exchange(&mut r, "GET".into(), "u".into(), vec![], 200, &response, vec![]),
        Err(HeaderError::InvalidValue { name: "x-bin".into() })
    );
    assert_eq!(r.save(), Ok(vec![]));
}

fn recorded() -> TraceEvent {
    TraceEvent::HttpResponse {
        request_method: "GET".into(),
        request_url: "https://example/x".into(),
        request_headers: pairs(&[("accept", "text/plain")]),
        status: 200,
        headers: pairs(&[("content-type", "text/plain")]),
        body: b"hello".to_vec(),
    }
}

#[test]
fn a_replayed_request_gets_the_recorded_response() {
    let mut p = Playback::from_events(vec![recorded()]);
    let sent = map_of(&[("Accept", b"text/plain")]);
    let response = replay_exchange(&mut p, "GET", "https://example/x", &sent).ok().unwrap();
    assert_eq!(response.status, 200);
    assert_eq!(response.body, b"hello".to_vec());
    assert_eq!(response.headers.len(), 1);
    assert_eq!(response.headers.get("content-type").unwrap(), "text/plain");
    assert_eq!(p.finish(), Ok(()));
}

#[test]
fn a_replayed_request_with_other_headers_is_a_divergence() {
    let mut p = Playback::from_events(vec![recorded()]);
    let sent = map_of(&[("Accept", b"application/json")]);
    assert_eq!(
        replay_exchange(&mut p, "GET", "https://example/x", &sent).err(),
        Some(ShimError::Replay(ReplayError::HttpHeadersMismatch))
    );
    let mut p = Playback::from_events(vec![recorded()]);
    let bad = map_of(&[("accept", b"\xff")]);
    assert_eq!(
        replay_exchange(&mut p, "GET", "https://example/x", &bad).err(),
        Some(ShimError::Header(HeaderError::InvalidValue { name: "accept".into() }))
    );
    assert_eq!(p.next_event(), Ok(recorded()));
}

#[test]
fn more_headers_than_a_map_holds_are_refused() {
    let many: Vec<(String, String)> = (0..40000).map(|i| (format!("h{}", i), "v".to_string())).collect();
    assert_eq!(header_map_from_pairs(&many).err(), Some(HeaderError::TooMany));
    let some: Vec<(String, String)> = (0..2000).map(|i| (format!("h{}", i), "v".to_string())).collect();
    assert_eq!(header_map_from_pairs(&some).unwrap().len(), 2000);
}

#[test]
fn the_values_of_a_name_stay_in_their_order() {
    let map = header_map_from_pairs(&pairs(&[("set-cookie", "a"), ("set-cookie", "b")])).unwrap();
    assert_eq!(map.len(), 2);
    let values: Vec<_> = map.get_all("set-cookie").iter().map(|v| v.to_str().unwrap().to_string()).collect();
    assert_eq!(values, vec!["a".to_string(), "b".to_string()]);
}

#[test]
fn a_map_hands_out_the_values_of_a_name_together() {
    let map = header_map_from_pairs(&pairs(&[("X-A", "1"), ("b", "1"), ("x-a", "2"), ("c", "1"), ("B", "2")])).unwrap();
    let handed: Vec<(String, String)> =
        map.iter().map(|(n, v)| (n.as_str().to_string(), v.to_str().unwrap().to_string())).collect();
    assert_eq!(handed, pairs(&[("x-a", "1"), ("x-a", "2"), ("b", "1"), ("b", "2"), ("c", "1")]));
}

#[test]
fn recorded_names_are_lower_case() {
    let map = map_of(&[("Content-Type", b"a"), ("X-UPPER", b"B"), ("accept", b"c")]);
    let sorted = sorted_headers(&map).unwrap();
    assert_eq!(sorted, pairs(&[("accept", "c"), ("content-type", "a"), ("x-upper", "B")]));
    for (name, _) in sorted {
        assert!(!name.chars().any(|c| c.is_ascii_uppercase()));
    }
}

#[test]
fn a_map_with_room_never_refuses() {
    assert_eq!(MAP_ROOM, 6554);
    let most: Vec<(String, String)> = (0..MAP_ROOM - 1).map(|i| (format!("h{}", i), "v".to_string())).collect();
    assert_eq!(header_map_from_pairs(&most).unwrap().len(), MAP_ROOM - 1);
    let same: Vec<(String, String)> = (0..MAP_ROOM - 1).map(|i| ("same".to_string(), format!("{}", i))).collect();
    let map = header_map_from_pairs(&same).unwrap();
    assert_eq!(map.len(), MAP_ROOM - 1);
    assert_eq!(map.get_all("same").iter().last().unwrap(), "6552");
}

#[test]
fn the_first_header_that_is_no_text_is_named() {
    let map = map_of(&[("z-first", b"\xff"), ("accept", b"ok"), ("a-later", b"\x80")]);
    assert_eq!(sorted_headers(&map), Err(HeaderError::InvalidValue { name: "z-first".into() }));
    let map = map_of(&[("accept", b"ok"), ("b", b"fine"), ("accept", b"\xfe"), ("b", b"\xff")]);
    assert_eq!(sorted_headers(&map), Err(HeaderError::InvalidValue { name: "accept".into() }));
}

#[test]
fn the_same_headers_sent_in_another_order_are_the_recorded_request() {
    let event = TraceEvent::HttpResponse {
        request_method: "GET".into(),
        request_url: "https://example/x".into(),
        request_headers: pairs(&[("a", "1"), ("a", "2"), ("b", "0")]),
        status: 204,
        headers: vec![],
        body: vec![],
    };
    let mut p = Playback::from_events(vec![event.clone()]);
    let sent = map_of(&[("B", b"0"), ("A", b"2"), ("a", b"1")]);
    let response = replay_exchange(&mut p, "GET", "https://example/x", &sent).ok().unwrap();
    assert_eq!(response.status, 204);
    assert_eq!(response.headers.len(), 0);
    let mut p = Playback::from_events(vec![event]);
    let fewer = map_of(&[("b", b"0"), ("a", b"1")]);
    assert_eq!(
        replay_exchange(&mut p, "GET", "https://example/x", &fewer).err(),
        Some(ShimError::Replay(ReplayError::HttpHeadersMismatch))
    );
}
