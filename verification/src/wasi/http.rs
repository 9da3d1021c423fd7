//! What the HTTP shim decides. At record time the headers of the request and
//! of the response are brought into their recorded form and the exchange is
//! recorded. At replay time the request is held against the recorded one and
//! the recorded response is handed back.

use crate::playback::{after_next, next_failure, Playback, ReplayError};
use crate::recorder::Recorder;
use crate::trace::event::{EventKind, EventModel};
use crate::trace::order::{sort_pairs, sorted};
use crate::wasi::util::{
    entries_of, first_invisible, first_unfit, grouped, header_entries, header_map_from_pairs,
    law_recorded_form_is_unique, no_upper, raw_of, sorted_headers, HeaderError, MAP_ROOM,
};
use vstd::prelude::*;

verus! {

/// The time in seconds that a replayed response allows between two chunks of
/// its body. It never runs out: the body is there before the guest asks.
pub const BETWEEN_BYTES_TIMEOUT_SECS: u64 = 600;

/// Why the HTTP shim stopped the guest.
#[derive(Debug, Clone, PartialEq, Eq)]
pub enum ShimError {
    /// Headers could not be brought into, or out of, their recorded form.
    Header(HeaderError),
    /// The replay diverged from the recording.
    Replay(ReplayError),
}

/// The response that a replay hands back for a request.
pub struct ReplayedResponse {
    pub status: u16,
    pub headers: hyper::HeaderMap,
    pub body: Vec<u8>,
}

/// True when the event records the request of the given method, to the given
/// address and with the given headers: its recorded headers are the sent ones
/// in their recorded form, sorted and each value as text.
pub open spec fn records_request(
    e: EventModel,
    method: Seq<char>,
    url: Seq<char>,
    sent: Seq<(Seq<char>, Seq<u8>)>,
) -> bool {
    &&& e matches EventModel::HttpResponse { request_method, request_url, request_headers, .. }
    &&& request_method == method
    &&& request_url == url
    &&& sorted(request_headers)
    &&& raw_of(request_headers).to_multiset() == sent.to_multiset()
}

/// Records an HTTP exchange once the response has come in: the request with
/// its headers sorted, the status, the headers of the response in their
/// recorded form, and the body. Nothing is recorded where a header of the
/// response is no visible text.
pub fn record_exchange(
    recorder: &mut Recorder,
    method: String,
    url: String,
    request_headers: Vec<(String, String)>,
    status: u16,
    response_headers: &hyper::HeaderMap,
    body: Vec<u8>,
) -> (r: Result<(), HeaderError>)
    requires
        old(recorder).wf(),
    ensures
        final(recorder).wf(),
        match r {
            Ok(()) => exists|request: Seq<(Seq<char>, Seq<char>)>, response: Seq<(Seq<char>, Seq<char>)>|
                #![auto]
                {
                    &&& first_invisible(header_entries(*response_headers), 0) is None
                    &&& sorted(request)
                    &&& request.to_multiset() == request_headers.deep_view().to_multiset()
                    &&& sorted(response)
                    &&& raw_of(response).to_multiset() == header_entries(
                        *response_headers,
                    ).to_multiset()
                    &&& forall|i: int| 0 <= i < response.len() ==> no_upper(response[i].0)
                    &&& old(recorder).appended(
                        *final(recorder),
                        EventModel::HttpResponse {
                            request_method: method@,
                            request_url: url@,
                            request_headers: request,
                            status,
                            headers: response,
                            body: body@,
                        },
                    )
                },
            Err(e) => {
                &&& *final(recorder) == *old(recorder)
                &&& e matches HeaderError::InvalidValue { name }
                &&& first_invisible(header_entries(*response_headers), 0) matches Some(i)
                &&& name@ == header_entries(*response_headers)[i].0
            },
        },
{
    let response = sorted_headers(response_headers)?;
    let request = sort_pairs(request_headers);
    recorder.record_http_response(method, url, request, status, response, body);
    Ok(())
}

/// Replays an HTTP exchange. A request whose headers are no visible text is
/// refused before any event is taken. Then the next event is taken: it must
/// record the request that is sent now, with the same method, address and
/// headers. Only then the recorded headers are made a header map again, and
/// the recorded response is handed back. Fewer than [`MAP_ROOM`] recorded
/// headers that are all headers always give a map.
pub fn replay_exchange(
    playback: &mut Playback,
    method: &str,
    url: &str,
    request_headers: &hyper::HeaderMap,
) -> (r: Result<ReplayedResponse, ShimError>)
    ensures
        final(playback).corrupt() == old(playback).corrupt(),
        match r {
            Ok(response) => {
                &&& first_invisible(header_entries(*request_headers), 0) is None
                &&& final(playback).remaining() == after_next(old(playback).remaining())
                &&& old(playback).remaining().len() > 0
                &&& records_request(
                    old(playback).remaining()[0],
                    method@,
                    url@,
                    header_entries(*request_headers),
                )
                &&& old(playback).remaining()[0] matches EventModel::HttpResponse {
                    status,
                    headers,
                    body,
                    ..
                }
                &&& first_unfit(headers, 0) is None
                &&& response.status == status
                &&& header_entries(response.headers) == grouped(entries_of(headers))
                &&& response.body@ == body
            },
            Err(ShimError::Replay(e)) => {
                &&& final(playback).remaining() == after_next(old(playback).remaining())
                &&& first_invisible(header_entries(*request_headers), 0) is None
                &&& match old(playback).remaining().first() {
                    EventModel::HttpResponse {
                        request_method,
                        request_url,
                        request_headers: recorded,
                        ..
                    } => {
                        if old(playback).remaining().len() == 0 {
                            e == next_failure(
                                old(playback).remaining(),
                                old(playback).corrupt(),
                                EventKind::HttpResponse,
                            )
                        } else if request_method != method@ || request_url != url@ {
                            e matches ReplayError::HttpRequestMismatch {
                                expected_method,
                                expected_url,
                            } && expected_method@ == request_method && expected_url@
                                == request_url
                        } else {
                            e == ReplayError::HttpHeadersMismatch && !records_request(
                                old(playback).remaining()[0],
                                method@,
                                url@,
                                header_entries(*request_headers),
                            )
                        }
                    },
                    _ => e == next_failure(
                        old(playback).remaining(),
                        old(playback).corrupt(),
                        EventKind::HttpResponse,
                    ),
                }
            },
            Err(ShimError::Header(HeaderError::InvalidValue { name })) => {
                ||| {
                    &&& final(playback).remaining() == old(playback).remaining()
                    &&& first_invisible(header_entries(*request_headers), 0) matches Some(i)
                    &&& name@ == header_entries(*request_headers)[i].0
                }
                ||| {
                    &&& first_invisible(header_entries(*request_headers), 0) is None
                    &&& final(playback).remaining() == after_next(old(playback).remaining())
                    &&& old(playback).remaining().len() > 0
                    &&& records_request(
                        old(playback).remaining()[0],
                        method@,
                        url@,
                        header_entries(*request_headers),
                    )
                    &&& old(playback).remaining()[0] matches EventModel::HttpResponse {
                        headers,
                        ..
                    }
                    &&& first_unfit(headers, 0) matches Some((i, false))
                    &&& name@ == headers[i].0
                }
            },
            Err(ShimError::Header(HeaderError::InvalidName { name })) => {
                &&& first_invisible(header_entries(*request_headers), 0) is None
                &&& final(playback).remaining() == after_next(old(playback).remaining())
                &&& old(playback).remaining().len() > 0
                &&& records_request(
                    old(playback).remaining()[0],
                    method@,
                    url@,
                    header_entries(*request_headers),
                )
                &&& old(playback).remaining()[0] matches EventModel::HttpResponse { headers, .. }
                &&& first_unfit(headers, 0) matches Some((i, true))
                &&& name@ == headers[i].0
            },
            Err(ShimError::Header(HeaderError::TooMany)) => {
                &&& first_invisible(header_entries(*request_headers), 0) is None
                &&& final(playback).remaining() == after_next(old(playback).remaining())
                &&& old(playback).remaining().len() > 0
                &&& records_request(
                    old(playback).remaining()[0],
                    method@,
                    url@,
                    header_entries(*request_headers),
                )
                &&& old(playback).remaining()[0] matches EventModel::HttpResponse { headers, .. }
                &&& headers.len() >= MAP_ROOM
            },
        },
{
    let sent = match sorted_headers(request_headers) {
        Ok(pairs) => pairs,
        Err(e) => {
            return Err(ShimError::Header(e));
        },
    };
    let recorded = match playback.replay_http_request(method, url, &sent) {
        Ok(response) => response,
        Err(e) => {
            proof {
                let events = old(playback).remaining();
                if events.len() > 0 {
                    if let EventModel::HttpResponse { request_headers: recorded, .. } = events[0] {
                        if sorted(recorded) && raw_of(recorded).to_multiset() == header_entries(
                            *request_headers,
                        ).to_multiset() {
                            law_recorded_form_is_unique(sent.deep_view(), recorded);
                        }
                    }
                }
            }
            return Err(ShimError::Replay(e));
        },
    };
    let headers = match header_map_from_pairs(&recorded.headers) {
        Ok(map) => map,
        Err(e) => {
            return Err(ShimError::Header(e));
        },
    };
    Ok(ReplayedResponse { status: recorded.status, headers, body: recorded.body })
}

} // verus!
