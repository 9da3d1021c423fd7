//! Replay: the recorded events, handed out in their order. Each accessor
//! takes the next event and gives its payload where it is of the expected
//! kind; any other outcome is a divergence of the replay from the recording.

use crate::trace::cbor::{events_from, lemma_end_is_truncated, read_event, CborError};
use crate::trace::cbor::trace_fits;
use crate::trace::convert::{law_recording_decodes, recording, TraceError};
use crate::trace::event::{Datetime, EventKind, EventModel, TraceEvent};
use crate::trace::format::{same_text, TraceFormat};
use crate::trace::json::{read_trace, trace_of};
use std::collections::VecDeque;
use vstd::prelude::*;

verus! {

/// How a replay diverged from its recording.
#[derive(Debug, Clone, PartialEq, Eq)]
#[allow(inconsistent_fields)]
pub enum ReplayError {
    /// A host call was made and no event is left.
    TraceExhausted,
    /// The next event records another host call than the one that was made.
    UnexpectedEventKind { expected: EventKind, got: EventKind },
    /// Random bytes were asked for in another number than was recorded.
    RandomLengthMismatch { expected: u64, got: u64 },
    /// A request was sent with another method or to another address than
    /// was recorded.
    HttpRequestMismatch { expected_method: String, expected_url: String },
    /// A request was sent with other headers than were recorded.
    HttpHeadersMismatch,
    /// The replay ended and an event that is no read marker is left, of the
    /// given kind.
    UnusedEvents { first: EventKind },
    /// The bytes behind the events that were read are no event.
    CorruptTrace,
}

/// The request that an HTTP event records.
#[derive(Debug, Clone, PartialEq, Eq)]
pub struct RecordedHttpRequest {
    pub method: String,
    pub url: String,
    pub headers: Vec<(String, String)>,
}

/// The response that an HTTP event records.
#[derive(Debug, Clone, PartialEq, Eq)]
pub struct RecordedHttpResponse {
    pub status: u16,
    pub headers: Vec<(String, String)>,
    pub body: Vec<u8>,
}

/// The events of a recording, handed out one by one. They are either read
/// ahead, as those of a text trace are, or read on demand from the bytes of a
/// binary trace.
pub struct Playback {
    /// True when the events are read on demand from `bytes`.
    streaming: bool,
    /// The events that were read ahead, the next one first.
    queue: VecDeque<TraceEvent>,
    /// The bytes of a binary trace.
    bytes: Vec<u8>,
    /// The place in `bytes` of the next event.
    pos: usize,
}

/// The first event that is no read marker, if there is one.
pub open spec fn first_unused(events: Seq<EventModel>) -> Option<EventKind>
    decreases events.len(),
{
    if events.len() == 0 {
        None
    } else if events[0] is Read {
        first_unused(events.drop_first())
    } else {
        Some(events[0].kind())
    }
}

/// The events that are left once the next one was taken.
pub open spec fn after_next(remaining: Seq<EventModel>) -> Seq<EventModel> {
    if remaining.len() > 0 {
        remaining.drop_first()
    } else {
        remaining
    }
}

/// The divergence that is reported where the next event is not of the
/// expected kind.
pub open spec fn next_failure(remaining: Seq<EventModel>, corrupt: bool, expected: EventKind)
    -> ReplayError {
    if remaining.len() > 0 {
        ReplayError::UnexpectedEventKind { expected, got: remaining[0].kind() }
    } else if corrupt {
        ReplayError::CorruptTrace
    } else {
        ReplayError::TraceExhausted
    }
}

/// True when the two lists hold the same pairs in the same order.
pub fn same_pairs(a: &Vec<(String, String)>, b: &Vec<(String, String)>) -> (r: bool)
    ensures
        r == (a.deep_view() == b.deep_view()),
{
    if a.len() != b.len() {
        assert(a.deep_view().len() != b.deep_view().len());
        return false;
    }
    let mut i: usize = 0;
    while i < a.len()
        invariant
            a.len() == b.len(),
            i <= a.len(),
            forall|j: int| 0 <= j < i ==> a.deep_view()[j] == b.deep_view()[j],
        decreases a.len() - i,
    {
        if !same_text(a[i].0.as_str(), b[i].0.as_str()) || !same_text(
            a[i].1.as_str(),
            b[i].1.as_str(),
        ) {
            assert(a.deep_view()[i as int] != b.deep_view()[i as int]);
            return false;
        }
        i += 1;
    }
    assert(a.deep_view() =~= b.deep_view());
    true
}

impl Playback {
    /// The events that are left, the next one first.
    pub closed spec fn remaining(self) -> Seq<EventModel> {
        if self.streaming {
            events_from(self.bytes@, self.pos as int).0
        } else {
            self.queue.deep_view()
        }
    }

    /// True when what follows the events that are left is corrupt.
    pub closed spec fn corrupt(self) -> bool {
        self.streaming && events_from(self.bytes@, self.pos as int).1
    }

    /// A replay of the given events.
    pub fn from_events(events: Vec<TraceEvent>) -> (r: Playback)
        ensures
            r.remaining() == events.deep_view(),
            !r.corrupt(),
    {
        let mut events = events;
        let ghost all = events.deep_view();
        let mut queue: VecDeque<TraceEvent> = VecDeque::new();
        assert(events.deep_view() + queue.deep_view() =~= all);
        while events.len() > 0
            invariant
                events.deep_view() + queue.deep_view() == all,
            decreases events.len(),
        {
            let ghost before = events.deep_view();
            let ghost done = queue.deep_view();
            let e = events.pop().unwrap();
            let ghost model = e@;
            queue.push_front(e);
            assert(events.deep_view() =~= before.drop_last());
            assert(model == before.last());
            assert(queue.deep_view() =~= seq![model] + done);
            assert(before.drop_last() + (seq![model] + done) =~= before + done);
        }
        assert(queue.deep_view() =~= all);
        Playback { streaming: false, queue, bytes: Vec::new(), pos: 0 }
    }

    /// A replay of the trace that the contents of a file hold. A text trace
    /// is read at once; a binary one is read event by event as the replay
    /// goes on, so that bytes which are no event are found only when the
    /// replay comes to them. The contents are held whole in either case.
    pub fn from_file(contents: Vec<u8>, format: TraceFormat) -> (r: Result<Playback, TraceError>)
        ensures
            match format {
                TraceFormat::Json => match trace_of(contents@) {
                    Some(events) => r matches Ok(p) && p.remaining() == events && !p.corrupt(),
                    None => r matches Err(e) && e == TraceError::InvalidJson,
                },
                TraceFormat::Cbor => r matches Ok(p) && p.remaining() == events_from(
                    contents@,
                    0,
                ).0 && p.corrupt() == events_from(contents@, 0).1,
            },
    {
        match format {
            TraceFormat::Json => match read_trace(contents.as_slice()) {
                Some(events) => Ok(Playback::from_events(events)),
                None => Err(TraceError::InvalidJson),
            },
            TraceFormat::Cbor => Ok(
                Playback { streaming: true, queue: VecDeque::new(), bytes: contents, pos: 0 },
            ),
        }
    }

    /// Takes the next event.
    pub fn next_event(&mut self) -> (r: Result<TraceEvent, ReplayError>)
        ensures
            final(self).corrupt() == old(self).corrupt(),
            match r {
                Ok(e) => old(self).remaining().len() > 0 && e@ == old(self).remaining()[0]
                    && final(self).remaining() == old(self).remaining().drop_first(),
                Err(e) => old(self).remaining().len() == 0 && final(self).remaining() == old(
                    self,
                ).remaining() && e == if old(self).corrupt() {
                    ReplayError::CorruptTrace
                } else {
                    ReplayError::TraceExhausted
                },
            },
    {
        if self.streaming {
            if self.pos > self.bytes.len() {
                proof {
                    lemma_end_is_truncated(self.bytes@, self.pos as int);
                }
                return Err(ReplayError::TraceExhausted);
            }
            match read_event(self.bytes.as_slice(), self.pos) {
                Ok((e, next)) => {
                    assert(seq![e@] + events_from(self.bytes@, next as int).0 =~= events_from(
                        self.bytes@,
                        self.pos as int,
                    ).0);
                    self.pos = next;
                    Ok(e)
                },
                Err(CborError::Truncated) => Err(ReplayError::TraceExhausted),
                Err(CborError::Malformed) => Err(ReplayError::CorruptTrace),
            }
        } else {
            let ghost before = self.queue.deep_view();
            match self.queue.pop_front() {
                Some(e) => {
                    assert(self.queue.deep_view() =~= before.drop_first());
                    Ok(e)
                },
                None => Err(ReplayError::TraceExhausted),
            }
        }
    }

    /// Takes the next event, which must be a reading of the wall clock.
    pub fn next_now(&mut self) -> (r: Result<Datetime, ReplayError>)
        ensures
            final(self).corrupt() == old(self).corrupt(),
            final(self).remaining() == after_next(old(self).remaining()),
            match r {
                Ok(x) => old(self).remaining().len() > 0 && old(self).remaining()[0] == (EventModel::ClockNow { seconds: x.seconds, nanoseconds: x.nanoseconds }),
                Err(e) => (old(self).remaining().len() == 0 || old(self).remaining()[0].kind()
                    != EventKind::ClockNow) && e == next_failure(
                    old(self).remaining(),
                    old(self).corrupt(),
                    EventKind::ClockNow,
                ),
            },
    {
        match self.next_event() {
            Err(e) => Err(e),
            Ok(TraceEvent::ClockNow { seconds, nanoseconds }) => Ok(Datetime { seconds, nanoseconds }),
            Ok(other) => Err(
                ReplayError::UnexpectedEventKind { expected: EventKind::ClockNow, got: other.kind() },
            ),
        }
    }

    /// Takes the next event, which must be the resolution of the wall clock.
    pub fn next_resolution(&mut self) -> (r: Result<Datetime, ReplayError>)
        ensures
            final(self).corrupt() == old(self).corrupt(),
            final(self).remaining() == after_next(old(self).remaining()),
            match r {
                Ok(x) => old(self).remaining().len() > 0 && old(self).remaining()[0] == (EventModel::ClockResolution { seconds: x.seconds, nanoseconds: x.nanoseconds }),
                Err(e) => (old(self).remaining().len() == 0 || old(self).remaining()[0].kind()
                    != EventKind::ClockResolution) && e == next_failure(
                    old(self).remaining(),
                    old(self).corrupt(),
                    EventKind::ClockResolution,
                ),
            },
    {
        match self.next_event() {
            Err(e) => Err(e),
            Ok(TraceEvent::ClockResolution { seconds, nanoseconds }) => Ok(Datetime { seconds, nanoseconds }),
            Ok(other) => Err(
                ReplayError::UnexpectedEventKind { expected: EventKind::ClockResolution, got: other.kind() },
            ),
        }
    }

    /// Takes the next event, which must be a reading of the monotonic clock.
    pub fn next_monotonic_now(&mut self) -> (r: Result<u64, ReplayError>)
        ensures
            final(self).corrupt() == old(self).corrupt(),
            final(self).remaining() == after_next(old(self).remaining()),
            match r {
                Ok(x) => old(self).remaining().len() > 0 && old(self).remaining()[0] == (EventModel::MonotonicClockNow { nanoseconds: x }),
                Err(e) => (old(self).remaining().len() == 0 || old(self).remaining()[0].kind()
                    != EventKind::MonotonicClockNow) && e == next_failure(
                    old(self).remaining(),
                    old(self).corrupt(),
                    EventKind::MonotonicClockNow,
                ),
            },
    {
        match self.next_event() {
            Err(e) => Err(e),
            Ok(TraceEvent::MonotonicClockNow { nanoseconds }) => Ok(nanoseconds),
            Ok(other) => Err(
                ReplayError::UnexpectedEventKind { expected: EventKind::MonotonicClockNow, got: other.kind() },
            ),
        }
    }

    /// Takes the next event, which must be the resolution of the monotonic clock.
    pub fn next_monotonic_resolution(&mut self) -> (r: Result<u64, ReplayError>)
        ensures
            final(self).corrupt() == old(self).corrupt(),
            final(self).remaining() == after_next(old(self).remaining()),
            match r {
                Ok(x) => old(self).remaining().len() > 0 && old(self).remaining()[0] == (EventModel::MonotonicClockResolution { nanoseconds: x }),
                Err(e) => (old(self).remaining().len() == 0 || old(self).remaining()[0].kind()
                    != EventKind::MonotonicClockResolution) && e == next_failure(
                    old(self).remaining(),
                    old(self).corrupt(),
                    EventKind::MonotonicClockResolution,
                ),
            },
    {
        match self.next_event() {
            Err(e) => Err(e),
            Ok(TraceEvent::MonotonicClockResolution { nanoseconds }) => Ok(nanoseconds),
            Ok(other) => Err(
                ReplayError::UnexpectedEventKind { expected: EventKind::MonotonicClockResolution, got: other.kind() },
            ),
        }
    }

    /// Takes the next event, which must be the environment.
    pub fn next_environment(&mut self) -> (r: Result<Vec<(String, String)>, ReplayError>)
        ensures
            final(self).corrupt() == old(self).corrupt(),
            final(self).remaining() == after_next(old(self).remaining()),
            match r {
                Ok(x) => old(self).remaining().len() > 0 && old(self).remaining()[0] == (EventModel::Environment { entries: x.deep_view() }),
                Err(e) => (old(self).remaining().len() == 0 || old(self).remaining()[0].kind()
                    != EventKind::Environment) && e == next_failure(
                    old(self).remaining(),
                    old(self).corrupt(),
                    EventKind::Environment,
                ),
            },
    {
        match self.next_event() {
            Err(e) => Err(e),
            Ok(TraceEvent::Environment { entries }) => Ok(entries),
            Ok(other) => Err(
                ReplayError::UnexpectedEventKind { expected: EventKind::Environment, got: other.kind() },
            ),
        }
    }

    /// Takes the next event, which must be the arguments.
    pub fn next_arguments(&mut self) -> (r: Result<Vec<String>, ReplayError>)
        ensures
            final(self).corrupt() == old(self).corrupt(),
            final(self).remaining() == after_next(old(self).remaining()),
            match r {
                Ok(x) => old(self).remaining().len() > 0 && old(self).remaining()[0] == (EventModel::Arguments { args: x.deep_view() }),
                Err(e) => (old(self).remaining().len() == 0 || old(self).remaining()[0].kind()
                    != EventKind::Arguments) && e == next_failure(
                    old(self).remaining(),
                    old(self).corrupt(),
                    EventKind::Arguments,
                ),
            },
    {
        match self.next_event() {
            Err(e) => Err(e),
            Ok(TraceEvent::Arguments { args }) => Ok(args),
            Ok(other) => Err(
                ReplayError::UnexpectedEventKind { expected: EventKind::Arguments, got: other.kind() },
            ),
        }
    }

    /// Takes the next event, which must be the initial working directory.
    pub fn next_initial_cwd(&mut self) -> (r: Result<Option<String>, ReplayError>)
        ensures
            final(self).corrupt() == old(self).corrupt(),
            final(self).remaining() == after_next(old(self).remaining()),
            match r {
                Ok(x) => old(self).remaining().len() > 0 && old(self).remaining()[0] == (EventModel::InitialCwd { path: x.deep_view() }),
                Err(e) => (old(self).remaining().len() == 0 || old(self).remaining()[0].kind()
                    != EventKind::InitialCwd) && e == next_failure(
                    old(self).remaining(),
                    old(self).corrupt(),
                    EventKind::InitialCwd,
                ),
            },
    {
        match self.next_event() {
            Err(e) => Err(e),
            Ok(TraceEvent::InitialCwd { path }) => Ok(path),
            Ok(other) => Err(
                ReplayError::UnexpectedEventKind { expected: EventKind::InitialCwd, got: other.kind() },
            ),
        }
    }

    /// Takes the next event, which must be a random number.
    pub fn next_random_u64(&mut self) -> (r: Result<u64, ReplayError>)
        ensures
            final(self).corrupt() == old(self).corrupt(),
            final(self).remaining() == after_next(old(self).remaining()),
            match r {
                Ok(x) => old(self).remaining().len() > 0 && old(self).remaining()[0] == (EventModel::RandomU64 { value: x }),
                Err(e) => (old(self).remaining().len() == 0 || old(self).remaining()[0].kind()
                    != EventKind::RandomU64) && e == next_failure(
                    old(self).remaining(),
                    old(self).corrupt(),
                    EventKind::RandomU64,
                ),
            },
    {
        match self.next_event() {
            Err(e) => Err(e),
            Ok(TraceEvent::RandomU64 { value }) => Ok(value),
            Ok(other) => Err(
                ReplayError::UnexpectedEventKind { expected: EventKind::RandomU64, got: other.kind() },
            ),
        }
    }

    /// Takes the next event, which must be an insecure random number.
    pub fn next_insecure_random_u64(&mut self) -> (r: Result<u64, ReplayError>)
        ensures
            final(self).corrupt() == old(self).corrupt(),
            final(self).remaining() == after_next(old(self).remaining()),
            match r {
                Ok(x) => old(self).remaining().len() > 0 && old(self).remaining()[0] == (EventModel::InsecureRandomU64 { value: x }),
                Err(e) => (old(self).remaining().len() == 0 || old(self).remaining()[0].kind()
                    != EventKind::InsecureRandomU64) && e == next_failure(
                    old(self).remaining(),
                    old(self).corrupt(),
                    EventKind::InsecureRandomU64,
                ),
            },
    {
        match self.next_event() {
            Err(e) => Err(e),
            Ok(TraceEvent::InsecureRandomU64 { value }) => Ok(value),
            Ok(other) => Err(
                ReplayError::UnexpectedEventKind { expected: EventKind::InsecureRandomU64, got: other.kind() },
            ),
        }
    }

    /// Takes the next event, which must be the insecure seed.
    pub fn next_insecure_seed(&mut self) -> (r: Result<(u64, u64), ReplayError>)
        ensures
            final(self).corrupt() == old(self).corrupt(),
            final(self).remaining() == after_next(old(self).remaining()),
            match r {
                Ok(x) => old(self).remaining().len() > 0 && old(self).remaining()[0] == (EventModel::InsecureSeed { seed: x }),
                Err(e) => (old(self).remaining().len() == 0 || old(self).remaining()[0].kind()
                    != EventKind::InsecureSeed) && e == next_failure(
                    old(self).remaining(),
                    old(self).corrupt(),
                    EventKind::InsecureSeed,
                ),
            },
    {
        match self.next_event() {
            Err(e) => Err(e),
            Ok(TraceEvent::InsecureSeed { seed }) => Ok(seed),
            Ok(other) => Err(
                ReplayError::UnexpectedEventKind { expected: EventKind::InsecureSeed, got: other.kind() },
            ),
        }
    }

    /// Takes the next event, which must be the marker of a stream or file read.
    pub fn expect_read(&mut self) -> (r: Result<(), ReplayError>)
        ensures
            final(self).corrupt() == old(self).corrupt(),
            final(self).remaining() == after_next(old(self).remaining()),
            match r {
                Ok(x) => old(self).remaining().len() > 0 && old(self).remaining()[0] == EventModel::Read,
                Err(e) => (old(self).remaining().len() == 0 || old(self).remaining()[0].kind()
                    != EventKind::Read) && e == next_failure(
                    old(self).remaining(),
                    old(self).corrupt(),
                    EventKind::Read,
                ),
            },
    {
        match self.next_event() {
            Err(e) => Err(e),
            Ok(TraceEvent::Read) => Ok(()),
            Ok(other) => Err(
                ReplayError::UnexpectedEventKind { expected: EventKind::Read, got: other.kind() },
            ),
        }
    }

    /// Takes the next event, which must be the exit of the guest, and gives its code.
    pub fn next_exit(&mut self) -> (r: Result<i32, ReplayError>)
        ensures
            final(self).corrupt() == old(self).corrupt(),
            final(self).remaining() == after_next(old(self).remaining()),
            match r {
                Ok(x) => old(self).remaining().len() > 0 && old(self).remaining()[0] == (EventModel::Exit { code: x }),
                Err(e) => (old(self).remaining().len() == 0 || old(self).remaining()[0].kind()
                    != EventKind::Exit) && e == next_failure(
                    old(self).remaining(),
                    old(self).corrupt(),
                    EventKind::Exit,
                ),
            },
    {
        match self.next_event() {
            Err(e) => Err(e),
            Ok(TraceEvent::Exit { code }) => Ok(code),
            Ok(other) => Err(
                ReplayError::UnexpectedEventKind { expected: EventKind::Exit, got: other.kind() },
            ),
        }
    }

    /// Takes the next event, which must be an HTTP exchange, and gives the
    /// request and the response that it records.
    pub fn next_http_response(&mut self) -> (r: Result<(RecordedHttpRequest, RecordedHttpResponse), ReplayError>)
        ensures
            final(self).corrupt() == old(self).corrupt(),
            final(self).remaining() == after_next(old(self).remaining()),
            match r {
                Ok(x) => old(self).remaining().len() > 0 && old(self).remaining()[0] == (EventModel::HttpResponse {
                    request_method: x.0.method@,
                    request_url: x.0.url@,
                    request_headers: x.0.headers.deep_view(),
                    status: x.1.status,
                    headers: x.1.headers.deep_view(),
                    body: x.1.body@,
                }),
                Err(e) => (old(self).remaining().len() == 0 || old(self).remaining()[0].kind()
                    != EventKind::HttpResponse) && e == next_failure(
                    old(self).remaining(),
                    old(self).corrupt(),
                    EventKind::HttpResponse,
                ),
            },
    {
        match self.next_event() {
            Err(e) => Err(e),
            Ok(TraceEvent::HttpResponse {
                request_method,
                request_url,
                request_headers,
                status,
                headers,
                body,
            }) => Ok((
                RecordedHttpRequest {
                    method: request_method,
                    url: request_url,
                    headers: request_headers,
                },
                RecordedHttpResponse { status, headers, body },
            )),
            Ok(other) => Err(
                ReplayError::UnexpectedEventKind { expected: EventKind::HttpResponse, got: other.kind() },
            ),
        }
    }

    /// Takes the next event, which must be random bytes in the number that is
    /// asked for.
    pub fn next_random_bytes(&mut self, expected_len: u64) -> (r: Result<Vec<u8>, ReplayError>)
        ensures
            final(self).corrupt() == old(self).corrupt(),
            final(self).remaining() == after_next(old(self).remaining()),
            match r {
                Ok(x) => old(self).remaining().len() > 0 && old(self).remaining()[0] == (
                    EventModel::RandomBytes { bytes: x@ }
                ) && x@.len() == expected_len,
                Err(e) => if old(self).remaining().len() > 0 && old(self).remaining()[0] is RandomBytes {
                    old(self).remaining()[0]->RandomBytes_bytes.len() != expected_len && e == (
                        ReplayError::RandomLengthMismatch {
                            expected: expected_len,
                            got: old(self).remaining()[0]->RandomBytes_bytes.len() as u64,
                        }
                    )
                } else {
                    e == next_failure(
                        old(self).remaining(),
                        old(self).corrupt(),
                        EventKind::RandomBytes,
                    )
                },
            },
    {
        match self.next_event() {
            Err(e) => Err(e),
            Ok(TraceEvent::RandomBytes { bytes }) => {
                if bytes.len() as u64 != expected_len {
                    Err(
                        ReplayError::RandomLengthMismatch {
                            expected: expected_len,
                            got: bytes.len() as u64,
                        },
                    )
                } else {
                    Ok(bytes)
                }
            },
            Ok(other) => Err(
                ReplayError::UnexpectedEventKind { expected: EventKind::RandomBytes, got: other.kind() },
            ),
        }
    }

    /// Takes the next event, which must be insecure random bytes in the number
    /// that is asked for.
    pub fn next_insecure_random_bytes(&mut self, expected_len: u64) -> (r: Result<Vec<u8>, ReplayError>)
        ensures
            final(self).corrupt() == old(self).corrupt(),
            final(self).remaining() == after_next(old(self).remaining()),
            match r {
                Ok(x) => old(self).remaining().len() > 0 && old(self).remaining()[0] == (
                    EventModel::InsecureRandomBytes { bytes: x@ }
                ) && x@.len() == expected_len,
                Err(e) => if old(self).remaining().len() > 0 && old(self).remaining()[0] is InsecureRandomBytes {
                    old(self).remaining()[0]->InsecureRandomBytes_bytes.len() != expected_len && e == (
                        ReplayError::RandomLengthMismatch {
                            expected: expected_len,
                            got: old(self).remaining()[0]->InsecureRandomBytes_bytes.len() as u64,
                        }
                    )
                } else {
                    e == next_failure(
                        old(self).remaining(),
                        old(self).corrupt(),
                        EventKind::InsecureRandomBytes,
                    )
                },
            },
    {
        match self.next_event() {
            Err(e) => Err(e),
            Ok(TraceEvent::InsecureRandomBytes { bytes }) => {
                if bytes.len() as u64 != expected_len {
                    Err(
                        ReplayError::RandomLengthMismatch {
                            expected: expected_len,
                            got: bytes.len() as u64,
                        },
                    )
                } else {
                    Ok(bytes)
                }
            },
            Ok(other) => Err(
                ReplayError::UnexpectedEventKind { expected: EventKind::InsecureRandomBytes, got: other.kind() },
            ),
        }
    }

    /// Takes the next event if it is the exit of the guest, and gives its
    /// code; leaves every other event where it is.
    pub fn take_exit(&mut self) -> (r: Option<i32>)
        ensures
            final(self).corrupt() == old(self).corrupt(),
            match r {
                Some(code) => old(self).remaining().len() > 0 && old(self).remaining()[0] == (
                    EventModel::Exit { code }
                ) && final(self).remaining() == old(self).remaining().drop_first(),
                None => (old(self).remaining().len() == 0 || !(old(self).remaining()[0] is Exit))
                    && final(self).remaining() == old(self).remaining(),
            },
    {
        if self.streaming {
            if self.pos > self.bytes.len() {
                proof {
                    lemma_end_is_truncated(self.bytes@, self.pos as int);
                }
                return None;
            }
            match read_event(self.bytes.as_slice(), self.pos) {
                Ok((TraceEvent::Exit { code }, next)) => {
                    assert(seq![EventModel::Exit { code }] + events_from(self.bytes@, next as int).0
                        =~= events_from(self.bytes@, self.pos as int).0);
                    self.pos = next;
                    Some(code)
                },
                Ok((other, next)) => {
                    assert(seq![other@] + events_from(self.bytes@, next as int).0 =~= events_from(
                        self.bytes@,
                        self.pos as int,
                    ).0);
                    None
                },
                Err(_) => None,
            }
        } else {
            if self.queue.len() == 0 {
                return None;
            }
            let ghost before = self.queue.deep_view();
            match &self.queue[0] {
                TraceEvent::Exit { code } => {
                    let code = *code;
                    self.queue.pop_front();
                    assert(self.queue.deep_view() =~= before.drop_first());
                    Some(code)
                },
                _ => None,
            }
        }
    }

    /// Takes the next event, which must record the request that is sent now:
    /// the same method, the same address and the same headers. Gives the
    /// response that was recorded for it.
    pub fn replay_http_request(
        &mut self,
        method: &str,
        url: &str,
        headers: &Vec<(String, String)>,
    ) -> (r: Result<RecordedHttpResponse, ReplayError>)
        ensures
            final(self).corrupt() == old(self).corrupt(),
            final(self).remaining() == after_next(old(self).remaining()),
            match r {
                Ok(x) => old(self).remaining().len() > 0 && old(self).remaining()[0] == (
                    EventModel::HttpResponse {
                        request_method: method@,
                        request_url: url@,
                        request_headers: headers.deep_view(),
                        status: x.status,
                        headers: x.headers.deep_view(),
                        body: x.body@,
                    }
                ),
                Err(e) => match old(self).remaining().first() {
                    EventModel::HttpResponse { request_method, request_url, request_headers, .. } => {
                        if old(self).remaining().len() == 0 {
                            e == next_failure(
                                old(self).remaining(),
                                old(self).corrupt(),
                                EventKind::HttpResponse,
                            )
                        } else if request_method != method@ || request_url != url@ {
                            e matches ReplayError::HttpRequestMismatch {
                                expected_method,
                                expected_url,
                            } && expected_method@ == request_method && expected_url@
                                == request_url
                        } else {
                            request_headers != headers.deep_view() && e
                                == ReplayError::HttpHeadersMismatch
                        }
                    },
                    _ => e == next_failure(
                        old(self).remaining(),
                        old(self).corrupt(),
                        EventKind::HttpResponse,
                    ),
                },
            },
    {
        let (expected, response) = self.next_http_response()?;
        if !same_text(method, expected.method.as_str()) || !same_text(url, expected.url.as_str()) {
            return Err(
                ReplayError::HttpRequestMismatch {
                    expected_method: expected.method,
                    expected_url: expected.url,
                },
            );
        }
        if !same_pairs(headers, &expected.headers) {
            return Err(ReplayError::HttpHeadersMismatch);
        }
        Ok(response)
    }

    /// Ends the replay. The read markers that are left are skipped; any
    /// other event that is left, and bytes that are no event, fail the replay.
    pub fn finish(self) -> (r: Result<(), ReplayError>)
        ensures
            match first_unused(self.remaining()) {
                Some(kind) => r == Err::<(), _>(ReplayError::UnusedEvents { first: kind }),
                None => if self.corrupt() {
                    r == Err::<(), _>(ReplayError::CorruptTrace)
                } else {
                    r == Ok::<(), ReplayError>(())
                },
            },
    {
        let mut rest = self;
        loop
            invariant
                rest.corrupt() == self.corrupt(),
                first_unused(rest.remaining()) == first_unused(self.remaining()),
            decreases rest.remaining().len(),
        {
            match rest.next_event() {
                Ok(TraceEvent::Read) => {},
                Ok(other) => {
                    return Err(ReplayError::UnusedEvents { first: other.kind() });
                },
                Err(ReplayError::TraceExhausted) => {
                    return Ok(());
                },
                Err(e) => {
                    return Err(ReplayError::CorruptTrace);
                },
            }
        }
    }
}

/// Replay determinism: a replay of what was recorded holds exactly the
/// events that were recorded, in their order and with nothing corrupt behind
/// them, in either encoding and whether the recording was closed or not. The
/// accessors hand out the payloads of these events one by one, and once all
/// of them were taken the replay finishes without error.
pub proof fn law_replay_determinism(format: TraceFormat, events: Seq<EventModel>, closed: bool)
    requires
        trace_fits(events),
    ensures
        format == TraceFormat::Json ==> trace_of(recording(format, events, closed)) == Some(
            events,
        ),
        format == TraceFormat::Cbor ==> events_from(recording(format, events, closed), 0) == (
            events,
            false,
        ),
        first_unused(Seq::<EventModel>::empty()) is None,
{
    law_recording_decodes(format, events, closed);
    if format == TraceFormat::Cbor {
        assert(events_from(recording(format, events, closed), 0).0 == events);
    }
}

/// How many read markers stand before the first event that is none.
pub open spec fn leading_reads(events: Seq<EventModel>) -> nat
    decreases events.len(),
{
    if events.len() == 0 {
        0
    } else if events[0] is Read {
        1 + leading_reads(events.drop_first())
    } else {
        0
    }
}

/// Read markers are advisory: events that are all read markers leave nothing
/// unused, and the first event that is none is the one that a replay which
/// ends before it reports.
pub proof fn law_read_markers_are_advisory(events: Seq<EventModel>)
    ensures
        leading_reads(events) <= events.len(),
        forall|j: int| 0 <= j < leading_reads(events) ==> #[trigger] events[j] is Read,
        leading_reads(events) < events.len() ==> !(events[leading_reads(events) as int] is Read),
        first_unused(events) == if leading_reads(events) == events.len() {
            None
        } else {
            Some(events[leading_reads(events) as int].kind())
        },
    decreases events.len(),
{
    if events.len() > 0 && events[0] is Read {
        let rest = events.drop_first();
        law_read_markers_are_advisory(rest);
        let n = leading_reads(rest);
        assert forall|j: int| 0 <= j < n + 1 implies #[trigger] events[j] is Read by {
            if j > 0 {
                assert(events[j] == rest[j - 1]);
            }
        }
        if n < rest.len() {
            assert(events[n as int + 1] == rest[n as int]);
        }
    }
}

} // verus!
