//! The events of a trace: one variant for each recorded host operation.

use super::order::{is_sorted, sorted};
use vstd::prelude::*;

verus! {

/// One second, in nanoseconds: the exclusive bound of a wall-clock reading's
/// sub-second part.
pub const NANOS_PER_SECOND: u32 = 1_000_000_000;

/// A wall-clock reading: whole seconds and the nanoseconds within the second.
#[derive(Debug, Clone, Copy, PartialEq, Eq, Structural)]
pub struct Datetime {
    pub seconds: u64,
    pub nanoseconds: u32,
}

/// A recorded host-call outcome.
#[derive(Debug, PartialEq, Eq)]
#[allow(inconsistent_fields)]
pub enum TraceEvent {
    ClockNow { seconds: u64, nanoseconds: u32 },
    ClockResolution { seconds: u64, nanoseconds: u32 },
    MonotonicClockNow { nanoseconds: u64 },
    MonotonicClockResolution { nanoseconds: u64 },
    Environment { entries: Vec<(String, String)> },
    Arguments { args: Vec<String> },
    InitialCwd { path: Option<String> },
    RandomBytes { bytes: Vec<u8> },
    InsecureRandomBytes { bytes: Vec<u8> },
    RandomU64 { value: u64 },
    InsecureRandomU64 { value: u64 },
    InsecureSeed { seed: (u64, u64) },
    /// Marks a stream or file read; it carries no payload.
    Read,
    HttpResponse {
        request_method: String,
        request_url: String,
        request_headers: Vec<(String, String)>,
        status: u16,
        headers: Vec<(String, String)>,
        body: Vec<u8>,
    },
    Exit { code: i32 },
}

/// The mathematical value of a [`TraceEvent`]: the same variants over
/// sequences of characters and bytes.
#[allow(inconsistent_fields)]
pub enum EventModel {
    ClockNow { seconds: u64, nanoseconds: u32 },
    ClockResolution { seconds: u64, nanoseconds: u32 },
    MonotonicClockNow { nanoseconds: u64 },
    MonotonicClockResolution { nanoseconds: u64 },
    Environment { entries: Seq<(Seq<char>, Seq<char>)> },
    Arguments { args: Seq<Seq<char>> },
    InitialCwd { path: Option<Seq<char>> },
    RandomBytes { bytes: Seq<u8> },
    InsecureRandomBytes { bytes: Seq<u8> },
    RandomU64 { value: u64 },
    InsecureRandomU64 { value: u64 },
    InsecureSeed { seed: (u64, u64) },
    Read,
    HttpResponse {
        request_method: Seq<char>,
        request_url: Seq<char>,
        request_headers: Seq<(Seq<char>, Seq<char>)>,
        status: u16,
        headers: Seq<(Seq<char>, Seq<char>)>,
        body: Seq<u8>,
    },
    Exit { code: i32 },
}

/// Which host operation an event records.
#[derive(Debug, Clone, Copy, PartialEq, Eq, Structural)]
pub enum EventKind {
    ClockNow,
    ClockResolution,
    MonotonicClockNow,
    MonotonicClockResolution,
    Environment,
    Arguments,
    InitialCwd,
    RandomBytes,
    InsecureRandomBytes,
    RandomU64,
    InsecureRandomU64,
    InsecureSeed,
    Read,
    HttpResponse,
    Exit,
}

impl View for TraceEvent {
    type V = EventModel;

    open spec fn view(&self) -> EventModel {
        match *self {
            TraceEvent::ClockNow { seconds, nanoseconds } => EventModel::ClockNow {
                seconds,
                nanoseconds,
            },
            TraceEvent::ClockResolution { seconds, nanoseconds } => EventModel::ClockResolution {
                seconds,
                nanoseconds,
            },
            TraceEvent::MonotonicClockNow { nanoseconds } => EventModel::MonotonicClockNow {
                nanoseconds,
            },
            TraceEvent::MonotonicClockResolution {
                nanoseconds,
            } => EventModel::MonotonicClockResolution { nanoseconds },
            TraceEvent::Environment { entries } => EventModel::Environment {
                entries: entries.deep_view(),
            },
            TraceEvent::Arguments { args } => EventModel::Arguments { args: args.deep_view() },
            TraceEvent::InitialCwd { path } => EventModel::InitialCwd { path: path.deep_view() },
            TraceEvent::RandomBytes { bytes } => EventModel::RandomBytes { bytes: bytes@ },
            TraceEvent::InsecureRandomBytes { bytes } => EventModel::InsecureRandomBytes {
                bytes: bytes@,
            },
            TraceEvent::RandomU64 { value } => EventModel::RandomU64 { value },
            TraceEvent::InsecureRandomU64 { value } => EventModel::InsecureRandomU64 { value },
            TraceEvent::InsecureSeed { seed } => EventModel::InsecureSeed { seed },
            TraceEvent::Read => EventModel::Read,
            TraceEvent::HttpResponse {
                request_method,
                request_url,
                request_headers,
                status,
                headers,
                body,
            } => EventModel::HttpResponse {
                request_method: request_method@,
                request_url: request_url@,
                request_headers: request_headers.deep_view(),
                status,
                headers: headers.deep_view(),
                body: body@,
            },
            TraceEvent::Exit { code } => EventModel::Exit { code },
        }
    }
}

impl Datetime {
    /// True when the nanoseconds are those within a second.
    pub open spec fn well_formed(self) -> bool {
        self.nanoseconds < NANOS_PER_SECOND
    }
}

impl EventModel {
    /// True when the event is one that a recording holds: the nanoseconds
    /// of a wall-clock reading are those within a second, and the headers of
    /// an HTTP exchange are sorted by name and value.
    pub open spec fn well_formed(self) -> bool {
        match self {
            EventModel::ClockNow { nanoseconds, .. } => nanoseconds < NANOS_PER_SECOND,
            EventModel::ClockResolution { nanoseconds, .. } => nanoseconds < NANOS_PER_SECOND,
            EventModel::HttpResponse { request_headers, headers, .. } => sorted(request_headers)
                && sorted(headers),
            _ => true,
        }
    }

    /// The host operation this event records.
    pub open spec fn kind(self) -> EventKind {
        match self {
            EventModel::ClockNow { .. } => EventKind::ClockNow,
            EventModel::ClockResolution { .. } => EventKind::ClockResolution,
            EventModel::MonotonicClockNow { .. } => EventKind::MonotonicClockNow,
            EventModel::MonotonicClockResolution { .. } => EventKind::MonotonicClockResolution,
            EventModel::Environment { .. } => EventKind::Environment,
            EventModel::Arguments { .. } => EventKind::Arguments,
            EventModel::InitialCwd { .. } => EventKind::InitialCwd,
            EventModel::RandomBytes { .. } => EventKind::RandomBytes,
            EventModel::InsecureRandomBytes { .. } => EventKind::InsecureRandomBytes,
            EventModel::RandomU64 { .. } => EventKind::RandomU64,
            EventModel::InsecureRandomU64 { .. } => EventKind::InsecureRandomU64,
            EventModel::InsecureSeed { .. } => EventKind::InsecureSeed,
            EventModel::Read => EventKind::Read,
            EventModel::HttpResponse { .. } => EventKind::HttpResponse,
            EventModel::Exit { .. } => EventKind::Exit,
        }
    }
}

impl TraceEvent {
    /// The host operation this event records.
    pub fn kind(&self) -> (k: EventKind)
        ensures
            k == self@.kind(),
    {
        match self {
            TraceEvent::ClockNow { .. } => EventKind::ClockNow,
            TraceEvent::ClockResolution { .. } => EventKind::ClockResolution,
            TraceEvent::MonotonicClockNow { .. } => EventKind::MonotonicClockNow,
            TraceEvent::MonotonicClockResolution { .. } => EventKind::MonotonicClockResolution,
            TraceEvent::Environment { .. } => EventKind::Environment,
            TraceEvent::Arguments { .. } => EventKind::Arguments,
            TraceEvent::InitialCwd { .. } => EventKind::InitialCwd,
            TraceEvent::RandomBytes { .. } => EventKind::RandomBytes,
            TraceEvent::InsecureRandomBytes { .. } => EventKind::InsecureRandomBytes,
            TraceEvent::RandomU64 { .. } => EventKind::RandomU64,
            TraceEvent::InsecureRandomU64 { .. } => EventKind::InsecureRandomU64,
            TraceEvent::InsecureSeed { .. } => EventKind::InsecureSeed,
            TraceEvent::Read => EventKind::Read,
            TraceEvent::HttpResponse { .. } => EventKind::HttpResponse,
            TraceEvent::Exit { .. } => EventKind::Exit,
        }
    }
}

impl TraceEvent {
    /// True when the event is one that a recording holds.
    pub fn is_well_formed(&self) -> (r: bool)
        ensures
            r == self@.well_formed(),
    {
        match self {
            TraceEvent::ClockNow { nanoseconds, .. } => *nanoseconds < NANOS_PER_SECOND,
            TraceEvent::ClockResolution { nanoseconds, .. } => *nanoseconds < NANOS_PER_SECOND,
            TraceEvent::HttpResponse { request_headers, headers, .. } => is_sorted(request_headers)
                && is_sorted(headers),
            _ => true,
        }
    }
}

/// True when every event of the trace is one that a recording holds.
pub open spec fn trace_well_formed(events: Seq<EventModel>) -> bool {
    forall|i: int| 0 <= i < events.len() ==> (#[trigger] events[i]).well_formed()
}

/// Nanosecond invariant: the nanoseconds of every wall-clock reading in a
/// well-formed trace are those within a second.
pub proof fn law_wall_clock_nanoseconds(events: Seq<EventModel>, i: int)
    requires
        trace_well_formed(events),
        0 <= i < events.len(),
    ensures
        events[i] matches EventModel::ClockNow { nanoseconds, .. } ==> 0 <= nanoseconds
            < 1_000_000_000,
        events[i] matches EventModel::ClockResolution { nanoseconds, .. } ==> 0 <= nanoseconds
            < 1_000_000_000,
{
    assert(events[i].well_formed());
}

/// Header sortedness: the headers of the request and those of the response
/// of every HTTP exchange in a well-formed trace are sorted by name and value.
pub proof fn law_http_headers_sorted(events: Seq<EventModel>, i: int)
    requires
        trace_well_formed(events),
        0 <= i < events.len(),
    ensures
        events[i] matches EventModel::HttpResponse { request_headers, headers, .. } ==> sorted(
            request_headers,
        ) && sorted(headers),
{
    assert(events[i].well_formed());
}

/// A well-formed trace stays well-formed when a well-formed event is
/// recorded behind it.
pub proof fn law_well_formed_push(events: Seq<EventModel>, e: EventModel)
    requires
        trace_well_formed(events),
        e.well_formed(),
    ensures
        trace_well_formed(events.push(e)),
{
}

/// A copy of a list of texts.
pub fn clone_texts(l: &Vec<String>) -> (r: Vec<String>)
    ensures
        r.deep_view() == l.deep_view(),
{
    let mut out: Vec<String> = Vec::new();
    let mut i: usize = 0;
    while i < l.len()
        invariant
            i <= l.len(),
            out.deep_view() == l.deep_view().take(i as int),
        decreases l.len() - i,
    {
        let ghost before = out.deep_view();
        out.push(l[i].clone());
        assert(out.deep_view() =~= before.push(l[i as int]@));
        assert(l.deep_view().take(i + 1) =~= before.push(l[i as int]@));
        i += 1;
    }
    assert(l.deep_view().take(i as int) =~= l.deep_view());
    out
}

/// A copy of a list of pairs.
pub fn clone_pairs(l: &Vec<(String, String)>) -> (r: Vec<(String, String)>)
    ensures
        r.deep_view() == l.deep_view(),
{
    let mut out: Vec<(String, String)> = Vec::new();
    let mut i: usize = 0;
    while i < l.len()
        invariant
            i <= l.len(),
            out.deep_view() == l.deep_view().take(i as int),
        decreases l.len() - i,
    {
        let ghost before = out.deep_view();
        let ghost model = (l[i as int].0@, l[i as int].1@);
        out.push((l[i].0.clone(), l[i].1.clone()));
        assert(out.deep_view() =~= before.push(model));
        assert(l.deep_view().take(i + 1) =~= before.push(model));
        i += 1;
    }
    assert(l.deep_view().take(i as int) =~= l.deep_view());
    out
}

impl Clone for TraceEvent {
    /// A copy of the event: the same variant with the same field values.
    fn clone(&self) -> (r: Self)
        ensures
            r@ == self@,
    {
        match self {
            TraceEvent::ClockNow { seconds, nanoseconds } => TraceEvent::ClockNow {
                seconds: *seconds,
                nanoseconds: *nanoseconds,
            },
            TraceEvent::ClockResolution { seconds, nanoseconds } => TraceEvent::ClockResolution {
                seconds: *seconds,
                nanoseconds: *nanoseconds,
            },
            TraceEvent::MonotonicClockNow { nanoseconds } => TraceEvent::MonotonicClockNow {
                nanoseconds: *nanoseconds,
            },
            TraceEvent::MonotonicClockResolution {
                nanoseconds,
            } => TraceEvent::MonotonicClockResolution { nanoseconds: *nanoseconds },
            TraceEvent::Environment { entries } => TraceEvent::Environment {
                entries: clone_pairs(entries),
            },
            TraceEvent::Arguments { args } => TraceEvent::Arguments { args: clone_texts(args) },
            TraceEvent::InitialCwd { path } => TraceEvent::InitialCwd {
                path: match path {
                    Some(p) => Some(p.clone()),
                    None => None,
                },
            },
            TraceEvent::RandomBytes { bytes } => TraceEvent::RandomBytes { bytes: bytes.clone() },
            TraceEvent::InsecureRandomBytes { bytes } => TraceEvent::InsecureRandomBytes {
                bytes: bytes.clone(),
            },
            TraceEvent::RandomU64 { value } => TraceEvent::RandomU64 { value: *value },
            TraceEvent::InsecureRandomU64 { value } => TraceEvent::InsecureRandomU64 {
                value: *value,
            },
            TraceEvent::InsecureSeed { seed } => TraceEvent::InsecureSeed { seed: *seed },
            TraceEvent::Read => TraceEvent::Read,
            TraceEvent::HttpResponse {
                request_method,
                request_url,
                request_headers,
                status,
                headers,
                body,
            } => TraceEvent::HttpResponse {
                request_method: request_method.clone(),
                request_url: request_url.clone(),
                request_headers: clone_pairs(request_headers),
                status: *status,
                headers: clone_pairs(headers),
                body: body.clone(),
            },
            TraceEvent::Exit { code } => TraceEvent::Exit { code: *code },
        }
    }
}

impl DeepView for TraceEvent {
    type V = EventModel;

    open spec fn deep_view(&self) -> EventModel {
        self.view()
    }
}

} // verus!
