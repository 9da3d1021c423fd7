//! A trace in either encoding, and the conversion of one into the other.

use super::cbor::{
    event_bytes, events_from, law_binary_round_trip, lemma_trace_bytes_push, read_events,
    trace_bytes, trace_fits, write_events,
};
use super::event::{EventModel, TraceEvent};
use super::format::TraceFormat;
use super::json::{read_trace, trace_of};
use super::json_laws::{law_pretty_round_trip, law_stream_round_trip};
use super::json_write::{
    lemma_stream_push, pretty_trace, stream_close, stream_frame, stream_trace, write_pretty_trace,
};
use vstd::prelude::*;

verus! {

/// Why a trace could not be read.
#[derive(Debug, Clone, Copy, PartialEq, Eq, Structural)]
pub enum TraceError {
    /// The bytes are no trace in the text encoding.
    InvalidJson,
    /// The bytes are no trace in the binary encoding.
    InvalidCbor,
}

/// The events that the bytes hold in the given encoding, or nothing where
/// they are no trace in it.
pub open spec fn decoded(format: TraceFormat, s: Seq<u8>) -> Option<Seq<EventModel>> {
    match format {
        TraceFormat::Json => trace_of(s),
        TraceFormat::Cbor => if events_from(s, 0).1 {
            None
        } else {
            Some(events_from(s, 0).0)
        },
    }
}

/// The bytes of a trace in the given encoding: the pretty form of the text
/// encoding, or the events one after the other in the binary one.
pub open spec fn encoded(format: TraceFormat, events: Seq<EventModel>) -> Seq<u8> {
    match format {
        TraceFormat::Json => pretty_trace(events),
        TraceFormat::Cbor => trace_bytes(events),
    }
}

/// The error that bytes which are no trace in the given encoding are
/// refused with.
pub open spec fn refusal(format: TraceFormat) -> TraceError {
    match format {
        TraceFormat::Json => TraceError::InvalidJson,
        TraceFormat::Cbor => TraceError::InvalidCbor,
    }
}

/// What a conversion gives: the trace that the input holds, in the other
/// encoding, or nothing where the input holds none.
pub open spec fn converted(input: Seq<u8>, from: TraceFormat, to: TraceFormat) -> Option<Seq<u8>> {
    match decoded(from, input) {
        Some(events) => Some(encoded(to, events)),
        None => None,
    }
}

/// Reads a trace in the given encoding.
pub fn decode(format: TraceFormat, bytes: &[u8]) -> (r: Result<Vec<TraceEvent>, TraceError>)
    ensures
        match decoded(format, bytes@) {
            Some(events) => r matches Ok(l) && l.deep_view() == events,
            None => r == Err::<Vec<TraceEvent>, _>(refusal(format)),
        },
{
    match format {
        TraceFormat::Json => match read_trace(bytes) {
            Some(events) => Ok(events),
            None => Err(TraceError::InvalidJson),
        },
        TraceFormat::Cbor => match read_events(bytes) {
            Ok(events) => Ok(events),
            Err(_) => Err(TraceError::InvalidCbor),
        },
    }
}

/// Writes a trace in the given encoding.
pub fn encode(format: TraceFormat, events: &Vec<TraceEvent>) -> (r: Vec<u8>)
    ensures
        r@ == encoded(format, events.deep_view()),
{
    match format {
        TraceFormat::Json => write_pretty_trace(events),
        TraceFormat::Cbor => {
            let mut out: Vec<u8> = Vec::new();
            write_events(&mut out, events);
            assert(out@ =~= trace_bytes(events.deep_view()));
            out
        },
    }
}

/// Converts a trace from one encoding into the other: reads all of the
/// input, then writes all of it. The events keep their order and their
/// contents.
pub fn convert(input: &[u8], input_format: TraceFormat, output_format: TraceFormat) -> (r: Result<
    Vec<u8>,
    TraceError,
>)
    ensures
        match converted(input@, input_format, output_format) {
            Some(output) => r matches Ok(bytes) && bytes@ == output,
            None => r == Err::<Vec<u8>, _>(refusal(input_format)),
        },
{
    let events = decode(input_format, input)?;
    Ok(encode(output_format, &events))
}

/// Reading what was written gives the trace back, in either encoding.
pub proof fn law_decode_encode(format: TraceFormat, events: Seq<EventModel>)
    requires
        trace_fits(events),
    ensures
        decoded(format, encoded(format, events)) == Some(events),
{
    match format {
        TraceFormat::Json => law_pretty_round_trip(events),
        TraceFormat::Cbor => law_binary_round_trip(events),
    }
}

/// Round-trip purity: a trace that is written in one encoding and converted
/// into another is read from the result as it was, whatever the two
/// encodings are. The lengths in the trace must fit 64 bits, as those of
/// every trace in memory do.
pub proof fn law_round_trip(events: Seq<EventModel>, first: TraceFormat, second: TraceFormat)
    requires
        trace_fits(events),
    ensures
        converted(encoded(first, events), first, second) matches Some(output) && decoded(
            second,
            output,
        ) == Some(events),
        converted(encoded(first, events), first, second) == Some(encoded(second, events)),
{
    law_decode_encode(first, events);
    law_decode_encode(second, events);
}

/// A text trace that is converted into the binary encoding and back is the
/// pretty form of its events, whatever white space the text held: a
/// recording, closed or left open, comes back as its pretty form.
pub proof fn law_recording_converts(events: Seq<EventModel>, closed: bool)
    requires
        trace_fits(events),
    ensures
        converted(stream_trace(events, closed), TraceFormat::Json, TraceFormat::Cbor) == Some(
            trace_bytes(events),
        ),
        converted(trace_bytes(events), TraceFormat::Cbor, TraceFormat::Json) == Some(
            pretty_trace(events),
        ),
{
    law_stream_round_trip(events, closed);
    law_binary_round_trip(events);
}


/// What a recording of the given events holds: in the text encoding its
/// opening, the events each on a line of its own and, once it is closed, its
/// closing; in the binary encoding the events one after the other.
pub open spec fn recording(format: TraceFormat, events: Seq<EventModel>, closed: bool) -> Seq<u8> {
    match format {
        TraceFormat::Json => stream_trace(events, closed),
        TraceFormat::Cbor => trace_bytes(events),
    }
}

/// What a recording starts with.
pub open spec fn recording_start(format: TraceFormat) -> Seq<u8> {
    recording(format, Seq::empty(), false)
}

/// What a recording appends for an event.
pub open spec fn recording_frame(format: TraceFormat, first: bool, e: EventModel) -> Seq<u8> {
    match format {
        TraceFormat::Json => stream_frame(first, e),
        TraceFormat::Cbor => event_bytes(e),
    }
}

/// What a recording appends when it is closed.
pub open spec fn recording_end(format: TraceFormat) -> Seq<u8> {
    match format {
        TraceFormat::Json => stream_close(),
        TraceFormat::Cbor => Seq::empty(),
    }
}

/// Recording one more event appends its frame to what was recorded, and
/// rewrites nothing.
pub proof fn lemma_recording_push(format: TraceFormat, events: Seq<EventModel>, e: EventModel)
    ensures
        recording(format, events.push(e), false) == recording(format, events, false)
            + recording_frame(format, events.len() == 0, e),
{
    match format {
        TraceFormat::Json => {
            lemma_stream_push(events, e);
            assert(recording(format, events.push(e), false) =~= recording(format, events, false)
                + recording_frame(format, events.len() == 0, e));
        },
        TraceFormat::Cbor => {
            lemma_trace_bytes_push(events, e);
        },
    }
}

/// Closing a recording appends its closing to what was recorded.
pub proof fn lemma_recording_close(format: TraceFormat, events: Seq<EventModel>)
    ensures
        recording(format, events, true) == recording(format, events, false) + recording_end(
            format,
        ),
{
    assert(recording(format, events, true) =~= recording(format, events, false) + recording_end(
        format,
    ));
}

/// Event-order preservation: what is read from a recording are the events
/// that were recorded, in the order in which they were recorded, whether the
/// recording was closed or ended without being closed.
pub proof fn law_recording_decodes(format: TraceFormat, events: Seq<EventModel>, closed: bool)
    requires
        trace_fits(events),
    ensures
        decoded(format, recording(format, events, closed)) == Some(events),
{
    match format {
        TraceFormat::Json => law_stream_round_trip(events, closed),
        TraceFormat::Cbor => law_binary_round_trip(events),
    }
}

} // verus!
