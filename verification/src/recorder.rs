//! Recording: the events of an execution, appended one by one to a trace that
//! is never rewritten. The recorder holds no file: it hands out the bytes
//! that are to be appended, and is told when appending them failed. After
//! the first failure it drops every event and reports the failure when the
//! recording is saved.

use crate::trace::cbor::write_event;
use crate::trace::cbor::trace_fits;
use crate::trace::convert::{
    decoded, law_recording_decodes, lemma_recording_close, lemma_recording_push, recording,
    recording_end, recording_frame, recording_start,
};
use crate::trace::event::{Datetime, EventModel, TraceEvent};
use crate::trace::format::TraceFormat;
use crate::trace::json_write::{stream_preamble, write_stream_close, write_stream_frame};
use vstd::prelude::*;

verus! {

/// Why a recording failed: what the writing of its file reported.
#[derive(Debug, Clone, PartialEq, Eq)]
pub struct RecordError {
    pub message: String,
}

/// The sink of the events of one execution.
pub struct Recorder {
    format: TraceFormat,
    /// True as long as no event was recorded.
    first: bool,
    /// The bytes that were produced and not yet handed out.
    pending: Vec<u8>,
    /// The first failure, if there was one.
    error: Option<RecordError>,
    /// The events that were recorded.
    events: Ghost<Seq<EventModel>>,
    /// The bytes that were handed out.
    flushed: Ghost<Seq<u8>>,
}

impl Recorder {
    /// The encoding of the recording.
    pub closed spec fn format(self) -> TraceFormat {
        self.format
    }

    /// The events that were recorded, in the order in which they were.
    pub closed spec fn recorded(self) -> Seq<EventModel> {
        self.events@
    }

    /// The bytes that are to be appended to the file next.
    pub closed spec fn pending(self) -> Seq<u8> {
        self.pending@
    }

    /// The bytes that were handed out to be appended to the file.
    pub closed spec fn flushed(self) -> Seq<u8> {
        self.flushed@
    }

    /// The first failure of the recording, if there was one.
    pub closed spec fn failure(self) -> Option<RecordError> {
        self.error
    }

    /// True when the recorder is in order: as long as nothing failed, the
    /// bytes it has produced are the recording of the events it has recorded.
    pub closed spec fn wf(self) -> bool {
        self.error is None ==> {
            &&& self.flushed@ + self.pending@ == recording(self.format, self.events@, false)
            &&& self.first == (self.events@.len() == 0)
        }
    }

    /// True when `after` is this recorder once the given event was recorded:
    /// the event stands behind those that were recorded and its frame behind
    /// the bytes that were pending, unless the recording had failed, in which
    /// case the event was dropped. Nothing that was written is changed.
    pub open spec fn appended(self, after: Recorder, e: EventModel) -> bool {
        &&& after.wf()
        &&& after.format() == self.format()
        &&& after.failure() == self.failure()
        &&& after.flushed() == self.flushed()
        &&& self.failure() is Some ==> after.recorded() == self.recorded() && after.pending()
            == self.pending()
        &&& self.failure() is None ==> after.recorded() == self.recorded().push(e)
            && after.pending() == self.pending() + recording_frame(
            self.format(),
            self.recorded().len() == 0,
            e,
        )
    }

    /// Crash safety: as long as nothing failed, the bytes that a recorder has
    /// handed out and those that are pending are, together, the recording of
    /// the events it has recorded, not yet closed; what is read from them are
    /// these events, in their order.
    pub proof fn law_written_is_recording(self)
        requires
            self.wf(),
            self.failure() is None,
        ensures
            self.flushed() + self.pending() == recording(self.format(), self.recorded(), false),
            trace_fits(self.recorded()) ==> decoded(self.format(), self.flushed() + self.pending())
                == Some(self.recorded()),
    {
        if trace_fits(self.recorded()) {
            law_recording_decodes(self.format(), self.recorded(), false);
        }
    }

    /// A recorder of a new recording. What the recording starts with is
    /// pending.
    pub fn new(format: TraceFormat) -> (r: Recorder)
        ensures
            r.wf(),
            r.format() == format,
            r.recorded() == Seq::<EventModel>::empty(),
            r.flushed() == Seq::<u8>::empty(),
            r.pending() == recording_start(format),
            r.failure() is None,
    {
        let pending = match format {
            TraceFormat::Json => stream_preamble(),
            TraceFormat::Cbor => Vec::new(),
        };
        proof {
            assert(recording_start(format) =~= pending@);
            assert(Seq::<u8>::empty() + pending@ =~= pending@);
        }
        Recorder {
            format,
            first: true,
            pending,
            error: None,
            events: Ghost(Seq::empty()),
            flushed: Ghost(Seq::empty()),
        }
    }

    /// Records an event: appends it to the recording, unless the recording
    /// has failed, in which case the event is dropped.
    pub fn record(&mut self, event: TraceEvent)
        requires
            old(self).wf(),
        ensures
            old(self).appended(*final(self), event@),
    {
        if self.error.is_some() {
            return ;
        }
        match self.format {
            TraceFormat::Json => write_stream_frame(&mut self.pending, self.first, &event),
            TraceFormat::Cbor => write_event(&mut self.pending, &event),
        }
        proof {
            lemma_recording_push(self.format, self.events@, event@);
            assert(old(self).flushed@ + self.pending@ =~= (old(self).flushed@ + old(
                self,
            ).pending@) + recording_frame(self.format, self.first, event@));
            self.events@ = self.events@.push(event@);
        }
        self.first = false;
    }

    /// Records a reading of the wall clock.
    pub fn record_now(&mut self, dt: &Datetime)
        requires
            old(self).wf(),
        ensures
            old(self).appended(*final(self), EventModel::ClockNow { seconds: dt.seconds, nanoseconds: dt.nanoseconds }),
    {
        self.record(TraceEvent::ClockNow { seconds: dt.seconds, nanoseconds: dt.nanoseconds });
    }

    /// Records the resolution of the wall clock.
    pub fn record_resolution(&mut self, dt: &Datetime)
        requires
            old(self).wf(),
        ensures
            old(self).appended(*final(self), EventModel::ClockResolution { seconds: dt.seconds, nanoseconds: dt.nanoseconds }),
    {
        self.record(TraceEvent::ClockResolution { seconds: dt.seconds, nanoseconds: dt.nanoseconds });
    }

    /// Records a reading of the monotonic clock.
    pub fn record_monotonic_now(&mut self, nanoseconds: u64)
        requires
            old(self).wf(),
        ensures
            old(self).appended(*final(self), EventModel::MonotonicClockNow { nanoseconds }),
    {
        self.record(TraceEvent::MonotonicClockNow { nanoseconds });
    }

    /// Records the resolution of the monotonic clock.
    pub fn record_monotonic_resolution(&mut self, nanoseconds: u64)
        requires
            old(self).wf(),
        ensures
            old(self).appended(*final(self), EventModel::MonotonicClockResolution { nanoseconds }),
    {
        self.record(TraceEvent::MonotonicClockResolution { nanoseconds });
    }

    /// Records the environment.
    pub fn record_environment(&mut self, entries: Vec<(String, String)>)
        requires
            old(self).wf(),
        ensures
            old(self).appended(*final(self), EventModel::Environment { entries: entries.deep_view() }),
    {
        self.record(TraceEvent::Environment { entries });
    }

    /// Records the arguments.
    pub fn record_arguments(&mut self, args: Vec<String>)
        requires
            old(self).wf(),
        ensures
            old(self).appended(*final(self), EventModel::Arguments { args: args.deep_view() }),
    {
        self.record(TraceEvent::Arguments { args });
    }

    /// Records the initial working directory.
    pub fn record_initial_cwd(&mut self, path: Option<String>)
        requires
            old(self).wf(),
        ensures
            old(self).appended(*final(self), EventModel::InitialCwd { path: path.deep_view() }),
    {
        self.record(TraceEvent::InitialCwd { path });
    }

    /// Records random bytes.
    pub fn record_random_bytes(&mut self, bytes: Vec<u8>)
        requires
            old(self).wf(),
        ensures
            old(self).appended(*final(self), EventModel::RandomBytes { bytes: bytes@ }),
    {
        self.record(TraceEvent::RandomBytes { bytes });
    }

    /// Records insecure random bytes.
    pub fn record_insecure_random_bytes(&mut self, bytes: Vec<u8>)
        requires
            old(self).wf(),
        ensures
            old(self).appended(*final(self), EventModel::InsecureRandomBytes { bytes: bytes@ }),
    {
        self.record(TraceEvent::InsecureRandomBytes { bytes });
    }

    /// Records a random number.
    pub fn record_random_u64(&mut self, value: u64)
        requires
            old(self).wf(),
        ensures
            old(self).appended(*final(self), EventModel::RandomU64 { value }),
    {
        self.record(TraceEvent::RandomU64 { value });
    }

    /// Records an insecure random number.
    pub fn record_insecure_random_u64(&mut self, value: u64)
        requires
            old(self).wf(),
        ensures
            old(self).appended(*final(self), EventModel::InsecureRandomU64 { value }),
    {
        self.record(TraceEvent::InsecureRandomU64 { value });
    }

    /// Records the insecure seed.
    pub fn record_insecure_seed(&mut self, seed: (u64, u64))
        requires
            old(self).wf(),
        ensures
            old(self).appended(*final(self), EventModel::InsecureSeed { seed }),
    {
        self.record(TraceEvent::InsecureSeed { seed });
    }

    /// Records the marker of a stream or file read.
    pub fn record_filesystem_read(&mut self)
        requires
            old(self).wf(),
        ensures
            old(self).appended(*final(self), EventModel::Read),
    {
        self.record(TraceEvent::Read);
    }

    /// Records the exit of the guest.
    pub fn record_exit(&mut self, code: i32)
        requires
            old(self).wf(),
        ensures
            old(self).appended(*final(self), EventModel::Exit { code }),
    {
        self.record(TraceEvent::Exit { code });
    }

    /// Records an HTTP exchange: the request that was sent and the response
    /// that came back.
    pub fn record_http_response(
        &mut self,
        request_method: String,
        request_url: String,
        request_headers: Vec<(String, String)>,
        status: u16,
        headers: Vec<(String, String)>,
        body: Vec<u8>,
    )
        requires
            old(self).wf(),
        ensures
            old(self).appended(
                *final(self),
                EventModel::HttpResponse {
                    request_method: request_method@,
                    request_url: request_url@,
                    request_headers: request_headers.deep_view(),
                    status,
                    headers: headers.deep_view(),
                    body: body@,
                },
            ),
    {
        self.record(
            TraceEvent::HttpResponse {
                request_method,
                request_url,
                request_headers,
                status,
                headers,
                body,
            },
        );
    }

    /// Hands out the bytes that are to be appended to the file.
    pub fn take_pending(&mut self) -> (r: Vec<u8>)
        requires
            old(self).wf(),
        ensures
            final(self).wf(),
            r@ == old(self).pending(),
            final(self).pending() == Seq::<u8>::empty(),
            final(self).flushed() == old(self).flushed() + r@,
            final(self).format() == old(self).format(),
            final(self).failure() == old(self).failure(),
            final(self).recorded() == old(self).recorded(),
    {
        let mut out: Vec<u8> = Vec::new();
        std::mem::swap(&mut out, &mut self.pending);
        proof {
            self.flushed@ = self.flushed@ + out@;
            assert(self.flushed@ + self.pending@ =~= old(self).flushed@ + old(self).pending@);
        }
        out
    }

    /// Tells the recorder that appending to the file failed. The first
    /// failure is kept; from then on every event is dropped.
    pub fn fail(&mut self, error: RecordError)
        requires
            old(self).wf(),
        ensures
            final(self).wf(),
            final(self).failure() == if old(self).failure() is Some {
                old(self).failure()
            } else {
                Some(error)
            },
            final(self).format() == old(self).format(),
            final(self).recorded() == old(self).recorded(),
            final(self).pending() == old(self).pending(),
            final(self).flushed() == old(self).flushed(),
    {
        if self.error.is_none() {
            self.error = Some(error);
        }
    }

    /// Ends the recording. Where it has failed, the first failure is
    /// reported. Otherwise the bytes that are left to append are given: with
    /// them the file holds the closed recording of the events.
    pub fn save(self) -> (r: Result<Vec<u8>, RecordError>)
        requires
            self.wf(),
        ensures
            match self.failure() {
                Some(e) => r == Err::<Vec<u8>, _>(e),
                None => r matches Ok(bytes) && self.flushed() + bytes@ == recording(
                    self.format(),
                    self.recorded(),
                    true,
                ) && bytes@ == self.pending() + recording_end(self.format()),
            },
    {
        let Recorder { format, first, pending, error, events, flushed } = self;
        match error {
            Some(e) => Err(e),
            None => {
                let mut out = pending;
                match format {
                    TraceFormat::Json => write_stream_close(&mut out),
                    TraceFormat::Cbor => {
                        assert(out@ + recording_end(format) =~= out@);
                    },
                }
                proof {
                    lemma_recording_close(format, events@);
                    assert(flushed@ + out@ =~= (flushed@ + pending@) + recording_end(format));
                }
                Ok(out)
            },
        }
    }
}

} // verus!
