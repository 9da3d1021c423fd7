//! Deterministic record and replay of the host calls of a WebAssembly component.
//!
//! At record time every value that the component observes through a
//! non-deterministic host call is appended to a trace; at replay time the same
//! values are handed back in the same order and any divergence is reported.
//! This crate holds the trace model, its two encodings, the recorder and the
//! playback state machines, and the rules the host-call shims decide by.

pub mod cbor_util;
pub mod engine;
pub mod playback;
pub mod recorder;
pub mod trace;
pub mod wasi;

pub use playback::Playback;
pub use recorder::Recorder;
pub use trace::{convert, TraceEvent, TraceFile, TraceFormat};
