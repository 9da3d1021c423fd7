//! The trace: its events, its two encodings and the conversion between them.

pub mod cbor;
pub mod cbor_cut;
pub mod convert;
pub mod event;
pub mod format;
pub mod json;
pub mod json_laws;
pub mod json_write;
pub mod octets;
pub mod order;
pub mod schema;

pub use convert::{convert, TraceError};
pub use event::{Datetime, EventKind, EventModel, TraceEvent};
pub use format::{FormatError, TraceFile, TraceFormat};
