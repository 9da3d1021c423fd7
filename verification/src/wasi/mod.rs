//! What the host-call shims decide by, apart from the trace itself.

pub mod http;
pub mod util;
