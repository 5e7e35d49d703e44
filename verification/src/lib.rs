//! Suspend/resume bridges for a single-threaded, cooperatively scheduled
//! runtime.
//!
//! Two callback-driven correlation bridges share one primitive, the
//! [`suspend::SuspendState`] cell:
//!
//! * [`connection::Multiplexer`] — request/response multiplexing over a
//!   long-lived, unreliable text transport: callers are handed a correlation
//!   ID, outstanding requests survive a reconnect and are replayed, and a
//!   tagged reply resolves exactly the matching caller.
//! * [`measurer::Registry`] — deferred external completion: callers register
//!   an item that becomes usable only after an external batched signal, and
//!   abandoned items are reclaimed by the next sweep without an explicit
//!   cancellation call.
//!
//! All transitions are pure state machine steps: the caller performs the
//! returned [`connection::Action`]s (send a frame, start a backoff timer,
//! wake a task) outside of the library, then feeds the next event back in.

pub mod bytes;
pub mod connection;
pub mod frame;
pub mod lemmas;
pub mod measurer;
pub mod suspend;
