//! Auto-repeat for an arbitrary number of keys, made from key press and
//! release events.
//!
//! Most windowing systems repeat held keys on their own. Raw events from a
//! physical device, however, come without repeats, and the system's timing
//! may not be the one an application wants: a game or a simulation may let
//! its users tune the repeat without a system-wide change. The registry in
//! this crate makes the repeats itself. Fed with raw presses and releases, it
//! synthesizes "virtual press" events: one for the press, one once a timeout
//! has passed, and one per interval after that, for as long as the key is
//! held.
//!
//! The registry fits any event loop. It reads no clock and never blocks: the
//! caller hands it the time with every event, polls it with
//! [`Keys::tick`], and sleeps until the deadline that the tick reports.
//!
//! # Layout
//!
//! - [`time`]: instants and durations as the registry counts them.
//! - [`state`]: the state machine of a single key, as a model over integers
//!   and as the value the registry stores.
//! - [`keys`]: the registry.
//! - [`outcome`]: what a tick does, as predicates over the record of its
//!   handler calls.
//! - [`laws`]: what follows, proved.
pub mod keys;
pub mod laws;
pub mod outcome;
mod scan;
pub mod state;
pub mod time;

pub use keys::KeyRepeat;
pub use keys::Keys;
pub use outcome::Delivery;
pub use state::KeyModel;
pub use state::KeyState;
pub use time::Duration;
pub use time::Instant;
