//! Reconstruction of per-player camera-usage statistics from a decoded
//! game-replay event stream.
//!
//! The input is an ordered sequence of per-frame actor deltas (creations,
//! deletions, attribute updates) together with the replay's static object and
//! name tables, already decoded by an external collaborator and converted to
//! plain values.  From that stream the crate rebuilds actor lifetimes,
//! resolves camera actors to stable player identities, extracts the match
//! phase timeline, detects mid-match disconnects, and accumulates per-player
//! elapsed-time and camera-toggle statistics under three accounting policies.
//!
//! Clock times are carried as integer ticks; the caller chooses the scale
//! when converting the decoder's floating-point clock.

pub mod assoc;
pub mod ballcam;
pub mod disconnect;
pub mod discovery;
pub mod events;
pub mod lifetimes;
pub mod meta;
pub mod phases;
pub mod players;
pub mod replay;
pub mod reservations;
pub mod schema;
pub mod stats;
pub mod tally;
