//! A minimal version-control core: content-addressed commit records, a
//! line-range diff encoding, a staging/commit state machine, and the
//! assembly logic behind reading, initialising and fetching repositories.
//!
//! Everything here is verified; file, network and terminal handling live
//! in the surrounding application crate.

pub mod error;
pub mod text;
pub mod commit;
pub mod remote;
pub mod repo;
pub mod server;
