//! Trace analysis for cache-behaviour studies.
//!
//! A trace is a sequence of accesses, each naming an object by an identifier.
//! This crate replays a trace through a cache simulator and counts its misses,
//! and it computes what the trace itself has to say, whatever the cache:
//! the span of each identifier, the reuse interval of each access, and the
//! average footprint at every window length.

pub mod distinct;
pub mod estimator;
pub mod histogram;
pub mod ident;
pub mod listing;
pub mod occurrence;
pub mod outcome;
pub mod reuse;
pub mod sim;
pub mod spans;
pub mod sums;
pub mod trace;
pub mod window;

pub use crate::estimator::{footprint, AvgFootprint};
pub use crate::ident::ObjIdTraits;
pub use crate::occurrence::INF;
pub use crate::outcome::AccessResult;
pub use crate::reuse::reuse_interval;
pub use crate::sim::{count_access, CacheSim};
pub use crate::spans::access_times;
pub use crate::trace::materialize;
