//! A telemetry distribution core: a store of time-stamped samples per topic,
//! a codec that flattens nested records into named columns and frames one
//! sample as a self-describing columnar row, the sync protocol that answers
//! requests against the store, and the decisions of a streaming session.
//!
//! Numbers are held as their IEEE-754 bit patterns, so that every value the
//! library handles has an exact mathematical model.

pub mod codec;
pub mod flatten;
pub mod services;
pub mod session;
pub mod store;
pub mod sync;
pub mod value;
