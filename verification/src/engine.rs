//! The load generator: what each worker thread decides about its own share of
//! the connections.
//!
//! A worker is told what happened - a socket opened, a request went out, a
//! response came in, a timer ran out - and says what to do next.

pub mod conn;
pub mod count;
pub mod effects;
pub mod gather;
pub mod laws;
pub mod limiter;
pub mod model;
pub mod setup;
pub mod slots;
pub mod tick;
pub mod trace;
pub mod worker;
