//! The decisions of an HTTP/3 load benchmark.

pub mod clock;
pub mod config;
pub mod control;
pub mod duration;
pub mod engine;
pub mod fixed;
pub mod flags;
pub mod logging;
pub mod order;
pub mod plan;
pub mod procstat;
pub mod ps;
pub mod random;
pub mod report;
pub mod server;
pub mod settings;
pub mod stats;
pub mod text;
pub mod timers;
pub mod words;
