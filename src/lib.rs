//! A small single-threaded HTTP server core: the response wire codec, the
//! table of live connections with their idle countdown, and the decisions
//! that the readiness loop takes on each event.

pub mod response;
pub mod client;
pub mod request;
pub mod reactor;
pub mod logging;
pub mod config;
