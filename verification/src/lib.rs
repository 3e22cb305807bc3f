//! A terminal-dashboard metrics pipeline for a remote Erlang runtime.
//!
//! The crate models point-in-time metric snapshots, derives per-second rates
//! from monotonic counters, maintains trailing-window averages, and records
//! snapshot streams to a byte format that can be replayed and scrubbed
//! deterministically.  Connecting to the runtime and rendering the terminal
//! UI are left to the surrounding application.

pub mod average;
pub mod codec;
pub mod collect;
pub mod erlang;
pub mod lex;
pub mod metrics;
pub mod poller;
pub mod replay;
pub mod text;

