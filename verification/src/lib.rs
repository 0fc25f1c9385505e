//! Core of a load-generation engine: weighted task scheduling, user
//! allocation, host resolution and per-request statistics, with the
//! behaviour of each component stated in contracts and verified.

pub mod allocate;
pub mod client;
pub mod driver;
pub mod goose;
pub mod metrics;
pub mod request;
pub mod rng;
pub mod schedule;
pub mod urls;

use vstd::prelude::*;

verus! {

/// Snapshot of the engine-wide configuration handed to each simulated user.
/// An empty `host` means the command-line host override is not set.
#[derive(Debug)]
pub struct GooseConfiguration {
    /// Command-line host override; empty when not set.
    pub host: String,
    /// Whether request statistics are captured at all.
    pub print_stats: bool,
    /// Whether per-status-code counters are kept.
    pub status_codes: bool,
    /// Disables all metrics reporting.
    pub no_metrics: bool,
    /// Disables per-task metrics reporting.
    pub no_task_metrics: bool,
}

/// Errors raised by the scheduling core.
#[derive(Clone, Copy, Debug, PartialEq, Eq, Structural)]
pub enum GooseError {
    /// Invalid weight, inverted wait bounds or unparseable host; fatal at
    /// configuration time.
    ConfigurationError,
    /// A base URL and a path could not be joined; non-fatal per request.
    UrlBuildError,
    /// The request never produced an HTTP response; non-fatal per request.
    TransportError,
}

} // verus!
