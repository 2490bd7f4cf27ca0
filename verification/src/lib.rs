//! Verified core of a container-log metrics exporter.
//!
//! The library holds the logic that is worth proving: configuration
//! validation, extraction of (status, domain) events from raw log lines,
//! the time-windowed metric store with staleness eviction, the discovery
//! reconciler's planning step, and the per-container watcher state machine.
//! All I/O (container runtime queries, log streaming, the HTTP metrics
//! endpoint) lives outside the library and hands it plain values.

pub mod config;
pub mod extract;
pub mod reconcile;
pub mod store;
pub mod watcher;
