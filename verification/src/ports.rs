//! Structured logging port and its severity levels.

use vstd::prelude::*;

verus! {

/// Log severity levels, ordered from least to most severe.
#[derive(Debug, Clone, Copy, PartialEq, Eq, PartialOrd, Ord, Hash)]
pub enum LogLevel {
    /// Trace-level diagnostic.
    Trace,
    /// Debug-level diagnostic.
    Debug,
    /// Informational message.
    Info,
    /// Warning condition.
    Warn,
    /// Error condition.
    Error,
}

/// Structured log observation port.
pub trait LogPort: Send + Sync + 'static {
    /// Emit a structured log record.
    fn record_log(&self, level: LogLevel, message: &str);
}

/// Metrics port that discards everything.
#[derive(Debug, Default, Clone)]
pub struct NoOpMetricsPort;

/// Log port that discards all records.
#[derive(Debug, Default, Clone)]
pub struct NoOpLogPort;

impl LogPort for NoOpLogPort {
    fn record_log(&self, level: LogLevel, message: &str) {
    }
}

} // verus!
