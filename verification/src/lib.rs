//! Directory-size scanning and aggregation engine.
//!
//! Given a root path, the library produces a hierarchical tree of disk-usage
//! information (name, size, directory flag, children) from flat path-to-size
//! maps discovered by multi-pass, largest-first strategies.  The library holds
//! the pure logic: parsing tool output, the bounded file cache, cooperative
//! cancellation state, and tree construction.  Callers perform the actual
//! process launches, filesystem metadata lookups and event delivery, feeding
//! plain values in and out.

use vstd::prelude::*;

pub mod paths;
pub mod text;
pub mod node;
pub mod cache;
pub mod sizemap;
pub mod tree;
pub mod scan;

verus! {

/// Why a scan step or a whole scan failed.
///
/// Per-entry metadata failures (`Io`) and malformed tool-output lines
/// (`Parse`) are recovered locally by skipping the entry; a failed external
/// tool launch (`ExternalTool`), an unreadable root (`NotFound`) and observed
/// cancellation (`Cancelled`) abort the whole scan with no partial tree.
#[derive(Clone, Copy, Debug, PartialEq, Eq, Structural)]
pub enum ScanError {
    /// Per-entry metadata or read failure; the entry is skipped.
    Io,
    /// A required external command failed to launch or exited abnormally.
    ExternalTool,
    /// A malformed tool-output line; the line is skipped.
    Parse,
    /// Cooperative cancellation was observed at a checkpoint.
    Cancelled,
    /// The root path's metadata was unreadable before scanning started.
    NotFound,
}

impl ScanError {
    /// A short description of the error, as handed to callers.
    pub fn message(&self) -> (r: String)
        ensures
            *self == ScanError::Io ==> r@ == "Failed to read entry"@,
            *self == ScanError::ExternalTool ==> r@ == "External tool failed"@,
            *self == ScanError::Parse ==> r@ == "Malformed tool output"@,
            *self == ScanError::Cancelled ==> r@ == "Scan cancelled"@,
            *self == ScanError::NotFound ==> r@ == "Failed to read metadata"@,
    {
        match self {
            ScanError::Io => String::from_str("Failed to read entry"),
            ScanError::ExternalTool => String::from_str("External tool failed"),
            ScanError::Parse => String::from_str("Malformed tool output"),
            ScanError::Cancelled => String::from_str("Scan cancelled"),
            ScanError::NotFound => String::from_str("Failed to read metadata"),
        }
    }
}

/// Mutable state of one scan: the cooperative cancellation flag, the
/// cumulative processed-item counter, and the rate limiter for progress
/// events.  Time is handed in by the caller as milliseconds, so the decision
/// logic itself stays pure.
pub struct ScanState {
    /// Set when cancellation has been requested; polled at checkpoints.
    pub cancelled: bool,
    /// Cumulative number of items processed so far.
    pub items_processed: u32,
    /// Caller-clock instant (ms) of the last emitted progress event.
    pub last_emit_ms: u64,
    /// Minimum interval (ms) between progress events.
    pub emit_interval_ms: u64,
}

impl ScanState {
    /// A fresh state: not cancelled, nothing processed, a 100 ms emit
    /// interval, and no emission recorded yet.
    pub fn new() -> (r: ScanState)
        ensures
            !r.cancelled,
            r.items_processed == 0,
            r.last_emit_ms == 0,
            r.emit_interval_ms == 100,
    {
        ScanState { cancelled: false, items_processed: 0, last_emit_ms: 0, emit_interval_ms: 100 }
    }

    /// Request cancellation; idempotent, touches nothing else.
    pub fn cancel(&mut self)
        ensures
            final(self).cancelled,
            final(self).items_processed == old(self).items_processed,
            final(self).last_emit_ms == old(self).last_emit_ms,
            final(self).emit_interval_ms == old(self).emit_interval_ms,
    {
        self.cancelled = true;
    }

    /// Whether cancellation has been requested.
    pub fn is_cancelled(&self) -> (r: bool)
        ensures
            r == self.cancelled,
    {
        self.cancelled
    }

    /// Clear the cancellation flag at the start of a new scan.
    pub fn reset(&mut self)
        ensures
            !final(self).cancelled,
            final(self).items_processed == old(self).items_processed,
            final(self).last_emit_ms == old(self).last_emit_ms,
            final(self).emit_interval_ms == old(self).emit_interval_ms,
    {
        self.cancelled = false;
    }

    /// Whether a progress event is due at caller-clock instant `now_ms`:
    /// at least the emit interval has elapsed since the last emission.
    pub fn should_emit(&self, now_ms: u64) -> (r: bool)
        ensures
            r == (now_ms >= self.last_emit_ms
                && now_ms - self.last_emit_ms >= self.emit_interval_ms),
    {
        now_ms >= self.last_emit_ms && now_ms - self.last_emit_ms >= self.emit_interval_ms
    }

    /// Record that a progress event was emitted at `now_ms`.
    pub fn mark_emitted(&mut self, now_ms: u64)
        ensures
            final(self).last_emit_ms == now_ms,
            final(self).cancelled == old(self).cancelled,
            final(self).items_processed == old(self).items_processed,
            final(self).emit_interval_ms == old(self).emit_interval_ms,
    {
        self.last_emit_ms = now_ms;
    }

    /// Count one more processed item; the counter wraps as a 32-bit counter
    /// would.
    pub fn record_item(&mut self)
        ensures
            final(self).items_processed
                == (if old(self).items_processed == u32::MAX { 0u32 } else {
                    (old(self).items_processed + 1) as u32
                }),
            final(self).cancelled == old(self).cancelled,
            final(self).last_emit_ms == old(self).last_emit_ms,
            final(self).emit_interval_ms == old(self).emit_interval_ms,
    {
        if self.items_processed == u32::MAX {
            self.items_processed = 0;
        } else {
            self.items_processed = self.items_processed + 1;
        }
    }

    /// The progress report for the current moment: the path being worked
    /// on and the cumulative item count.  The caller delivers it and then
    /// records the emission with `mark_emitted`.
    pub fn progress(&self, current_path: &str) -> (r: crate::node::ScanProgress)
        ensures
            r.current_path@ == current_path@,
            r.items_processed == self.items_processed,
    {
        crate::node::ScanProgress {
            current_path: String::from_str(current_path),
            items_processed: self.items_processed,
        }
    }

    /// Overwrite the processed-item counter with a freshly computed total.
    pub fn set_items(&mut self, n: u32)
        ensures
            final(self).items_processed == n,
            final(self).cancelled == old(self).cancelled,
            final(self).last_emit_ms == old(self).last_emit_ms,
            final(self).emit_interval_ms == old(self).emit_interval_ms,
    {
        self.items_processed = n;
    }
}

} // verus!
