//! Core of a log-file tailing notifier: a durable read cursor over an
//! append-only text file, incremental draining of newly appended complete
//! lines, detection of a fixed-offset status payload in each line, and a
//! notification plan with exactly one entry per matching line.
//!
//! All file, watcher and notification I/O lives outside this crate; the
//! library works on plain byte values handed in by the caller.

pub mod lines;
pub mod locator;
pub mod matcher;
pub mod tailer;
