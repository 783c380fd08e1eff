//! Diagnostics the pipeline hands to a logging sink.
//!
//! The core never writes to a stream itself: it records structured events,
//! and the surrounding program renders each one as a leveled message.
use vstd::prelude::*;

verus! {

/// Severity of a message handed to the logging sink.
#[derive(Debug, Clone, Copy, PartialEq, Eq, Structural)]
pub enum LogLevel {
    Success,
    Error,
    Warning,
    Info,
}

/// One diagnostic recorded while lexing or parsing, with the data a sink
/// needs to render its message. Line numbers are one-based.
#[derive(Debug, Clone, Copy, PartialEq, Eq, Structural)]
pub enum LogEvent {
    /// A missing trailing blank line was re-added to the input.
    ExtraBlankLine,
    /// A byte-order mark was stripped from the first line.
    BomDetected,
    /// A timestamp field deviates from the canonical `00:00:00,000` padding.
    PaddingIssue { line: usize },
    /// A block counter is not one greater than the previously accepted one.
    CounterJump { line: usize, last_value: usize, last_line: usize, value: usize },
    /// The first counter of the file is not `1`.
    FirstCounterNotOne { line: usize, value: usize },
    /// A subtitle's start and end timestamps are equal.
    EqualTimestamps { id: usize, line: usize },
    /// A closing markup tag appeared with no tag open.
    StrayClosingTag { line: usize },
    /// A markup tag was still open at the end of a subtitle's text.
    UnclosedMarkup { line: usize },
}

impl LogEvent {
    /// The severity a sink should attach to this event.
    pub open spec fn spec_level(&self) -> LogLevel {
        match self {
            LogEvent::ExtraBlankLine => LogLevel::Info,
            LogEvent::BomDetected => LogLevel::Info,
            _ => LogLevel::Warning,
        }
    }

    /// Runtime severity of this event.
    pub fn level(&self) -> (r: LogLevel)
        ensures
            r == self.spec_level(),
    {
        match self {
            LogEvent::ExtraBlankLine => LogLevel::Info,
            LogEvent::BomDetected => LogLevel::Info,
            _ => LogLevel::Warning,
        }
    }
}

} // verus!
