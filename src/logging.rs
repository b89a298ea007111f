//! Severity levels of log messages and how they are labelled on a terminal.

use vstd::prelude::*;
use vstd::string::StrSliceExecFns;
use vstd::string::StringExecFns;

verus! {

/// How serious a log message is.
#[derive(Clone, Copy, Debug, PartialEq, Eq, Structural)]
pub enum LogLevel {
    Debug,
    Warning,
    Error,
    Info,
}

/// The terminal colour sequence that starts a label of this level.
pub open spec fn color_of(level: LogLevel) -> &'static str {
    match level {
        LogLevel::Debug => "\x1b[90;3m",
        LogLevel::Warning => "\x1b[93;1m",
        LogLevel::Error => "\x1b[91;1m",
        LogLevel::Info => "\x1b[36m",
    }
}

/// The name of a level, as written between brackets in its label.
pub open spec fn name_of(level: LogLevel) -> &'static str {
    match level {
        LogLevel::Debug => "Debug",
        LogLevel::Warning => "Warning",
        LogLevel::Error => "Error",
        LogLevel::Info => "Info",
    }
}

/// The label of a level: its colour, its name in brackets, and the sequence
/// that resets the colour.
pub open spec fn label_of(level: LogLevel) -> Seq<char> {
    color_of(level)@ + "["@ + name_of(level)@ + "]"@ + "\x1b[0m"@
}

impl LogLevel {
    /// The terminal colour sequence of this level.
    pub fn color(&self) -> (r: &'static str)
        ensures
            r == color_of(*self),
    {
        match self {
            LogLevel::Debug => "\x1b[90;3m",
            LogLevel::Warning => "\x1b[93;1m",
            LogLevel::Error => "\x1b[91;1m",
            LogLevel::Info => "\x1b[36m",
        }
    }

    /// The name of this level.
    pub fn name(&self) -> (r: &'static str)
        ensures
            r == name_of(*self),
    {
        match self {
            LogLevel::Debug => "Debug",
            LogLevel::Warning => "Warning",
            LogLevel::Error => "Error",
            LogLevel::Info => "Info",
        }
    }

    /// The coloured label that starts each log line of this level.
    pub fn to_string(&self) -> (r: String)
        ensures
            r@ == label_of(*self),
    {
        let mut s = String::from_str(self.color());
        s.append("[");
        s.append(self.name());
        s.append("]");
        s.append("\x1b[0m");
        s
    }
}

} // verus!
