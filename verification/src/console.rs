use vstd::prelude::*;

verus! {

/// How important a log line is.
#[derive(Clone, Copy, Debug, PartialEq, Eq, Structural)]
pub enum LogLevel {
    Error,
    Warn,
    Info,
    Debug,
    Trace,
}

impl LogLevel {
    /// The label that a log line of this level starts with.
    pub fn name(&self) -> (r: &'static str)
        ensures
            r@ == (match self {
                LogLevel::Error => "ERROR"@,
                LogLevel::Warn => "WARN"@,
                LogLevel::Info => "INFO"@,
                LogLevel::Debug => "DEBUG"@,
                LogLevel::Trace => "TRACE"@,
            }),
    {
        match self {
            LogLevel::Error => "ERROR",
            LogLevel::Warn => "WARN",
            LogLevel::Info => "INFO",
            LogLevel::Debug => "DEBUG",
            LogLevel::Trace => "TRACE",
        }
    }

    /// The terminal color code of the line's text.
    pub fn front_color(&self) -> (r: u8)
        ensures
            r == (match self {
                LogLevel::Error => 31u8,
                LogLevel::Warn => 33u8,
                LogLevel::Info => 34u8,
                LogLevel::Debug => 32u8,
                LogLevel::Trace => 90u8,
            }),
    {
        match self {
            LogLevel::Error => 31,
            LogLevel::Warn => 33,
            LogLevel::Info => 34,
            LogLevel::Debug => 32,
            LogLevel::Trace => 90,
        }
    }

    /// The terminal color code of the label's background.
    pub fn back_color(&self) -> (r: u8)
        ensures
            r == (match self {
                LogLevel::Error => 41u8,
                LogLevel::Warn => 43u8,
                LogLevel::Info => 44u8,
                LogLevel::Debug => 42u8,
                LogLevel::Trace => 100u8,
            }),
    {
        match self {
            LogLevel::Error => 41,
            LogLevel::Warn => 43,
            LogLevel::Info => 44,
            LogLevel::Debug => 42,
            LogLevel::Trace => 100,
        }
    }
}

} // verus!
