//! The kernel logger's settings: the level it starts with and the marker it prints before a
//! message of each level.

use vstd::prelude::*;

verus! {

/// The importance of a log message, from most to least severe.
#[derive(Clone, Copy, Debug, PartialEq, Eq, Structural)]
pub enum LogLevel {
    /// Designates very serious errors.
    Error,
    /// Designates hazardous situations.
    Warn,
    /// Designates useful information.
    Info,
    /// Designates lower priority information.
    Debug,
    /// Designates very low priority, often extremely verbose, information.
    Trace,
}

/// Set the global maximum log level of the `log` crate to `level`, by `log::set_max_level`.
///
/// The call changes state of the `log` crate that the library does not read, so nothing is
/// stated about it.
#[verifier::external_body]
fn set_max_level(level: LogLevel) {
    log::set_max_level(
        match level {
            LogLevel::Error => log::LevelFilter::Error,
            LogLevel::Warn => log::LevelFilter::Warn,
            LogLevel::Info => log::LevelFilter::Info,
            LogLevel::Debug => log::LevelFilter::Debug,
            LogLevel::Trace => log::LevelFilter::Trace,
        },
    )
}

/// A logger that writes each message through the kernel's console, preceded by a marker of its
/// level.
pub struct KernelLogger {
    /// The maximum level of messages that are logged once the logger is installed.
    pub initial_log_level: LogLevel,
}

impl KernelLogger {
    /// A logger that starts with `max_log_level` as its maximum level.
    pub fn new(max_log_level: LogLevel) -> (r: KernelLogger)
        ensures
            r.initial_log_level == max_log_level,
    {
        KernelLogger { initial_log_level: max_log_level }
    }

    /// Change the maximum level of messages that are logged.
    pub fn update_log_level(&self, level: LogLevel) {
        set_max_level(level);
    }

    /// The marker printed before a message of `level`.
    pub fn level_marker(level: LogLevel) -> (r: &'static str)
        ensures
            r@ == match level {
                LogLevel::Error => "❌"@,
                LogLevel::Warn => "⚠️"@,
                LogLevel::Info => "ℹ️"@,
                LogLevel::Debug => "🛠️"@,
                LogLevel::Trace => "👣"@,
            },
    {
        match level {
            LogLevel::Error => "❌",
            LogLevel::Warn => "⚠️",
            LogLevel::Info => "ℹ️",
            LogLevel::Debug => "🛠️",
            LogLevel::Trace => "👣",
        }
    }
}

} // verus!
