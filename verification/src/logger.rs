//! Log levels and the logger configuration value.
//!
//! The library decides which messages a configured logger lets through and
//! what prefix a message carries; writing to the diagnostic stream, and the
//! colouring of the prefix, are left to the caller.

use vstd::prelude::*;

verus! {

/// A log level, from most to least verbose.
#[derive(Debug, PartialEq, Eq, Structural, Clone, Copy)]
pub enum Level {
    Trace,
    Debug,
    Info,
    Warn,
    Error,
}

/// The numeric verbosity of a level: a larger number means a more verbose
/// level.  A message is let through when its verbosity does not exceed the
/// configured one.
pub open spec fn spec_verbosity(l: Level) -> int {
    match l {
        Level::Error => 1,
        Level::Warn => 2,
        Level::Info => 3,
        Level::Debug => 4,
        Level::Trace => 5,
    }
}

impl Level {
    /// The executable counterpart of [`spec_verbosity`].
    pub fn verbosity(&self) -> (r: u8)
        ensures
            r as int == spec_verbosity(*self),
    {
        match self {
            Level::Error => 1,
            Level::Warn => 2,
            Level::Info => 3,
            Level::Debug => 4,
            Level::Trace => 5,
        }
    }

    /// The lower-case name of the level, as written in configuration and
    /// in message prefixes.
    pub open spec fn spec_label(self) -> Seq<char> {
        match self {
            Level::Trace => "trace"@,
            Level::Debug => "debug"@,
            Level::Info => "info"@,
            Level::Warn => "warn"@,
            Level::Error => "error"@,
        }
    }

    /// The executable counterpart of [`Level::spec_label`].
    pub fn label(&self) -> (r: String)
        ensures
            r@ == self.spec_label(),
    {
        match self {
            Level::Trace => "trace".to_owned(),
            Level::Debug => "debug".to_owned(),
            Level::Info => "info".to_owned(),
            Level::Warn => "warn".to_owned(),
            Level::Error => "error".to_owned(),
        }
    }
}

/// The prefix a message at the given level carries: nothing for `Info`,
/// the lower-case level name followed by a colon and a space otherwise.
pub open spec fn spec_message_header(l: Level) -> Seq<char> {
    if l == Level::Info {
        Seq::empty()
    } else {
        l.spec_label() + ": "@
    }
}

/// The executable counterpart of [`spec_message_header`].
pub fn message_header(l: Level) -> (r: String)
    ensures
        r@ == spec_message_header(l),
{
    match l {
        Level::Info => String::new(),
        _ => l.label().concat(": "),
    }
}

/// A logger configuration: just the expected log level.
#[derive(Debug, PartialEq, Eq, Structural, Clone, Copy)]
pub struct Logger {
    level: Level,
}

impl Logger {
    /// The configured level.
    pub closed spec fn spec_level(self) -> Level {
        self.level
    }

    /// Creates a new logger configuration.  The default level is `Info`.
    pub fn new() -> (r: Logger)
        ensures
            r.spec_level() == Level::Info,
    {
        Logger { level: Level::Info }
    }

    /// Explicitly sets the log level.
    pub fn level(self, l: Level) -> (r: Logger)
        ensures
            r.spec_level() == l,
    {
        Logger { level: l }
    }

    /// Whether a message at the given level is let through: its verbosity
    /// must not exceed the configured one.
    pub fn enabled(&self, message_level: Level) -> (r: bool)
        ensures
            r == (spec_verbosity(message_level) <= spec_verbosity(self.spec_level())),
    {
        message_level.verbosity() <= self.level.verbosity()
    }
}

} // verus!
