//! The data that flows between a host server and the console.

use vstd::prelude::*;

use crate::text::{chars_of, copy_str, extend, string_of};

verus! {

/// Severity of a log record, mirroring the levels `tracing` and `log` use.
#[derive(Clone, Copy, PartialEq, Eq, Structural, PartialOrd, Ord, Debug, Hash)]
pub enum Level {
    Trace,
    Debug,
    Info,
    Warn,
    Error,
}

/// Position of a level in the quietest-first order.
pub open spec fn severity(level: Level) -> nat {
    match level {
        Level::Trace => 0,
        Level::Debug => 1,
        Level::Info => 2,
        Level::Warn => 3,
        Level::Error => 4,
    }
}

/// The level at a position of the quietest-first order.
pub open spec fn level_at(index: nat) -> Level {
    if index == 0 {
        Level::Trace
    } else if index == 1 {
        Level::Debug
    } else if index == 2 {
        Level::Info
    } else if index == 3 {
        Level::Warn
    } else {
        Level::Error
    }
}

/// Fixed-width gutter label of a level.
pub open spec fn level_label(level: Level) -> Seq<char> {
    match level {
        Level::Trace => "TRACE"@,
        Level::Debug => "DEBUG"@,
        Level::Info => "INFO "@,
        Level::Warn => "WARN "@,
        Level::Error => "ERROR"@,
    }
}

impl Level {
    /// Every level, quietest first.
    pub fn all() -> (r: [Level; 5])
        ensures
            forall|i: int| 0 <= i < 5 ==> #[trigger] r@[i] == level_at(i as nat),
    {
        [Level::Trace, Level::Debug, Level::Info, Level::Warn, Level::Error]
    }

    /// Position in the quietest-first order.
    pub fn severity(self) -> (r: u8)
        ensures
            r == severity(self),
    {
        match self {
            Level::Trace => 0,
            Level::Debug => 1,
            Level::Info => 2,
            Level::Warn => 3,
            Level::Error => 4,
        }
    }

    /// The next louder level, wrapping from `Error` back to `Trace`.
    pub fn next(self) -> (r: Level)
        ensures
            r == level_at(((severity(self) + 1) % 5) as nat),
    {
        match self {
            Level::Trace => Level::Debug,
            Level::Debug => Level::Info,
            Level::Info => Level::Warn,
            Level::Warn => Level::Error,
            Level::Error => Level::Trace,
        }
    }

    /// Fixed-width label used in the log gutter.
    pub fn label(self) -> (r: &'static str)
        ensures
            r@ == level_label(self),
    {
        match self {
            Level::Trace => "TRACE",
            Level::Debug => "DEBUG",
            Level::Info => "INFO ",
            Level::Warn => "WARN ",
            Level::Error => "ERROR",
        }
    }
}

/// A single line of server output.
#[derive(Clone, Debug)]
pub struct LogRecord {
    pub level: Level,
    /// Pre-formatted timestamp; empty hides it.
    pub time: String,
    /// Emitting module/subsystem, e.g. `pumpkin::net`.
    pub target: Option<String>,
    pub message: String,
}

/// The text the search box matches a record against.
pub open spec fn searchable_text(record: LogRecord) -> Seq<char> {
    match record.target {
        Some(t) => t@ + seq![' '] + record.message@,
        None => record.message@,
    }
}

impl LogRecord {
    /// A record with no timestamp and no target.
    pub fn new(level: Level, message: &str) -> (r: LogRecord)
        ensures
            r.level == level,
            r.time@.len() == 0,
            r.target is None,
            r.message@ == message@,
    {
        LogRecord { level, time: String::new(), target: None, message: copy_str(message) }
    }

    pub fn with_time(self, time: &str) -> (r: LogRecord)
        ensures
            r.level == self.level,
            r.time@ == time@,
            r.target == self.target,
            r.message == self.message,
    {
        let mut r = self;
        r.time = copy_str(time);
        r
    }

    pub fn with_target(self, target: &str) -> (r: LogRecord)
        ensures
            r.level == self.level,
            r.time == self.time,
            r.target matches Some(t) && t@ == target@,
            r.message == self.message,
    {
        let mut r = self;
        r.target = Some(copy_str(target));
        r
    }

    /// Text the search/filter box matches against: `"{target} {message}"`, or
    /// just the message when there is no target.
    pub fn searchable(&self) -> (r: String)
        ensures
            r@ == searchable_text(*self),
    {
        match &self.target {
            Some(t) => {
                let mut cs = chars_of(t.as_str());
                cs.push(' ');
                let m = chars_of(self.message.as_str());
                extend(&mut cs, &m);
                string_of(&cs)
            },
            None => copy_str(self.message.as_str()),
        }
    }
}

/// One entry in the player sidebar.
#[derive(Clone, Debug)]
pub struct PlayerInfo {
    pub name: String,
    pub world: String,
    pub ping_ms: u32,
}

/// Something the console tells the server.
#[derive(Clone, Debug)]
pub enum ConsoleInput {
    /// A command line the operator submitted, without any leading `/`.
    Command(String),
    /// The operator asked to leave the console.
    Quit,
}

} // verus!
