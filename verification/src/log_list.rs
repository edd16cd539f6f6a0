//! The in-memory log kept for the presentation layer.

use vstd::prelude::*;
use vstd::string::StringExecFns;

verus! {

/// Severity classes for log events.  They are purely classificatory:
/// no decision of the migration worker depends on them.
#[derive(Eq, PartialEq, Structural, Copy, Clone, Debug)]
pub enum LogLevel {
    Warn,
    Info,
    Error,
    Trace,
}

/// An append-only list of log messages with their levels.
pub struct Logger {
    pub contents: Vec<(String, LogLevel)>,
}

impl Logger {
    /// Append one message.
    pub fn log(&mut self, message: &str, level: LogLevel)
        ensures
            final(self).contents@.len() == old(self).contents@.len() + 1,
            final(self).contents@.last().0@ == message@,
            final(self).contents@.last().1 == level,
            forall|i: int|
                0 <= i < old(self).contents@.len() ==> final(self).contents@[i] == old(
                    self,
                ).contents@[i],
    {
        self.contents.push((String::from_str(message), level));
    }
}

} // verus!
