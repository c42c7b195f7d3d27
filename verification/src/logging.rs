//! Which log records reach the in-app terminal, and the bounded buffer that holds them.
//!
//! Every record at `Info` or more severe from any target gets in, plus every `Debug` record
//! whose target starts with this crate's name. Nothing secret may ever be logged: the buffer
//! is shown to the user and can be copied.

use vstd::prelude::*;
use crate::text::chars_of;

verus! {

/// Lines kept in the terminal buffer.
pub const TERMINAL_CAPACITY: usize = 500;

/// Severity of a log record, most severe first.
#[derive(Clone, Copy, Debug, PartialEq, Eq, Structural)]
pub enum LogLevel {
    Error,
    Warn,
    Info,
    Debug,
    Trace,
}

/// The rank of a level: lower is more severe.
pub open spec fn level_rank(l: LogLevel) -> nat {
    match l {
        LogLevel::Error => 1,
        LogLevel::Warn => 2,
        LogLevel::Info => 3,
        LogLevel::Debug => 4,
        LogLevel::Trace => 5,
    }
}

/// The target prefix of this crate's own records.
pub open spec fn crate_target() -> Seq<char> {
    "p2p_transfer"@
}

/// Whether a record of `level` from `target` belongs in the terminal buffer.
pub open spec fn wants_buffer_spec(level: LogLevel, target: Seq<char>) -> bool {
    level_rank(level) <= 3 || (level == LogLevel::Debug && target.len() >= crate_target().len()
        && target.take(crate_target().len() as int) == crate_target())
}

/// Whether a record belongs in the user-visible terminal buffer.
pub fn wants_buffer(level: LogLevel, target: &str) -> (r: bool)
    ensures
        r == wants_buffer_spec(level, target@),
{
    match level {
        LogLevel::Error | LogLevel::Warn | LogLevel::Info => true,
        LogLevel::Trace => false,
        LogLevel::Debug => {
            let t = chars_of(target);
            let p = chars_of("p2p_transfer");
            if t.len() < p.len() {
                return false;
            }
            let mut i: usize = 0;
            while i < p.len()
                invariant
                    p@ == crate_target(),
                    t@ == target@,
                    level == LogLevel::Debug,
                    p@.len() <= t@.len(),
                    i <= p@.len(),
                    forall|j: int| 0 <= j < i ==> t@[j] == p@[j],
                decreases p@.len() - i,
            {
                if t[i] != p[i] {
                    assert(t@.take(p@.len() as int)[i as int] != p@[i as int]);
                    assert(t@.take(crate_target().len() as int) != crate_target());
                    return false;
                }
                i = i + 1;
            }
            assert(t@.take(p@.len() as int) =~= p@);
            true
        },
    }
}

/// The terminal's lines, oldest first, never more than [`TERMINAL_CAPACITY`].
pub struct TerminalBuffer {
    lines: Vec<String>,
}

impl TerminalBuffer {
    pub closed spec fn shown(&self) -> Seq<String> {
        self.lines@
    }

    pub closed spec fn wf(&self) -> bool {
        self.lines@.len() <= TERMINAL_CAPACITY
    }

    /// Appends `line`, dropping the oldest lines so that at most [`TERMINAL_CAPACITY`] remain.
    pub fn push(&mut self, line: String)
        requires
            old(self).wf(),
        ensures
            final(self).wf(),
            old(self).shown().len() < TERMINAL_CAPACITY ==> final(self).shown() == old(
                self,
            ).shown().push(line),
            old(self).shown().len() == TERMINAL_CAPACITY ==> final(self).shown() == old(
                self,
            ).shown().drop_first().push(line),
    {
        if self.lines.len() >= TERMINAL_CAPACITY {
            self.lines.remove(0);
        }
        self.lines.push(line);
    }

    pub fn len(&self) -> (r: usize)
        ensures
            r == self.shown().len(),
    {
        self.lines.len()
    }

    /// The line at `i`, oldest first.
    pub fn line(&self, i: usize) -> (r: &String)
        requires
            i < self.shown().len(),
        ensures
            *r == self.shown()[i as int],
    {
        &self.lines[i]
    }
}

/// A new, empty terminal buffer.
pub fn terminal_buffer() -> (r: TerminalBuffer)
    ensures
        r.wf(),
        r.shown().len() == 0,
{
    TerminalBuffer { lines: Vec::new() }
}

} // verus!
