//! The diagnostic buffer the desktop shell replays into its UI: an ordered
//! log of timestamped entries, owned by the caller and handed in wherever
//! diagnostics are produced.

use vstd::prelude::*;

verus! {

/// Severity of one diagnostic.
#[derive(Clone, Copy, Debug, PartialEq, Eq, Structural)]
pub enum LogLevel {
    Error,
    Warn,
    Info,
    Debug,
    Trace,
}

impl LogLevel {
    /// The level's conventional upper-case name.
    pub open spec fn spec_name(self) -> Seq<char> {
        match self {
            LogLevel::Error => ("ERROR")@,
            LogLevel::Warn => ("WARN")@,
            LogLevel::Info => ("INFO")@,
            LogLevel::Debug => ("DEBUG")@,
            LogLevel::Trace => ("TRACE")@,
        }
    }

    /// Whether entries of this severity are kept: informational and more
    /// severe ones are, debug and trace chatter is not.
    pub open spec fn spec_enabled(self) -> bool {
        match self {
            LogLevel::Error => true,
            LogLevel::Warn => true,
            LogLevel::Info => true,
            LogLevel::Debug => false,
            LogLevel::Trace => false,
        }
    }

    pub fn name(&self) -> (r: &'static str)
        ensures
            r@ == self.spec_name(),
    {
        match self {
            LogLevel::Error => "ERROR",
            LogLevel::Warn => "WARN",
            LogLevel::Info => "INFO",
            LogLevel::Debug => "DEBUG",
            LogLevel::Trace => "TRACE",
        }
    }
}

/// One buffered diagnostic: when it was recorded, how severe it is, and
/// the message.
pub struct LogEntry {
    pub timestamp: u64,
    pub level: String,
    pub message: String,
}

/// Relies on std::time::SystemTime::now and duration_since for the seconds
/// since the Unix epoch; zero where the clock sits before the epoch.
#[verifier::external_body]
fn unix_timestamp_secs() -> u64 {
    std::time::SystemTime::now()
        .duration_since(std::time::UNIX_EPOCH)
        .map(|d| d.as_secs())
        .unwrap_or(0)
}

/// The log sink. One instance serves one shell session; the shell mirrors
/// entries into its UI by fetching them after each job.
pub struct TauriLogger {
    pub entries: Vec<LogEntry>,
}

impl TauriLogger {
    /// Sets the logger up with an empty buffer.
    pub fn init() -> (l: TauriLogger)
        ensures
            l.entries@.len() == 0,
    {
        TauriLogger { entries: Vec::new() }
    }

    /// Returns a copy of the buffered entries, oldest first.
    pub fn get_logs(&self) -> (r: Vec<LogEntry>)
        ensures
            r@ == self.entries@,
    {
        let mut r: Vec<LogEntry> = Vec::new();
        let mut i: usize = 0;
        while i < self.entries.len()
            invariant
                i <= self.entries@.len(),
                r@.len() == i,
                forall|k: int| 0 <= k < i ==> #[trigger] r@[k] == self.entries@[k],
            decreases self.entries@.len() - i,
        {
            let e = LogEntry {
                timestamp: self.entries[i].timestamp,
                level: self.entries[i].level.clone(),
                message: self.entries[i].message.clone(),
            };
            r.push(e);
            i = i + 1;
        }
        proof {
            assert(r@ =~= self.entries@);
        }
        r
    }

    /// Discards all buffered entries.
    pub fn clear_logs(&mut self)
        ensures
            final(self).entries@.len() == 0,
    {
        self.entries.clear();
    }

    /// Appends one diagnostic, stamped with the current time.
    pub fn add_log(&mut self, level: LogLevel, message: String)
        ensures
            final(self).entries@.len() == old(self).entries@.len() + 1,
            final(self).entries@.subrange(0, old(self).entries@.len() as int) == old(
                self,
            ).entries@,
            final(self).entries@.last().level@ == level.spec_name(),
            final(self).entries@.last().message == message,
    {
        let timestamp = unix_timestamp_secs();
        let entry = LogEntry { timestamp, level: String::from_str(level.name()), message };
        let ghost before = self.entries@;
        self.entries.push(entry);
        proof {
            assert(self.entries@.subrange(0, before.len() as int) =~= before);
        }
    }

    /// Whether this sink keeps diagnostics of the given severity.
    pub fn enabled(&self, level: LogLevel) -> (r: bool)
        ensures
            r == level.spec_enabled(),
    {
        match level {
            LogLevel::Error => true,
            LogLevel::Warn => true,
            LogLevel::Info => true,
            LogLevel::Debug => false,
            LogLevel::Trace => false,
        }
    }

    /// Buffers the message if its severity is enabled; otherwise leaves the
    /// buffer untouched.
    pub fn log(&mut self, level: LogLevel, message: String)
        ensures
            if level.spec_enabled() {
                &&& final(self).entries@.len() == old(self).entries@.len() + 1
                &&& final(self).entries@.subrange(0, old(self).entries@.len() as int) == old(
                    self,
                ).entries@
                &&& final(self).entries@.last().level@ == level.spec_name()
                &&& final(self).entries@.last().message == message
            } else {
                *final(self) == *old(self)
            },
    {
        if self.enabled(level) {
            self.add_log(level, message);
        }
    }
}

} // verus!
