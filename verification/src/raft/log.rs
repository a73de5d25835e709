//! The replicated log.

use vstd::prelude::*;
use vstd::slice::slice_subrange;

verus! {

/// The command that a log entry carries to the storage engine.
#[derive(Debug, PartialEq)]
pub enum LogCommand {
    /// Store a key-value pair.
    Put { key: String, value: String },
    /// Delete a key.
    Delete { key: String },
    /// Bookkeeping only: never applied to the storage engine.
    Noop,
}

impl Clone for LogCommand {
    fn clone(&self) -> (copy: Self)
        ensures
            copy == *self,
    {
        match self {
            LogCommand::Put { key, value } => LogCommand::Put {
                key: key.clone(),
                value: value.clone(),
            },
            LogCommand::Delete { key } => LogCommand::Delete { key: key.clone() },
            LogCommand::Noop => LogCommand::Noop,
        }
    }
}

/// One entry of the log: what to do, and the term of the leader that proposed it.
#[derive(Debug, PartialEq)]
pub struct LogEntry {
    /// The term in which a leader created the entry.
    pub term: u64,
    /// What to execute once the entry is committed.
    pub command: LogCommand,
}

impl Clone for LogEntry {
    fn clone(&self) -> (copy: Self)
        ensures
            copy == *self,
    {
        LogEntry { term: self.term, command: self.command.clone() }
    }
}

/// The log that holds only the sentinel.
pub open spec fn empty_log() -> Seq<LogEntry> {
    seq![LogEntry { term: 0, command: LogCommand::Noop }]
}

/// The term found at `index` of a log: 0 where the log has no such entry.
pub open spec fn term_of(log: Seq<LogEntry>, index: int) -> u64 {
    if 0 <= index < log.len() {
        log[index].term
    } else {
        0
    }
}

/// The term of the last entry of a log.
pub open spec fn last_term_of(log: Seq<LogEntry>) -> u64 {
    term_of(log, log.len() - 1)
}

/// The entries of a log from `start` on: none where the log ends before `start`.
pub open spec fn suffix_of(log: Seq<LogEntry>, start: int) -> Seq<LogEntry> {
    if 0 <= start < log.len() {
        log.skip(start)
    } else {
        Seq::empty()
    }
}

/// An ordered sequence of entries, whose index 0 holds a sentinel of term 0 that stands for
/// "before the log began". Real entries have the indices from 1 on.
pub struct RaftLog {
    entries: Vec<LogEntry>,
}

impl View for RaftLog {
    type V = Seq<LogEntry>;

    /// The entries, sentinel first.
    closed spec fn view(&self) -> Seq<LogEntry> {
        self.entries@
    }
}

impl RaftLog {
    /// The sentinel is in place.
    pub open spec fn wf(&self) -> bool {
        self@.len() >= 1
    }

    /// A log that holds only the sentinel.
    pub fn new() -> (log: Self)
        ensures
            log.wf(),
            log@ == empty_log(),
    {
        let mut entries: Vec<LogEntry> = Vec::new();
        entries.push(LogEntry { term: 0, command: LogCommand::Noop });
        RaftLog { entries }
    }

    /// A log with the given entries, of which the first is the sentinel.
    pub fn from_entries(entries: Vec<LogEntry>) -> (log: Self)
        ensures
            log@ == entries@,
    {
        RaftLog { entries }
    }

    /// The entry at `index`, if the log reaches so far. Index 0 gives the sentinel.
    pub fn get(&self, index: usize) -> (entry: Option<&LogEntry>)
        ensures
            entry == (if index < self@.len() {
                Some(&self@[index as int])
            } else {
                None
            }),
    {
        if index < self.entries.len() {
            Some(&self.entries[index])
        } else {
            None
        }
    }

    /// The index of the last entry: 0 if there is only the sentinel.
    pub fn last_index(&self) -> (index: usize)
        requires
            self.wf(),
        ensures
            index == self@.len() - 1,
            index < usize::MAX,
    {
        self.entries.len() - 1
    }

    /// The term of the last entry: 0 if there is only the sentinel.
    pub fn last_term(&self) -> (term: u64)
        ensures
            term == last_term_of(self@),
    {
        if self.entries.len() == 0 {
            0
        } else {
            self.entries[self.entries.len() - 1].term
        }
    }

    /// The term of the entry at `index`: 0 if the log does not reach so far.
    pub fn term_at(&self, index: usize) -> (term: u64)
        ensures
            term == term_of(self@, index as int),
    {
        if index < self.entries.len() {
            self.entries[index].term
        } else {
            0
        }
    }

    /// Append one entry, and return its index.
    pub fn append(&mut self, entry: LogEntry) -> (index: usize)
        ensures
            final(self)@ == old(self)@.push(entry),
            index == old(self)@.len(),
            final(self).wf(),
    {
        self.entries.push(entry);
        self.last_index()
    }

    /// Append several entries in order, and return the index of the last entry of the log.
    pub fn append_entries(&mut self, entries: Vec<LogEntry>) -> (index: usize)
        requires
            old(self)@.len() + entries@.len() >= 1,
        ensures
            final(self)@ == old(self)@ + entries@,
            index == final(self)@.len() - 1,
            final(self).wf(),
    {
        let mut entries = entries;
        self.entries.append(&mut entries);
        self.last_index()
    }

    /// Remove the entry at `index` and all that follow it. The entries before `index` stay.
    pub fn truncate_from(&mut self, index: usize)
        ensures
            final(self)@ == (if index < old(self)@.len() {
                old(self)@.take(index as int)
            } else {
                old(self)@
            }),
    {
        if index < self.entries.len() {
            self.entries.truncate(index);
        }
    }

    /// The entries from `start_index` to the end: none if the log ends before that.
    pub fn entries_from(&self, start_index: usize) -> (entries: &[LogEntry])
        ensures
            entries@ == suffix_of(self@, start_index as int),
    {
        let end: usize = self.entries.len();
        let start: usize = if start_index >= end { end } else { start_index };
        slice_subrange(self.entries.as_slice(), start, end)
    }

    /// How many real entries the log holds, not counting the sentinel.
    pub fn len(&self) -> (count: usize)
        requires
            self.wf(),
        ensures
            count == self@.len() - 1,
    {
        self.entries.len() - 1
    }
}

/// A copy of a run of entries.
pub fn copy_entries(entries: &[LogEntry]) -> (copy: Vec<LogEntry>)
    ensures
        copy@ == entries@,
{
    let mut copy: Vec<LogEntry> = Vec::new();
    let mut i: usize = 0;
    while i < entries.len()
        invariant
            i <= entries@.len(),
            copy@ == entries@.take(i as int),
        decreases entries@.len() - i,
    {
        copy.push(entries[i].clone());
        i += 1;
    }
    copy
}

/// A log that is empty has only its sentinel, of term 0. The term at an index is that of the entry
/// there, and 0 past the end; the last term is that of the last entry. What a log has from an index
/// on are its entries from there to the end.
pub proof fn law_logs_are_indexed_from_the_sentinel(log: Seq<LogEntry>, index: int)
    requires
        index >= 0,
    ensures
        empty_log().len() == 1,
        empty_log()[0].term == 0,
        empty_log()[0].command is Noop,
        index < log.len() ==> term_of(log, index) == log[index].term,
        index >= log.len() ==> term_of(log, index) == 0,
        log.len() > 0 ==> last_term_of(log) == log[log.len() - 1].term,
        index < log.len() ==> suffix_of(log, index) == log.skip(index),
        index >= log.len() ==> suffix_of(log, index).len() == 0,
{
}

} // verus!
