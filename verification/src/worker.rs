//! The ingestion task protocol: a cancellable single-slot task mailbox,
//! the worker status value, and the per-line decisions of the worker loop.
//! The surrounding shell owns the thread, the lock and the file handle; the
//! decisions of the loop body live here.

use vstd::prelude::*;

use crate::json::{sp_message, sp_ws};
use crate::store::{spec_ingest_record, LogsInner};
use crate::text::string_of_range;
use crate::value::JsonMessage;

verus! {

/// A task for the worker: open and ingest a file, or cancel whatever
/// ingestion is in flight. A `Cancel` found resting in the mailbox is a
/// no-op; it matters only while an `OpenLogs` is mid-flight.
#[derive(Debug)]
pub enum ProcessorTask {
    OpenLogs(String),
    Cancel,
}

/// The worker's status, a single shared value the shell polls: it moves
/// from `NotStarted` through `Reading` to one of the terminal states, and a
/// later `OpenLogs` re-enters at `Reading`, overwriting the old terminal
/// state.
#[derive(Debug, Clone, Copy, PartialEq, Eq, Structural)]
pub enum ProcessorStatus {
    NotStarted,
    IoFailed,
    Cancelled,
    Reading,
    Done,
}

impl Default for ProcessorStatus {
    fn default() -> (r: Self)
        ensures
            r == ProcessorStatus::NotStarted,
    {
        ProcessorStatus::NotStarted
    }
}

/// A single-slot mailbox: it holds at most one pending task, and posting
/// overwrites whatever was not yet taken — last writer wins, deliberately
/// not a queue, so open requests supersede instead of composing.
#[derive(Debug)]
pub struct Mailbox {
    pub slot: Option<ProcessorTask>,
}

impl Mailbox {
    pub fn new() -> (r: Self)
        ensures
            r.slot is None,
    {
        Mailbox { slot: None }
    }

    /// Posts a task, replacing any pending one.
    pub fn post(&mut self, task: ProcessorTask)
        ensures
            final(self).slot == Some(task),
    {
        self.slot = Some(task);
    }

    /// Takes the pending task, leaving the slot empty.
    pub fn take(&mut self) -> (r: Option<ProcessorTask>)
        ensures
            final(self).slot is None,
            r == old(self).slot,
    {
        self.slot.take()
    }

    /// Whether a task is pending, without consuming it.
    pub fn is_occupied(&self) -> (r: bool)
        ensures
            r == (self.slot is Some),
    {
        self.slot.is_some()
    }
}

/// How often the worker looks for a newly posted task while streaming a
/// file: cancellation latency is bounded by this many lines.
pub const LINE_COUNT_CHECKIN: u64 = 1000;

/// What one line of the worker loop decided.
#[derive(Debug, Clone, Copy, PartialEq, Eq, Structural)]
pub enum StepOutcome {
    Continue,
    Cancelled,
}

/// The last index before `j` that ends a whitespace-free suffix.
pub open spec fn sp_trim_end(s: Seq<char>, j: int) -> int
    decreases j,
        when 0 <= j <= s.len()
{
    if j > 0 && (s[j - 1] == ' ' || s[j - 1] == '\t' || s[j - 1] == '\n' || s[j - 1] == '\r') {
        sp_trim_end(s, j - 1)
    } else {
        j
    }
}

/// The line with leading and trailing whitespace removed.
pub open spec fn spec_trim(s: Seq<char>) -> Seq<char> {
    let a = sp_ws(s, 0);
    let b = sp_trim_end(s, s.len() as int);
    if a < b {
        s.subrange(a, b)
    } else {
        Seq::empty()
    }
}

/// Removes leading and trailing whitespace.
pub fn trim_line(line: &str) -> (t: String)
    ensures
        t@ == spec_trim(line@),
{
    let v = crate::text::chars_of(line);
    let n = v.len();
    let a = crate::json::scan_ws(&v, 0);
    if a == n {
        proof {
            assert(sp_trim_end(v@, n as int) <= n as int) by {
                lemma_trim_end_le(v@, n as int);
            }
        }
        return String::new();
    }
    let mut j = n;
    while j > a && (v[j - 1] == ' ' || v[j - 1] == '\t' || v[j - 1] == '\n' || v[j - 1] == '\r')
        invariant
            a < j <= n,
            n == v@.len(),
            a == sp_ws(v@, 0),
            a < n && !crate::json::is_ws(v@[a as int]),
            sp_trim_end(v@, n as int) == sp_trim_end(v@, j as int),
        decreases j,
    {
        j -= 1;
    }
    proof {
        assert(sp_trim_end(v@, j as int) == j as int);
    }
    string_of_range(&v, a, j)
}

/// `sp_trim_end` never moves forward.
proof fn lemma_trim_end_le(s: Seq<char>, j: int)
    requires
        0 <= j <= s.len(),
    ensures
        sp_trim_end(s, j) <= j,
    decreases j,
{
    if j > 0 && (s[j - 1] == ' ' || s[j - 1] == '\t' || s[j - 1] == '\n' || s[j - 1] == '\r') {
        lemma_trim_end_le(s, j - 1);
    }
}

/// One line's worth of the worker loop, between reading a line and deciding
/// how to go on: the line is counted; once more than `LINE_COUNT_CHECKIN`
/// lines have been seen, a pending task supersedes the running ingestion
/// and the rest of the file is abandoned; otherwise a blank line is skipped
/// and any other line is fed to the store (a malformed one is skipped by
/// the store itself, never fatal).
pub fn ingest_step(
    store: &mut LogsInner,
    lines_seen: &mut u64,
    line: &str,
    mailbox_occupied: bool,
) -> (r: StepOutcome)
    requires
        old(store).wf(),
        *old(lines_seen) < u64::MAX,
    ensures
        final(store).wf(),
        *final(lines_seen) == *old(lines_seen) + 1,
        ({
            let trimmed = spec_trim(line@);
            if *old(lines_seen) + 1 > LINE_COUNT_CHECKIN && mailbox_occupied {
                r == StepOutcome::Cancelled && *final(store) == *old(store)
            } else if trimmed.len() == 0 {
                r == StepOutcome::Continue && *final(store) == *old(store)
            } else if sp_message(trimmed) is None {
                r == StepOutcome::Continue && *final(store) == *old(store)
            } else {
                r == StepOutcome::Continue && (exists|ts: Option<Seq<char>>, rec: JsonMessage|
                    sp_message(trimmed) == Some(crate::json::record_deep(rec@)) && final(store)@
                        == spec_ingest_record(old(store)@, rec@, ts))
            }
        }),
{
    *lines_seen = *lines_seen + 1;
    if *lines_seen > LINE_COUNT_CHECKIN && mailbox_occupied {
        return StepOutcome::Cancelled;
    }
    let trimmed = trim_line(line);
    if trimmed.as_str().is_empty() {
        return StepOutcome::Continue;
    }
    store.add_json_message(trimmed.as_str());
    StepOutcome::Continue
}

} // verus!
