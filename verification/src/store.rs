//! The attempt log: an append-only record of every attempt made in a run.
//! `MemStore` is the in-memory form of the persisted `attempts` table; its
//! view is the sequence of rows, and the existence check and the insert
//! are specified against that view. A row is inserted whole or not at
//! all — no partially written attempt is ever visible to the existence
//! check.

use vstd::prelude::*;

verus! {

/// One attempt: the benchmarked command run once against one input file
/// under one timeout budget, with its recorded outcome.
pub struct AttemptRecord {
    pub run_id: i64,
    pub input_file: String,
    pub timeout_seconds: u64,
    pub success: bool,
    pub time_used_seconds: u64,
    pub stdout: Vec<u8>,
    pub stderr: Vec<u8>,
}

/// The mathematical content of one attempt row.
pub struct LogEntry {
    pub run_id: i64,
    pub input_file: Seq<char>,
    pub timeout_seconds: u64,
    pub success: bool,
    pub time_used_seconds: u64,
    pub stdout: Seq<u8>,
    pub stderr: Seq<u8>,
}

impl View for AttemptRecord {
    type V = LogEntry;

    open spec fn view(&self) -> LogEntry {
        LogEntry {
            run_id: self.run_id,
            input_file: self.input_file@,
            timeout_seconds: self.timeout_seconds,
            success: self.success,
            time_used_seconds: self.time_used_seconds,
            stdout: self.stdout@,
            stderr: self.stderr@,
        }
    }
}

/// The row marks a successful attempt of `file` within run `run_id`.
pub open spec fn entry_is_success_for(e: LogEntry, run_id: i64, file: Seq<char>) -> bool {
    e.run_id == run_id && e.input_file == file && e.success
}

/// Some row of `log` marks a successful attempt of `file` within run
/// `run_id`: the condition under which the scheduler skips `file`.
pub open spec fn has_success(log: Seq<LogEntry>, run_id: i64, file: Seq<char>) -> bool {
    exists|i: int| 0 <= i < log.len() && entry_is_success_for(log[i], run_id, file)
}

/// The in-memory attempt log.
pub struct MemStore {
    records: Vec<AttemptRecord>,
}

impl View for MemStore {
    type V = Seq<LogEntry>;

    closed spec fn view(&self) -> Seq<LogEntry> {
        Seq::new(self.records@.len(), |i: int| self.records@[i]@)
    }
}

impl MemStore {
    /// An empty log.
    pub fn new() -> (store: Self)
        ensures
            store@ == Seq::<LogEntry>::empty(),
    {
        let store = MemStore { records: Vec::new() };
        proof {
            assert(store@ =~= Seq::<LogEntry>::empty());
        }
        store
    }

    /// Whether a successful attempt of `input_file` is already on record
    /// for run `run_id`.
    pub fn has_successful_attempt(&self, run_id: i64, input_file: &String) -> (found: bool)
        ensures
            found == has_success(self@, run_id, input_file@),
    {
        let n = self.records.len();
        let mut i: usize = 0;
        let mut found = false;
        while !found && i < n
            invariant
                i <= n,
                n == self.records.len(),
                !found ==> forall|k: int|
                    0 <= k < i ==> !entry_is_success_for(self@[k], run_id, input_file@),
                found ==> i < n && entry_is_success_for(self@[i as int], run_id, input_file@),
            decreases (if found { 0int } else { 1int }), n - i,
        {
            let r = &self.records[i];
            if r.run_id == run_id && r.success && r.input_file == *input_file {
                found = true;
            } else {
                i = i + 1;
            }
        }
        found
    }

    /// Appends one complete attempt row. All-or-nothing by contract: the
    /// new log is exactly the old log with this one row at the end.
    pub fn record_attempt(&mut self, record: AttemptRecord)
        ensures
            final(self)@ == old(self)@.push(record@),
    {
        let ghost entry = record@;
        self.records.push(record);
        proof {
            assert(self@ =~= old(self)@.push(entry));
        }
    }

    /// How many attempts are on record.
    pub fn len(&self) -> (n: usize)
        ensures
            n == self@.len(),
    {
        self.records.len()
    }

    /// The `i`-th attempt on record, oldest first.
    pub fn get(&self, i: usize) -> (record: &AttemptRecord)
        requires
            i < self@.len(),
        ensures
            record@ == self@[i as int],
    {
        &self.records[i]
    }
}

} // verus!
