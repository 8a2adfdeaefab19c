//! The escalation scheduler: for each timeout budget in order, for each
//! input file in the order given, skip the file when a successful attempt
//! is already on record for this run, otherwise run the command once under
//! the budget and record the outcome.
//!
//! `Scheduler` is the decision core as a state machine: it says what to do
//! next (check the store, run and record one attempt, or stop) and how its
//! position moves on each answer. The process around it performs the
//! store queries and the command execution and feeds the results back.
//!
//! `run_budgets_from` and its helpers state the meaning of the whole loop
//! over an attempt log, and `run_schedule` realizes it against the
//! in-memory store, driven by a given outcome per budget and file in
//! place of the external command.

use vstd::prelude::*;
use crate::store::{AttemptRecord, LogEntry, MemStore, entry_is_success_for, has_success};

verus! {

/// What the scheduler asks for next.
pub enum Action {
    /// Ask the store whether a successful attempt of this file is already
    /// on record for the run.
    CheckSolved { file_index: usize },
    /// Run the command against this file under this budget, and record
    /// the attempt.
    RunAttempt { timeout_seconds: u64, file_index: usize },
    /// The budget sequence is exhausted.
    Done,
}

/// The scheduler's position in the loop over budgets and files.
pub struct Scheduler {
    /// The escalation schedule of timeout budgets, in order.
    pub budgets: Vec<u64>,
    /// How many input files the run iterates over.
    pub n_files: usize,
    /// Index of the current budget; equal to `budgets.len()` when done.
    pub budget_index: usize,
    /// Index of the current file within the current budget.
    pub file_index: usize,
    /// Whether the store has answered that the current file is unsolved,
    /// so that an attempt must be run and recorded before moving on.
    pub executing: bool,
}

impl Scheduler {
    /// The position is a valid state of the loop.
    pub open spec fn wf(&self) -> bool {
        &&& self.budget_index <= self.budgets@.len()
        &&& self.budget_index < self.budgets@.len() ==> self.file_index < self.n_files
        &&& self.budget_index == self.budgets@.len() ==> self.file_index == 0 && !self.executing
    }

    /// The action the scheduler asks for in this state.
    pub open spec fn spec_next_action(&self) -> Action {
        if self.budget_index == self.budgets@.len() {
            Action::Done
        } else if self.executing {
            Action::RunAttempt {
                timeout_seconds: self.budgets@[self.budget_index as int],
                file_index: self.file_index,
            }
        } else {
            Action::CheckSolved { file_index: self.file_index }
        }
    }

    /// `post` is `pre` moved past the current file: to the next file of
    /// the same budget, or to the first file of the next budget.
    pub open spec fn advanced(pre: Self, post: Self) -> bool {
        &&& post.budgets == pre.budgets
        &&& post.n_files == pre.n_files
        &&& !post.executing
        &&& if pre.file_index + 1 < pre.n_files {
            post.budget_index == pre.budget_index && post.file_index == pre.file_index + 1
        } else {
            post.budget_index == pre.budget_index + 1 && post.file_index == 0
        }
    }

    /// Starts a schedule over `n_files` files; with no files at all there
    /// is nothing to do under any budget.
    pub fn new(budgets: Vec<u64>, n_files: usize) -> (s: Self)
        ensures
            s.wf(),
            s.budgets@ == budgets@,
            s.n_files == n_files,
            !s.executing,
            s.file_index == 0,
            n_files == 0 ==> s.budget_index == s.budgets@.len(),
            n_files > 0 ==> s.budget_index == 0,
    {
        let done_index = if n_files == 0 {
            budgets.len()
        } else {
            0
        };
        Scheduler {
            budgets,
            n_files,
            budget_index: done_index,
            file_index: 0,
            executing: false,
        }
    }

    /// What to do next.
    pub fn next_action(&self) -> (a: Action)
        requires
            self.wf(),
        ensures
            a == self.spec_next_action(),
    {
        if self.budget_index == self.budgets.len() {
            Action::Done
        } else if self.executing {
            Action::RunAttempt {
                timeout_seconds: self.budgets[self.budget_index],
                file_index: self.file_index,
            }
        } else {
            Action::CheckSolved { file_index: self.file_index }
        }
    }

    /// Moves past the current file.
    fn advance(&mut self)
        requires
            old(self).wf(),
            old(self).budget_index < old(self).budgets@.len(),
        ensures
            final(self).wf(),
            Self::advanced(*old(self), *final(self)),
    {
        self.executing = false;
        if self.file_index + 1 < self.n_files {
            self.file_index = self.file_index + 1;
        } else {
            let n_budgets = self.budgets.len();
            assert(self.budget_index < n_budgets);
            self.file_index = 0;
            self.budget_index = self.budget_index + 1;
        }
    }

    /// Feeds back the store's answer to `CheckSolved`. A file already
    /// solved in this run is skipped — the scheduler moves on without
    /// ever asking for the command to be run; an unsolved file must have
    /// one attempt run and recorded next.
    pub fn on_check_result(&mut self, solved: bool)
        requires
            old(self).wf(),
            old(self).spec_next_action() is CheckSolved,
        ensures
            final(self).wf(),
            solved ==> Self::advanced(*old(self), *final(self)),
            !solved ==> {
                &&& final(self).budgets == old(self).budgets
                &&& final(self).n_files == old(self).n_files
                &&& final(self).budget_index == old(self).budget_index
                &&& final(self).file_index == old(self).file_index
                &&& final(self).executing
            },
    {
        if solved {
            self.advance();
        } else {
            self.executing = true;
        }
    }

    /// Feeds back that the attempt asked for by `RunAttempt` has been run
    /// and its outcome recorded; the scheduler moves on.
    pub fn on_attempt_recorded(&mut self)
        requires
            old(self).wf(),
            old(self).spec_next_action() is RunAttempt,
        ensures
            final(self).wf(),
            Self::advanced(*old(self), *final(self)),
    {
        self.advance();
    }
}

/// The row that recording an attempt of `file` under `timeout_seconds`
/// with outcome `success` appends, when elapsed time and captured output
/// are not modelled (zero seconds, empty streams).
pub open spec fn attempt_entry(
    run_id: i64,
    file: Seq<char>,
    timeout_seconds: u64,
    success: bool,
) -> LogEntry {
    LogEntry {
        run_id: run_id,
        input_file: file,
        timeout_seconds: timeout_seconds,
        success: success,
        time_used_seconds: 0,
        stdout: Seq::<u8>::empty(),
        stderr: Seq::<u8>::empty(),
    }
}

/// One file under one budget: skipped when a successful attempt is on
/// record, otherwise one attempt row is appended.
pub open spec fn step_file(
    log: Seq<LogEntry>,
    run_id: i64,
    file: Seq<char>,
    timeout_seconds: u64,
    succeeds: bool,
) -> Seq<LogEntry> {
    if has_success(log, run_id, file) {
        log
    } else {
        log.push(attempt_entry(run_id, file, timeout_seconds, succeeds))
    }
}

/// The rest of one budget's pass over the files, from file index `f` on;
/// `row[f]` is the outcome the command yields on file `f` under this
/// budget.
pub open spec fn run_files_from(
    log: Seq<LogEntry>,
    run_id: i64,
    files: Seq<Seq<char>>,
    row: Seq<bool>,
    timeout_seconds: u64,
    f: int,
) -> Seq<LogEntry>
    decreases files.len() - f,
{
    if f < 0 || f >= files.len() {
        log
    } else {
        run_files_from(
            step_file(log, run_id, files[f], timeout_seconds, row[f]),
            run_id,
            files,
            row,
            timeout_seconds,
            f + 1,
        )
    }
}

/// The rest of the whole schedule, from budget index `b` on;
/// `outcomes[b][f]` is the outcome the command yields on file `f` under
/// budget `b`.
pub open spec fn run_budgets_from(
    log: Seq<LogEntry>,
    run_id: i64,
    files: Seq<Seq<char>>,
    outcomes: Seq<Seq<bool>>,
    budgets: Seq<u64>,
    b: int,
) -> Seq<LogEntry>
    decreases budgets.len() - b,
{
    if b < 0 || b >= budgets.len() {
        log
    } else {
        run_budgets_from(
            run_files_from(log, run_id, files, outcomes[b], budgets[b], 0),
            run_id,
            files,
            outcomes,
            budgets,
            b + 1,
        )
    }
}

/// The attempt log after the whole schedule has run: every budget in
/// order, every file in order under each budget, each file skipped
/// wherever a successful attempt for it is already on record.
pub open spec fn run_outcome(
    log: Seq<LogEntry>,
    run_id: i64,
    files: Seq<Seq<char>>,
    outcomes: Seq<Seq<bool>>,
    budgets: Seq<u64>,
) -> Seq<LogEntry> {
    run_budgets_from(log, run_id, files, outcomes, budgets, 0)
}

/// `post` is `pre` with rows appended at the end only.
pub open spec fn extends(post: Seq<LogEntry>, pre: Seq<LogEntry>) -> bool {
    post.len() >= pre.len() && post.take(pre.len() as int) == pre
}

proof fn lemma_extends_refl(log: Seq<LogEntry>)
    ensures
        extends(log, log),
{
    assert(log.take(log.len() as int) =~= log);
}

proof fn lemma_extends_trans(a: Seq<LogEntry>, b: Seq<LogEntry>, c: Seq<LogEntry>)
    requires
        extends(a, b),
        extends(b, c),
    ensures
        extends(a, c),
{
    assert(a.take(c.len() as int) =~= c);
}

proof fn lemma_run_files_from_dedup(
    log: Seq<LogEntry>,
    run_id: i64,
    files: Seq<Seq<char>>,
    row: Seq<bool>,
    timeout_seconds: u64,
    f: int,
)
    ensures
        ({
            let r = run_files_from(log, run_id, files, row, timeout_seconds, f);
            &&& extends(r, log)
            &&& forall|j: int| log.len() <= j < r.len() ==> r[j].run_id == run_id
            &&& forall|i: int, j: int|
                (0 <= i < j < r.len() && log.len() <= j && r[i].run_id == run_id && r[i].success)
                    ==> r[j].input_file != r[i].input_file
        }),
    decreases files.len() - f,
{
    let r = run_files_from(log, run_id, files, row, timeout_seconds, f);
    if f < 0 || f >= files.len() {
        lemma_extends_refl(log);
    } else {
        let mid = step_file(log, run_id, files[f], timeout_seconds, row[f]);
        if has_success(log, run_id, files[f]) {
            lemma_extends_refl(log);
        } else {
            assert(mid.take(log.len() as int) =~= log);
        }
        lemma_run_files_from_dedup(mid, run_id, files, row, timeout_seconds, f + 1);
        lemma_extends_trans(r, mid, log);
        assert forall|j: int| log.len() <= j < r.len() implies r[j].run_id == run_id by {
            if j < mid.len() {
                assert(r[j] == r.take(mid.len() as int)[j]);
            }
        }
        assert forall|i: int, j: int|
            (0 <= i < j < r.len() && log.len() <= j && r[i].run_id == run_id
                && r[i].success) implies r[j].input_file != r[i].input_file by {
            if j < mid.len() {
                assert(mid != log);
                assert(j == log.len());
                assert(r[j] == r.take(mid.len() as int)[j]);
                assert(r[j] == attempt_entry(
                    run_id,
                    files[f],
                    timeout_seconds,
                    row[f],
                ));
                assert(r[i] == r.take(mid.len() as int)[i]);
                assert(r[i] == log.take(log.len() as int)[i]);
                if r[j].input_file == r[i].input_file {
                    assert(entry_is_success_for(log[i], run_id, files[f]));
                    assert(has_success(log, run_id, files[f]));
                }
            }
        }
    }
}

proof fn lemma_run_budgets_from_dedup(
    log: Seq<LogEntry>,
    run_id: i64,
    files: Seq<Seq<char>>,
    outcomes: Seq<Seq<bool>>,
    budgets: Seq<u64>,
    b: int,
)
    ensures
        ({
            let r = run_budgets_from(log, run_id, files, outcomes, budgets, b);
            &&& extends(r, log)
            &&& forall|j: int| log.len() <= j < r.len() ==> r[j].run_id == run_id
            &&& forall|i: int, j: int|
                (0 <= i < j < r.len() && log.len() <= j && r[i].run_id == run_id && r[i].success)
                    ==> r[j].input_file != r[i].input_file
        }),
    decreases budgets.len() - b,
{
    let r = run_budgets_from(log, run_id, files, outcomes, budgets, b);
    if b < 0 || b >= budgets.len() {
        lemma_extends_refl(log);
    } else {
        let mid = run_files_from(log, run_id, files, outcomes[b], budgets[b], 0);
        lemma_run_files_from_dedup(log, run_id, files, outcomes[b], budgets[b], 0);
        lemma_run_budgets_from_dedup(mid, run_id, files, outcomes, budgets, b + 1);
        lemma_extends_trans(r, mid, log);
        assert forall|j: int| log.len() <= j < r.len() implies r[j].run_id == run_id by {
            if j < mid.len() {
                assert(r[j] == r.take(mid.len() as int)[j]);
            }
        }
        assert forall|i: int, j: int|
            (0 <= i < j < r.len() && log.len() <= j && r[i].run_id == run_id
                && r[i].success) implies r[j].input_file != r[i].input_file by {
            if j < mid.len() {
                assert(r[j] == r.take(mid.len() as int)[j]);
                assert(r[i] == r.take(mid.len() as int)[i]);
            }
        }
    }
}

/// The schedule only appends to the attempt log, every row it adds
/// belongs to the run that made it, and it never records an attempt of a
/// file after a successful attempt of that file exists in the run —
/// whether the success was on record before the schedule started or was
/// recorded during it, and whatever budget either row used.
pub proof fn lemma_no_attempt_after_success(
    log: Seq<LogEntry>,
    run_id: i64,
    files: Seq<Seq<char>>,
    outcomes: Seq<Seq<bool>>,
    budgets: Seq<u64>,
)
    ensures
        ({
            let r = run_outcome(log, run_id, files, outcomes, budgets);
            &&& extends(r, log)
            &&& forall|j: int| log.len() <= j < r.len() ==> r[j].run_id == run_id
            &&& forall|i: int, j: int|
                (0 <= i < j < r.len() && log.len() <= j && r[i].run_id == run_id && r[i].success)
                    ==> r[j].input_file != r[i].input_file
        }),
{
    lemma_run_budgets_from_dedup(log, run_id, files, outcomes, budgets, 0);
}

/// Re-running a schedule over a store that already records a successful
/// attempt of `file` for this run adds no row for `file` at all: the
/// resumed run duplicates nothing that is already solved.
pub proof fn lemma_resume_skips_solved(
    log: Seq<LogEntry>,
    run_id: i64,
    files: Seq<Seq<char>>,
    outcomes: Seq<Seq<bool>>,
    budgets: Seq<u64>,
    file: Seq<char>,
)
    requires
        has_success(log, run_id, file),
    ensures
        ({
            let r = run_outcome(log, run_id, files, outcomes, budgets);
            forall|j: int| log.len() <= j < r.len() ==> r[j].input_file != file
        }),
{
    let r = run_outcome(log, run_id, files, outcomes, budgets);
    lemma_no_attempt_after_success(log, run_id, files, outcomes, budgets);
    let i = choose|i: int| 0 <= i < log.len() && entry_is_success_for(log[i], run_id, file);
    assert forall|j: int| log.len() <= j < r.len() implies r[j].input_file != file by {
        assert(r[i] == r.take(log.len() as int)[i]);
        assert(r[i] == log[i]);
    }
}

/// With no files, no pass over any budget changes the log.
proof fn lemma_run_budgets_from_no_files(
    log: Seq<LogEntry>,
    run_id: i64,
    files: Seq<Seq<char>>,
    outcomes: Seq<Seq<bool>>,
    budgets: Seq<u64>,
    b: int,
)
    requires
        files.len() == 0,
    ensures
        run_budgets_from(log, run_id, files, outcomes, budgets, b) == log,
    decreases budgets.len() - b,
{
    if 0 <= b < budgets.len() {
        lemma_run_budgets_from_no_files(log, run_id, files, outcomes, budgets, b + 1);
    }
}

/// What the rest of the schedule will append when the scheduler stands at
/// this position over this log: nothing when done; the remainder of the
/// current budget's pass and then the remaining budgets when it is about
/// to check the current file; the same, with the current file's pending
/// attempt row already counted, when that file's check has answered
/// "unsolved".
pub open spec fn remaining_schedule(
    sched: Scheduler,
    log: Seq<LogEntry>,
    run_id: i64,
    files: Seq<Seq<char>>,
    outcomes: Seq<Seq<bool>>,
) -> Seq<LogEntry> {
    let b = sched.budget_index as int;
    let f = sched.file_index as int;
    if b == sched.budgets@.len() {
        log
    } else if sched.executing {
        run_budgets_from(
            run_files_from(
                log.push(attempt_entry(run_id, files[f], sched.budgets@[b], outcomes[b][f])),
                run_id,
                files,
                outcomes[b],
                sched.budgets@[b],
                f + 1,
            ),
            run_id,
            files,
            outcomes,
            sched.budgets@,
            b + 1,
        )
    } else {
        run_budgets_from(
            run_files_from(log, run_id, files, outcomes[b], sched.budgets@[b], f),
            run_id,
            files,
            outcomes,
            sched.budgets@,
            b + 1,
        )
    }
}

/// Moving the scheduler past the current file leaves for the rest of the
/// schedule exactly what was left after that file.
proof fn lemma_advance_remaining(
    pre: Scheduler,
    post: Scheduler,
    log: Seq<LogEntry>,
    run_id: i64,
    files: Seq<Seq<char>>,
    outcomes: Seq<Seq<bool>>,
)
    requires
        pre.wf(),
        post.wf(),
        Scheduler::advanced(pre, post),
        pre.budget_index < pre.budgets@.len(),
        pre.n_files == files.len(),
    ensures
        remaining_schedule(post, log, run_id, files, outcomes) == run_budgets_from(
            run_files_from(
                log,
                run_id,
                files,
                outcomes[pre.budget_index as int],
                pre.budgets@[pre.budget_index as int],
                pre.file_index + 1,
            ),
            run_id,
            files,
            outcomes,
            pre.budgets@,
            pre.budget_index as int + 1,
        ),
{
    if pre.file_index + 1 < pre.n_files {
    } else {
        assert(run_files_from(
            log,
            run_id,
            files,
            outcomes[pre.budget_index as int],
            pre.budgets@[pre.budget_index as int],
            pre.file_index + 1,
        ) == log);
    }
}

/// Runs the whole escalation schedule against the in-memory store, with
/// `outcomes[b][f]` standing for the result the command yields on file
/// `f` under budget `b`. The scheduler decides every step, exactly as in
/// the production loop; only the command execution is replaced by the
/// given outcome. The store afterwards holds exactly what `run_outcome`
/// describes: the loop is idempotent over files already solved, whether
/// they were solved before this call or became solved during it.
pub fn run_schedule(
    run_id: i64,
    files: &Vec<String>,
    outcomes: &Vec<Vec<bool>>,
    budgets: &Vec<u64>,
    store: &mut MemStore,
)
    requires
        outcomes@.len() == budgets@.len(),
        forall|b: int| 0 <= b < outcomes@.len() ==> outcomes@[b]@.len() == files@.len(),
    ensures
        final(store)@ == run_outcome(
            old(store)@,
            run_id,
            files.deep_view(),
            outcomes.deep_view(),
            budgets@,
        ),
{
    let ghost init = store@;
    let ghost fviews = files.deep_view();
    let ghost oviews = outcomes.deep_view();
    let ghost total = run_outcome(init, run_id, fviews, oviews, budgets@);
    let sched_budgets = budgets.clone();
    proof {
        assert(sched_budgets@ =~= budgets@);
    }
    let mut sched = Scheduler::new(sched_budgets, files.len());
    proof {
        if files@.len() == 0 {
            lemma_run_budgets_from_no_files(init, run_id, fviews, oviews, budgets@, 0);
        }
        assert(remaining_schedule(sched, store@, run_id, fviews, oviews) == total);
    }
    loop
        invariant_except_break
            sched.wf(),
            sched.budgets@ == budgets@,
            sched.n_files == files@.len(),
            oviews == outcomes.deep_view(),
            oviews.len() == budgets@.len(),
            forall|b: int| 0 <= b < oviews.len() ==> oviews[b].len() == files@.len(),
            fviews == files.deep_view(),
            remaining_schedule(sched, store@, run_id, fviews, oviews) == total,
        ensures
            store@ == total,
        decreases
                budgets@.len() - sched.budget_index,
                sched.n_files - sched.file_index,
                (if sched.executing {
                    0int
                } else {
                    1int
                }),
    {
        let action = sched.next_action();
        match action {
            Action::Done => {
                break ;
            },
            Action::CheckSolved { file_index } => {
                let ghost pre = sched;
                let file = &files[file_index];
                proof {
                    assert(fviews[file_index as int] == file@);
                }
                let solved = store.has_successful_attempt(run_id, file);
                sched.on_check_result(solved);
                proof {
                    let b = pre.budget_index as int;
                    let f = pre.file_index as int;
                    if solved {
                        assert(step_file(store@, run_id, fviews[f], budgets@[b], oviews[b][f])
                            == store@);
                        assert(run_files_from(store@, run_id, fviews, oviews[b], budgets@[b], f)
                            == run_files_from(
                            store@,
                            run_id,
                            fviews,
                            oviews[b],
                            budgets@[b],
                            f + 1,
                        ));
                        lemma_advance_remaining(pre, sched, store@, run_id, fviews, oviews);
                    } else {
                        assert(step_file(store@, run_id, fviews[f], budgets@[b], oviews[b][f])
                            == store@.push(attempt_entry(run_id, fviews[f], budgets@[b], oviews[b][f])));
                        assert(run_files_from(store@, run_id, fviews, oviews[b], budgets@[b], f)
                            == run_files_from(
                            store@.push(attempt_entry(run_id, fviews[f], budgets@[b], oviews[b][f])),
                            run_id,
                            fviews,
                            oviews[b],
                            budgets@[b],
                            f + 1,
                        ));
                    }
                }
            },
            Action::RunAttempt { timeout_seconds, file_index } => {
                let ghost pre = sched;
                let ghost prev = store@;
                let file = &files[file_index];
                let row = &outcomes[sched.budget_index];
                proof {
                    assert(fviews[file_index as int] == file@);
                    assert(row@[file_index as int] == oviews[pre.budget_index as int][file_index as int]);
                }
                let record = AttemptRecord {
                    run_id: run_id,
                    input_file: file.clone(),
                    timeout_seconds: timeout_seconds,
                    success: row[file_index],
                    time_used_seconds: 0,
                    stdout: Vec::new(),
                    stderr: Vec::new(),
                };
                store.record_attempt(record);
                sched.on_attempt_recorded();
                proof {
                    let b = pre.budget_index as int;
                    let f = pre.file_index as int;
                    assert(store@ == prev.push(
                        attempt_entry(run_id, fviews[f], budgets@[b], oviews[b][f]),
                    ));
                    lemma_advance_remaining(pre, sched, store@, run_id, fviews, oviews);
                }
            },
        }
    }
}

} // verus!
