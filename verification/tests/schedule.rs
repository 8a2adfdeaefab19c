use bench_runner::budget::budget_sequence;
use bench_runner::scheduler::Action;
use bench_runner::scheduler::Scheduler;
use bench_runner::scheduler::run_schedule;
use bench_runner::store::AttemptRecord;
use bench_runner::store::MemStore;

fn success_row(run_id: i64, file: &str, timeout_seconds: u64) -> AttemptRecord {
    AttemptRecord {
        run_id,
        input_file: String::from(file),
        timeout_seconds,
        success: true,
        time_used_seconds: 0,
        stdout: Vec::new(),
        stderr: Vec::new(),
    }
}

#[test]
fn recorded_attempt_is_visible_whole_or_not_at_all() {
    let mut store = MemStore::new();
    assert_eq!(store.len(), 0);
    assert!(!store.has_successful_attempt(1, &String::from("f1")));
    store.record_attempt(AttemptRecord {
        run_id: 1,
        input_file: String::from("f1"),
        timeout_seconds: 2,
        success: true,
        time_used_seconds: 1,
        stdout: vec![b'o', b'k'],
        stderr: Vec::new(),
    });
    assert_eq!(store.len(), 1);
    let row = store.get(0);
    assert_eq!(row.run_id, 1);
    assert_eq!(row.input_file, "f1");
    assert_eq!(row.timeout_seconds, 2);
    assert!(row.success);
    assert_eq!(row.time_used_seconds, 1);
    assert_eq!(row.stdout, vec![b'o', b'k']);
    assert_eq!(row.stderr, Vec::<u8>::new());
    assert!(store.has_successful_attempt(1, &String::from("f1")));
}

#[test]
fn existence_check_matches_run_file_and_success() {
    let mut store = MemStore::new();
    let mut failed = success_row(1, "f1", 4);
    failed.success = false;
    store.record_attempt(failed);
    assert!(!store.has_successful_attempt(1, &String::from("f1")));
    store.record_attempt(success_row(1, "f1", 8));
    assert!(store.has_successful_attempt(1, &String::from("f1")));
    assert!(!store.has_successful_attempt(2, &String::from("f1")));
    assert!(!store.has_successful_attempt(1, &String::from("f2")));
}

#[test]
fn scheduler_checks_then_runs_then_moves_on() {
    let mut sched = Scheduler::new(vec![1, 2], 2);
    match sched.next_action() {
        Action::CheckSolved { file_index } => assert_eq!(file_index, 0),
        _ => panic!("expected a skip check first"),
    }
    sched.on_check_result(false);
    match sched.next_action() {
        Action::RunAttempt { timeout_seconds, file_index } => {
            assert_eq!(timeout_seconds, 1);
            assert_eq!(file_index, 0);
        },
        _ => panic!("an unsolved file must be attempted"),
    }
    sched.on_attempt_recorded();
    match sched.next_action() {
        Action::CheckSolved { file_index } => assert_eq!(file_index, 1),
        _ => panic!("expected a skip check of the next file"),
    }
    sched.on_check_result(true);
    match sched.next_action() {
        Action::CheckSolved { file_index } => assert_eq!(file_index, 0),
        _ => panic!("expected the next budget to start over"),
    }
    sched.on_check_result(false);
    match sched.next_action() {
        Action::RunAttempt { timeout_seconds, file_index } => {
            assert_eq!(timeout_seconds, 2);
            assert_eq!(file_index, 0);
        },
        _ => panic!("an unsolved file must be attempted"),
    }
    sched.on_attempt_recorded();
    sched.on_check_result(true);
    match sched.next_action() {
        Action::Done => (),
        _ => panic!("the budget sequence is exhausted"),
    }
}

#[test]
fn solved_file_is_never_attempted_again() {
    let mut sched = Scheduler::new(vec![1, 2, 4], 1);
    let mut attempts = 0;
    loop {
        match sched.next_action() {
            Action::CheckSolved { .. } => sched.on_check_result(attempts > 0),
            Action::RunAttempt { .. } => {
                attempts += 1;
                sched.on_attempt_recorded();
            },
            Action::Done => break,
        }
    }
    assert_eq!(attempts, 1);
}

#[test]
fn escalation_records_success_once_and_failures_at_every_budget() {
    let files = vec![String::from("f1"), String::from("f2")];
    let outcomes = vec![vec![true, false]; 3];
    let budgets = budget_sequence(Some(4));
    let mut store = MemStore::new();
    run_schedule(9, &files, &outcomes, &budgets, &mut store);
    assert_eq!(store.len(), 4);
    let first = store.get(0);
    assert_eq!(first.input_file, "f1");
    assert_eq!(first.timeout_seconds, 1);
    assert!(first.success);
    let expected_f2_budgets = [1, 2, 4];
    for i in 0..3 {
        let row = store.get(i + 1);
        assert_eq!(row.run_id, 9);
        assert_eq!(row.input_file, "f2");
        assert_eq!(row.timeout_seconds, expected_f2_budgets[i]);
        assert!(!row.success);
    }
}

#[test]
fn rerun_resumes_without_duplicating_solved_files() {
    let files = vec![String::from("f1"), String::from("f2")];
    let outcomes = vec![vec![true, false]; 3];
    let budgets = budget_sequence(Some(4));
    let mut store = MemStore::new();
    run_schedule(9, &files, &outcomes, &budgets, &mut store);
    let rows_after_first = store.len();
    run_schedule(9, &files, &outcomes, &budgets, &mut store);
    assert_eq!(store.len(), rows_after_first + 3);
    for i in rows_after_first..store.len() {
        assert_eq!(store.get(i).input_file, "f2");
        assert!(!store.get(i).success);
    }
}

#[test]
fn preexisting_success_is_skipped_at_every_budget() {
    let files = vec![String::from("f1"), String::from("f2")];
    let outcomes = vec![vec![true, true]; 2];
    let budgets = budget_sequence(Some(2));
    let mut store = MemStore::new();
    store.record_attempt(success_row(5, "f1", 1));
    run_schedule(5, &files, &outcomes, &budgets, &mut store);
    assert_eq!(store.len(), 2);
    let added = store.get(1);
    assert_eq!(added.input_file, "f2");
    assert!(added.success);
}

#[test]
fn success_in_another_run_does_not_cause_a_skip() {
    let files = vec![String::from("f1")];
    let outcomes = vec![vec![false]];
    let budgets = vec![1];
    let mut store = MemStore::new();
    store.record_attempt(success_row(5, "f1", 1));
    run_schedule(6, &files, &outcomes, &budgets, &mut store);
    assert_eq!(store.len(), 2);
    let added = store.get(1);
    assert_eq!(added.run_id, 6);
    assert_eq!(added.input_file, "f1");
    assert!(!added.success);
}

#[test]
fn solving_at_a_larger_budget_stops_further_attempts() {
    let files = vec![String::from("slow")];
    let outcomes = vec![vec![false], vec![false], vec![true], vec![true]];
    let budgets = vec![1, 2, 4, 8];
    let mut store = MemStore::new();
    run_schedule(2, &files, &outcomes, &budgets, &mut store);
    assert_eq!(store.len(), 3);
    let expected = [(1, false), (2, false), (4, true)];
    for i in 0..3 {
        let row = store.get(i);
        assert_eq!(row.input_file, "slow");
        assert_eq!(row.timeout_seconds, expected[i].0);
        assert_eq!(row.success, expected[i].1);
    }
}

#[test]
fn empty_file_list_records_nothing() {
    let files: Vec<String> = Vec::new();
    let outcomes: Vec<Vec<bool>> = vec![Vec::new(); 5];
    let budgets = budget_sequence(Some(10));
    let mut store = MemStore::new();
    run_schedule(3, &files, &outcomes, &budgets, &mut store);
    assert_eq!(store.len(), 0);
}
