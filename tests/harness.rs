use fuzzer::harness::{
    classify_outcome, contains, decimal, last_line_of, stats_text, worker_step, Event, FuzzStats,
    Outcome, Step,
};

fn chars(s: &str) -> Vec<char> {
    s.chars().collect()
}

#[test]
fn signal_is_a_crash() {
    assert_eq!(classify_outcome(None, ""), Outcome::Signalled);
}

#[test]
fn high_exit_code_is_a_crash() {
    assert_eq!(classify_outcome(Some(139), "x"), Outcome::Exited(139));
    assert_eq!(classify_outcome(Some(2), ""), Outcome::Exited(2));
}

#[test]
fn low_exit_codes_are_tolerated() {
    assert_eq!(classify_outcome(Some(0), "all good\n"), Outcome::Passed);
    assert_eq!(classify_outcome(Some(1), "usage: cyoto FILE\n"), Outcome::Passed);
}

#[test]
fn fault_signature_on_last_line_is_a_crash() {
    assert_eq!(
        classify_outcome(Some(1), "warning\nterminate called: bad any_cast\n"),
        Outcome::Signature
    );
    assert_eq!(classify_outcome(Some(0), "x\r\nunordered_map::at\r\n"), Outcome::Signature);
    assert_eq!(
        classify_outcome(Some(0), "bad any_cast\nlater line\n"),
        Outcome::Passed
    );
}

#[test]
fn last_line_follows_lines() {
    assert_eq!(last_line_of(&chars("a\nb\n")), chars("b"));
    assert_eq!(last_line_of(&chars("a\nb")), chars("b"));
    assert_eq!(last_line_of(&chars("")), chars(""));
    assert_eq!(last_line_of(&chars("x\r\n")), chars("x"));
}

#[test]
fn substring_search() {
    assert!(contains(&chars("hello world"), &chars("o w")));
    assert!(!contains(&chars("hello"), &chars("world")));
    assert!(contains(&chars("abc"), &chars("")));
}

#[test]
fn decimal_text() {
    assert_eq!(decimal(0), "0");
    assert_eq!(decimal(1234567890), "1234567890");
}

#[test]
fn stats_line_text() {
    assert_eq!(
        stats_text(25, 2, 2000),
        "Total runs: 25 | Total crashes: 2 | Runs/sec: 12.50"
    );
    assert_eq!(stats_text(0, 0, 0), "Total runs: 0 | Total crashes: 0 | Runs/sec: 0.00");
}

#[test]
fn counters_add_and_reset() {
    let stats = FuzzStats::new();
    stats.increment(10);
    stats.increment(10);
    stats.increment_crash();
    assert_eq!(stats.get_total_runs(), 20);
    assert_eq!(stats.get_total_crashes(), 1);
    assert!(stats.get_stats().starts_with("Total runs: 20 | Total crashes: 1 | Runs/sec: "));
    stats.reset();
    assert_eq!(stats.get_total_runs(), 0);
    assert_eq!(stats.get_total_crashes(), 0);
}

#[test]
fn failed_attempts_are_retried_without_counting() {
    let s = worker_step(3, 10, Event::GenerationFailed);
    assert_eq!(s, Step { completed: 3, add_runs: 0, crashed: false, finished: false });
    let s = worker_step(3, 10, Event::EmptyProgram);
    assert_eq!(s, Step { completed: 3, add_runs: 0, crashed: false, finished: false });
}

#[test]
fn runs_are_counted_in_batches_of_ten() {
    let mut stats_runs = 0;
    let mut completed = 0;
    loop {
        let s = worker_step(completed, 25, Event::Ran(Outcome::Passed));
        stats_runs += s.add_runs;
        completed = s.completed;
        if s.finished {
            break;
        }
    }
    assert_eq!(completed, 25);
    assert_eq!(stats_runs, 20);
}

#[test]
fn signalled_target_counts_one_crash() {
    let stats = FuzzStats::new();
    let outcome = classify_outcome(None, "");
    let s = worker_step(0, 1, Event::Ran(outcome));
    if s.crashed {
        stats.increment_crash();
    }
    assert!(s.finished);
    assert_eq!(stats.get_total_crashes(), 1);
}
