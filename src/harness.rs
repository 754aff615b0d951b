use vstd::prelude::*;
use std::sync::atomic::{AtomicUsize, Ordering};
use std::time::{Duration, Instant};
use vstd::string::StringExecFns;
use crate::text::{chars_of, push_char};

verus! {

/// std's monotonic clock reading, carried through opaquely.
#[verifier::external_type_specification]
#[verifier::external_body]
pub struct ExInstant(Instant);

/// Relies on `Instant::now`: the time now; nothing is promised of it.
pub assume_specification[ Instant::now ]() -> Instant;

/// Relies on `Instant::elapsed`: the time since the reading; nothing is promised of it.
pub assume_specification[ Instant::elapsed ](self_: &Instant) -> Duration;

/// Relies on `Duration::as_millis`: whole milliseconds; nothing is promised of them here.
pub assume_specification[ Duration::as_millis ](self_: &Duration) -> u128;

// ---------------------------------------------------------------------------
// Shared counters
// ---------------------------------------------------------------------------

/// Counters shared by all workers of one run: completed runs and detected crashes, updated
/// with atomic additions, and the time the run started.
#[derive(Debug)]
pub struct FuzzStats {
    total_runs: AtomicUsize,
    total_crashes: AtomicUsize,
    start_time: Instant,
}

impl FuzzStats {
    pub fn new() -> (r: FuzzStats) {
        FuzzStats {
            total_runs: AtomicUsize::new(0),
            total_crashes: AtomicUsize::new(0),
            start_time: Instant::now(),
        }
    }

    /// Adds `n` completed runs.
    pub fn increment(&self, n: usize) {
        self.total_runs.fetch_add(n, Ordering::SeqCst);
    }

    /// Adds one detected crash.
    pub fn increment_crash(&self) {
        self.total_crashes.fetch_add(1, Ordering::SeqCst);
    }

    pub fn get_total_crashes(&self) -> usize {
        self.total_crashes.load(Ordering::SeqCst)
    }

    pub fn get_total_runs(&self) -> usize {
        self.total_runs.load(Ordering::SeqCst)
    }

    /// Sets both counters back to zero.
    pub fn reset(&self) {
        self.total_runs.store(0, Ordering::SeqCst);
        self.total_crashes.store(0, Ordering::SeqCst);
    }

    /// The statistics line: runs, crashes, and runs per second since the start.
    pub fn get_stats(&self) -> (r: String)
        ensures
            exists|runs: nat, crashes: nat, millis: nat| r@ == stats_line(runs, crashes, millis),
    {
        let runs = self.get_total_runs();
        let crashes = self.get_total_crashes();
        let millis = self.start_time.elapsed().as_millis();
        stats_text(runs as u128, crashes as u128, millis)
    }
}

// ---------------------------------------------------------------------------
// The statistics line
// ---------------------------------------------------------------------------

pub open spec fn digit_char(d: nat) -> char {
    if d == 0 {
        '0'
    } else if d == 1 {
        '1'
    } else if d == 2 {
        '2'
    } else if d == 3 {
        '3'
    } else if d == 4 {
        '4'
    } else if d == 5 {
        '5'
    } else if d == 6 {
        '6'
    } else if d == 7 {
        '7'
    } else if d == 8 {
        '8'
    } else {
        '9'
    }
}

/// The decimal digits of `n`, without leading zeros.
pub open spec fn decimal_spec(n: nat) -> Seq<char>
    decreases n,
{
    if n < 10 {
        seq![digit_char(n)]
    } else {
        decimal_spec(n / 10).push(digit_char(n % 10))
    }
}

/// Runs per second in hundredths: `runs * 100000 / millis`, or zero before a millisecond has
/// passed.
pub open spec fn rate_hundredths(runs: nat, millis: nat) -> nat {
    if millis == 0 {
        0
    } else {
        runs * 100000 / millis
    }
}

/// `Total runs: R | Total crashes: C | Runs/sec: X.YY`.
pub open spec fn stats_line(runs: nat, crashes: nat, millis: nat) -> Seq<char> {
    let rate = rate_hundredths(runs, millis);
    "Total runs: "@ + decimal_spec(runs) + " | Total crashes: "@ + decimal_spec(crashes)
        + " | Runs/sec: "@ + decimal_spec(rate / 100) + seq!['.', digit_char((rate % 100) / 10), digit_char(rate % 10)]
}

fn digit(d: u128) -> (r: char)
    requires
        d < 10,
    ensures
        r == digit_char(d as nat),
{
    if d == 0 {
        '0'
    } else if d == 1 {
        '1'
    } else if d == 2 {
        '2'
    } else if d == 3 {
        '3'
    } else if d == 4 {
        '4'
    } else if d == 5 {
        '5'
    } else if d == 6 {
        '6'
    } else if d == 7 {
        '7'
    } else if d == 8 {
        '8'
    } else {
        '9'
    }
}

/// `n` in decimal.
pub fn decimal(n: u128) -> (r: String)
    ensures
        r@ == decimal_spec(n as nat),
    decreases n,
{
    if n < 10 {
        let mut s = String::new();
        push_char(&mut s, digit(n));
        proof {
            assert(s@ =~= seq![digit_char(n as nat)]);
        }
        s
    } else {
        let mut s = decimal(n / 10);
        push_char(&mut s, digit(n % 10));
        s
    }
}

/// The statistics line for `runs` runs and `crashes` crashes after `millis` milliseconds.
pub fn stats_text(runs: u128, crashes: u128, millis: u128) -> (r: String)
    requires
        runs <= usize::MAX,
    ensures
        r@ == stats_line(runs as nat, crashes as nat, millis as nat),
{
    let rate: u128 = if millis == 0 {
        0
    } else {
        proof {
            assert(runs * 100000 <= usize::MAX * 100000) by (nonlinear_arith)
                requires
                    runs <= usize::MAX,
            ;
        }
        runs * 100000 / millis
    };
    let mut s = String::from_str("Total runs: ");
    s.append(decimal(runs).as_str());
    s.append(" | Total crashes: ");
    s.append(decimal(crashes).as_str());
    s.append(" | Runs/sec: ");
    s.append(decimal(rate / 100).as_str());
    push_char(&mut s, '.');
    push_char(&mut s, digit((rate % 100) / 10));
    push_char(&mut s, digit(rate % 10));
    proof {
        assert(s@ =~= stats_line(runs as nat, crashes as nat, millis as nat));
    }
    s
}

// ---------------------------------------------------------------------------
// Classifying the target's outcome
// ---------------------------------------------------------------------------

/// How one run of the target ended.
#[derive(Debug, Clone, Copy, PartialEq, Eq, Structural)]
pub enum Outcome {
    /// Exit code 0 or 1 and no fault signature: nothing to keep.
    Passed,
    /// Ended by a signal.
    Signalled,
    /// Exited with a code above the tolerated ones.
    Exited(i32),
    /// The last line of its error output holds a known fault signature.
    Signature,
}

/// Exit codes up to this one are ordinary usage errors.
pub const TOLERATED_EXIT_CODE: i32 = 1;

/// The error text's last line: a final newline ends a line rather than starting one, and a
/// carriage return at the end of the line is dropped (also where no newline follows it, unlike
/// `str::lines`); empty for empty text.
pub open spec fn last_line(s: Seq<char>) -> Seq<char> {
    let t = if s.len() > 0 && s.last() == '\n' { s.drop_last() } else { s };
    let start = line_start(t, t.len() as int);
    let line = t.subrange(start, t.len() as int);
    if line.len() > 0 && line.last() == '\r' { line.drop_last() } else { line }
}

/// The position just past the last newline before `i`, or 0.
pub open spec fn line_start(t: Seq<char>, i: int) -> int
    decreases i,
{
    if i <= 0 {
        0
    } else if t[i - 1] == '\n' {
        i
    } else {
        line_start(t, i - 1)
    }
}

pub open spec fn contains_at(hay: Seq<char>, needle: Seq<char>, i: int) -> bool {
    0 <= i && i + needle.len() <= hay.len() && hay.subrange(i, i + needle.len()) == needle
}

pub open spec fn contains_text(hay: Seq<char>, needle: Seq<char>) -> bool {
    exists|i: int| contains_at(hay, needle, i)
}

/// The internal-fault signatures searched for in the target's last line of error output.
pub open spec fn has_fault_signature(line: Seq<char>) -> bool {
    contains_text(line, "bad any_cast"@) || contains_text(line, "unordered_map::at"@)
}

/// The classification, checked in order: ended by a signal (no exit code), an exit code above
/// the tolerated ones, a fault signature on the last line of error output; else a pass.
pub open spec fn classify_spec(code: Option<i32>, stderr: Seq<char>) -> Outcome {
    match code {
        None => Outcome::Signalled,
        Some(c) => if c > TOLERATED_EXIT_CODE {
            Outcome::Exited(c)
        } else if has_fault_signature(last_line(stderr)) {
            Outcome::Signature
        } else {
            Outcome::Passed
        },
    }
}

/// Classifies one run of the target from its exit code (`None` when a signal ended it) and
/// its error output.
pub fn classify_outcome(code: Option<i32>, stderr: &str) -> (r: Outcome)
    ensures
        r == classify_spec(code, stderr@),
{
    match code {
        None => Outcome::Signalled,
        Some(c) => {
            if c > TOLERATED_EXIT_CODE {
                Outcome::Exited(c)
            } else {
                let text = chars_of(stderr);
                let line = last_line_of(&text);
                let a = chars_of("bad any_cast");
                let b = chars_of("unordered_map::at");
                if contains(&line, &a) || contains(&line, &b) {
                    Outcome::Signature
                } else {
                    Outcome::Passed
                }
            }
        },
    }
}

/// The last line of `s`, as `last_line` describes it.
pub fn last_line_of(s: &Vec<char>) -> (r: Vec<char>)
    ensures
        r@ == last_line(s@),
{
    let mut end = s.len();
    if end > 0 && s[end - 1] == '\n' {
        end = end - 1;
    }
    let ghost t = if s@.len() > 0 && s@.last() == '\n' { s@.drop_last() } else { s@ };
    proof {
        assert(t =~= s@.subrange(0, end as int));
    }
    let mut start = end;
    while start > 0 && s[start - 1] != '\n'
        invariant
            end <= s@.len(),
            t == s@.subrange(0, end as int),
            start <= end,
            line_start(t, start as int) == line_start(t, end as int),
        decreases start,
    {
        start = start - 1;
    }
    let mut stop = end;
    if stop > start && s[stop - 1] == '\r' {
        stop = stop - 1;
    }
    let mut line: Vec<char> = Vec::new();
    let mut i = start;
    while i < stop
        invariant
            start <= i <= stop <= s@.len(),
            line@ == s@.subrange(start as int, i as int),
        decreases stop - i,
    {
        line.push(s[i]);
        i += 1;
        proof {
            assert(line@ =~= s@.subrange(start as int, i as int));
        }
    }
    proof {
        let whole = t.subrange(start as int, t.len() as int);
        assert(whole =~= s@.subrange(start as int, end as int));
        if stop < end {
            assert(whole.drop_last() =~= line@);
        } else {
            assert(whole =~= line@);
        }
    }
    line
}

/// Whether `needle` occurs in `hay`.
pub fn contains(hay: &Vec<char>, needle: &Vec<char>) -> (r: bool)
    ensures
        r == contains_text(hay@, needle@),
{
    let n = hay.len();
    let m = needle.len();
    if m == 0 {
        proof {
            assert(hay@.subrange(0, 0) =~= needle@);
            assert(contains_at(hay@, needle@, 0));
        }
        return true;
    }
    if m > n {
        proof {
            assert forall|k: int| !contains_at(hay@, needle@, k) by {}
        }
        return false;
    }
    let last = n - m;
    let mut i: usize = 0;
    while i <= last
        invariant
            n == hay@.len(),
            m == needle@.len(),
            m >= 1,
            last == hay@.len() - needle@.len(),
            needle@.len() <= hay@.len(),
            forall|k: int| 0 <= k < i ==> !contains_at(hay@, needle@, k),
        decreases last + 1 - i,
    {
        let mut j: usize = 0;
        let mut same = true;
        while j < needle.len()
            invariant
                n == hay@.len(),
                m == needle@.len(),
                i <= last,
                last == hay@.len() - needle@.len(),
                j <= needle@.len(),
                same == (forall|m: int| 0 <= m < j ==> hay@[i + m] == needle@[m]),
            decreases needle@.len() - j,
        {
            if hay[i + j] != needle[j] {
                same = false;
            }
            j += 1;
        }
        if same {
            proof {
                assert(hay@.subrange(i as int, i + needle@.len()) =~= needle@);
                assert(contains_at(hay@, needle@, i as int));
            }
            return true;
        }
        proof {
            assert(!contains_at(hay@, needle@, i as int)) by {
                if contains_at(hay@, needle@, i as int) {
                    let m = choose|m: int| 0 <= m < needle@.len() && hay@[i + m] != needle@[m];
                    assert(hay@.subrange(i as int, i + needle@.len())[m] == needle@[m]);
                }
            }
        }
        i += 1;
    }
    proof {
        assert forall|k: int| !contains_at(hay@, needle@, k) by {
            if 0 <= k < i {
            }
        }
    }
    false
}

// ---------------------------------------------------------------------------
// One worker's decisions
// ---------------------------------------------------------------------------

/// Completed runs are added to the shared counter in batches of this size.
pub const RUN_BATCH: usize = 10;

/// What happened in one iteration of a worker.
#[derive(Debug, Clone, Copy, PartialEq, Eq, Structural)]
pub enum Event {
    /// No derivation could be generated; the iteration is retried.
    GenerationFailed,
    /// The derivation rendered as empty text; the iteration is retried.
    EmptyProgram,
    /// The target ran on the program and ended so.
    Ran(Outcome),
}

/// What a worker does after an iteration.
#[derive(Debug, Clone, Copy, PartialEq, Eq, Structural)]
pub struct Step {
    /// Iterations completed so far.
    pub completed: usize,
    /// Runs to add to the shared run counter now.
    pub add_runs: usize,
    /// Whether to count a crash and keep the program.
    pub crashed: bool,
    /// Whether the worker's budget of iterations is spent.
    pub finished: bool,
}

/// The next step of a worker that has completed `completed` of its `budget` iterations, after
/// `event`: failed attempts are retried without counting; a completed run counts, is added to
/// the shared counter in batches of ten, and is a crash unless the target passed.
pub fn worker_step(completed: usize, budget: usize, event: Event) -> (r: Step)
    requires
        completed < budget,
    ensures
        (event is GenerationFailed || event is EmptyProgram) ==> r == (Step {
            completed,
            add_runs: 0,
            crashed: false,
            finished: false,
        }),
        event is Ran ==> r == (Step {
            completed: (completed + 1) as usize,
            add_runs: if (completed + 1) % (RUN_BATCH as int) == 0 {
                RUN_BATCH
            } else {
                0
            },
            crashed: event->Ran_0 != Outcome::Passed,
            finished: completed + 1 >= budget,
        }),
{
    match event {
        Event::GenerationFailed | Event::EmptyProgram => Step {
            completed,
            add_runs: 0,
            crashed: false,
            finished: false,
        },
        Event::Ran(outcome) => {
            let done = completed + 1;
            Step {
                completed: done,
                add_runs: if done % RUN_BATCH == 0 {
                    RUN_BATCH
                } else {
                    0
                },
                crashed: !matches!(outcome, Outcome::Passed),
                finished: done >= budget,
            }
        },
    }
}

} // verus!
