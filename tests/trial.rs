use online_algorithms::allocation::{Access, Request};
use online_algorithms::trial::{draw_trace, rand_processor, rand_request, run_trace, run_trial, run_trials, TrialOutcome};

#[test]
fn same_seed_gives_same_trial() {
    let a = run_trial(64, 16, 5, 100, 4096, 7);
    let b = run_trial(64, 16, 5, 100, 4096, 7);
    assert_eq!(a, b);
    assert!(a.max_copies >= 1 && a.max_copies <= 64);
}

#[test]
fn same_seeds_give_same_sequence() {
    let seeds = vec![1, 2, 3, 99, 12345];
    let first = run_trials(16, 4, 1, 10, 1000, &seeds);
    let second = run_trials(16, 4, 1, 10, 1000, &seeds);
    assert_eq!(first.len(), 5);
    assert_eq!(first, second);
    for (i, seed) in seeds.iter().enumerate() {
        assert_eq!(first[i], run_trial(16, 4, 1, 10, 1000, *seed));
    }
}

#[test]
fn trial_is_the_trace_it_draws() {
    let trace = draw_trace(42, 8, 1, 4, 500);
    assert_eq!(trace.len(), 500);
    assert!(trace.iter().all(|a| a.pid < 8));
    assert_eq!(run_trial(8, 3, 1, 4, 500, 42), run_trace(8, 3, &trace));
}

#[test]
fn draws_stay_in_range_and_advance() {
    let mut state = 2024u64;
    let mut seen = [false; 10];
    for _ in 0..200 {
        let (pid, next) = rand_processor(state, 10);
        assert!(pid < 10);
        assert_ne!(next, state);
        seen[pid] = true;
        state = next;
    }
    assert!(seen.iter().all(|s| *s));
}

#[test]
fn write_probability_extremes() {
    let mut state = 5u64;
    for _ in 0..100 {
        let (r, next) = rand_request(state, 0, 10);
        assert_eq!(r, Request::Read);
        let (w, _) = rand_request(state, 10, 10);
        assert_eq!(w, Request::Write);
        state = next;
    }
}

#[test]
fn trace_outcome_of_scenario() {
    let trace = vec![Access { pid: 1, request: Request::Read }; 3];
    assert_eq!(run_trace(4, 2, &trace), TrialOutcome { total_cost: 4, max_copies: 2 });
    let writes = vec![Access { pid: 1, request: Request::Write }];
    assert_eq!(run_trace(2, 1, &writes), TrialOutcome { total_cost: 2, max_copies: 2 });
}

#[test]
fn all_reads_by_few_processors_stay_cheap() {
    let outcome = run_trial(4, 2, 0, 1, 1000, 3);
    // with no writes, no processor ever gives up a replica it acquired
    assert!(outcome.total_cost <= 4 * 2 + 4 * 2);
    assert!(outcome.max_copies <= 4);
}
