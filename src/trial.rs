//! Trials of the replication protocol over seeded random traces.
//!
//! A trial starts from a fresh protocol state, draws a trace of requests
//! from a fastrand generator seeded by the caller, applies them in order and
//! reports the total cost and the peak replica count. Since the generator is
//! a pure function of its seed, a trial is a pure function of its parameters.
use vstd::prelude::*;
use crate::random::{draw_below, seeded_draw};
use crate::allocation::{
    initial_view, lemma_initial_wf, lemma_run_wf, run, valid_trace, Access, AllocView,
    PageAllocation, Request,
};

verus! {

/// The processor that issues the next request, drawn uniformly below `n`.
pub open spec fn drawn_processor(state: u64, n: usize) -> (usize, u64) {
    let (v, next) = seeded_draw(state, n as u64);
    (v as usize, next)
}

/// The kind of the next request: a write with probability
/// `write_num / write_den`, a read otherwise.
pub open spec fn drawn_request(state: u64, write_num: u64, write_den: u64) -> (Request, u64) {
    let (v, next) = seeded_draw(state, write_den);
    (if v < write_num { Request::Write } else { Request::Read }, next)
}

/// The first `len` requests drawn from a generator seeded with `seed`, and
/// the generator's state after them.
pub open spec fn drawn_trace(seed: u64, n: usize, write_num: u64, write_den: u64, len: nat) -> (
    Seq<Access>,
    u64,
)
    decreases len,
{
    if len == 0 {
        (Seq::empty(), seed)
    } else {
        let (t, s) = drawn_trace(seed, n, write_num, write_den, (len - 1) as nat);
        let (pid, s1) = drawn_processor(s, n);
        let (request, s2) = drawn_request(s1, write_num, write_den);
        (t.push(Access { pid, request }), s2)
    }
}

/// What a trial reports: the total cost and the peak number of replicas.
#[derive(Clone, Copy, Debug, PartialEq, Eq, Structural)]
pub struct TrialOutcome {
    pub total_cost: u64,
    pub max_copies: usize,
}

/// What is reported of a final protocol state.
pub open spec fn outcome_of(v: AllocView) -> TrialOutcome {
    TrialOutcome { total_cost: v.cost as u64, max_copies: v.max_copies as usize }
}

/// What a trial over `trace` reports, on `n` processors with threshold `d`.
pub open spec fn trace_outcome(n: nat, d: nat, trace: Seq<Access>) -> TrialOutcome {
    outcome_of(run(initial_view(n, d), trace))
}

/// What a trial of `len` requests drawn from `seed` reports.
pub open spec fn trial_outcome(
    n: usize,
    d: usize,
    write_num: u64,
    write_den: u64,
    len: nat,
    seed: u64,
) -> TrialOutcome {
    trace_outcome(n as nat, d as nat, drawn_trace(seed, n, write_num, write_den, len).0)
}

/// Draws the processor of the next request from generator state `state`.
pub fn rand_processor(state: u64, n: usize) -> (r: (usize, u64))
    requires
        n >= 1,
    ensures
        r == drawn_processor(state, n),
        r.0 < n,
{
    let (v, next) = draw_below(state, n as u64);
    (v as usize, next)
}

/// Draws the kind of the next request from generator state `state`: a write
/// with probability `write_num / write_den`.
pub fn rand_request(state: u64, write_num: u64, write_den: u64) -> (r: (Request, u64))
    requires
        write_den >= 1,
    ensures
        r == drawn_request(state, write_num, write_den),
{
    let (v, next) = draw_below(state, write_den);
    if v < write_num {
        (Request::Write, next)
    } else {
        (Request::Read, next)
    }
}

/// Draws a trace of `len` requests over `n` processors from `seed`.
pub fn draw_trace(seed: u64, n: usize, write_num: u64, write_den: u64, len: usize) -> (r: Vec<
    Access,
>)
    requires
        n >= 1,
        write_den >= 1,
    ensures
        r@ == drawn_trace(seed, n, write_num, write_den, len as nat).0,
        valid_trace(r@, n as nat),
        r@.len() == len,
{
    let mut trace: Vec<Access> = Vec::new();
    let mut state = seed;
    let mut i: usize = 0;
    while i < len
        invariant
            n >= 1,
            write_den >= 1,
            i <= len,
            trace@.len() == i,
            (trace@, state) == drawn_trace(seed, n, write_num, write_den, i as nat),
            valid_trace(trace@, n as nat),
        decreases len - i,
    {
        let (pid, s1) = rand_processor(state, n);
        let (request, s2) = rand_request(s1, write_num, write_den);
        trace.push(Access { pid, request });
        state = s2;
        i += 1;
        assert(valid_trace(trace@, n as nat)) by {
            assert forall|j: int| 0 <= j < trace@.len() implies #[trigger] trace@[j].pid < n by {
                if j < trace@.len() - 1 {
                    assert(trace@[j] == trace@.drop_last()[j]);
                }
            }
        }
    }
    trace
}

/// Runs one trial over `trace` on `n` processors with threshold `d`.
pub fn run_trace(n: usize, d: usize, trace: &Vec<Access>) -> (r: TrialOutcome)
    requires
        n >= 1,
        d >= 1,
        valid_trace(trace@, n as nat),
        trace@.len() * (n + d) <= u64::MAX,
    ensures
        r == trace_outcome(n as nat, d as nat, trace@),
{
    let mut alloc = PageAllocation::new(n, d);
    let ghost start = alloc@;
    let mut i: usize = 0;
    while i < trace.len()
        invariant
            n >= 1,
            d >= 1,
            start == initial_view(n as nat, d as nat),
            start.wf(),
            valid_trace(trace@, n as nat),
            trace@.len() * (n + d) <= u64::MAX,
            i <= trace@.len(),
            alloc@ == run(start, trace@.subrange(0, i as int)),
        decreases trace@.len() - i,
    {
        let ghost done = trace@.subrange(0, i as int);
        proof {
            assert(valid_trace(done, n as nat)) by {
                assert forall|j: int| 0 <= j < done.len() implies #[trigger] done[j].pid < n by {
                    assert(done[j] == trace@[j]);
                }
            }
            lemma_run_wf(start, done);
            assert((i + 1) * (n + d) <= trace@.len() * (n + d)) by (nonlinear_arith)
                requires
                    i + 1 <= trace@.len(),
            ;
            assert(i * (n + d) + (n + d) == (i + 1) * (n + d)) by (nonlinear_arith);
        }
        let access = trace[i];
        assert(access.pid < n);
        alloc.apply(access.pid, access.request);
        i += 1;
        assert(trace@.subrange(0, i as int).drop_last() =~= done);
    }
    assert(trace@.subrange(0, i as int) =~= trace@);
    proof {
        lemma_run_wf(start, trace@);
    }
    TrialOutcome { total_cost: alloc.total_cost(), max_copies: alloc.max_copies() }
}

/// Runs one trial: draws `len` requests from a generator seeded with `seed`
/// (a write with probability `write_num / write_den`, its processor uniform
/// over the `n`), applies them to a fresh state and reports the total cost
/// and the peak replica count.
pub fn run_trial(n: usize, d: usize, write_num: u64, write_den: u64, len: usize, seed: u64) -> (r:
    TrialOutcome)
    requires
        n >= 1,
        d >= 1,
        write_den >= 1,
        len * (n + d) <= u64::MAX,
    ensures
        r == trial_outcome(n, d, write_num, write_den, len as nat, seed),
        1 <= r.max_copies <= n,
{
    let trace = draw_trace(seed, n, write_num, write_den, len);
    proof {
        lemma_initial_wf(n as nat, d as nat);
        lemma_run_wf(initial_view(n as nat, d as nat), trace@);
    }
    run_trace(n, d, &trace)
}


/// Runs one trial for each seed of `seeds`, in order.
pub fn run_trials(n: usize, d: usize, write_num: u64, write_den: u64, len: usize, seeds: &Vec<u64>) -> (r:
    Vec<TrialOutcome>)
    requires
        n >= 1,
        d >= 1,
        write_den >= 1,
        len * (n + d) <= u64::MAX,
    ensures
        r@.len() == seeds@.len(),
        forall|i: int|
            0 <= i < seeds@.len() ==> #[trigger] r@[i] == trial_outcome(
                n,
                d,
                write_num,
                write_den,
                len as nat,
                seeds@[i],
            ),
{
    let mut outcomes: Vec<TrialOutcome> = Vec::new();
    let mut i: usize = 0;
    while i < seeds.len()
        invariant
            n >= 1,
            d >= 1,
            write_den >= 1,
            len * (n + d) <= u64::MAX,
            i <= seeds@.len(),
            outcomes@.len() == i,
            forall|j: int|
                0 <= j < i ==> #[trigger] outcomes@[j] == trial_outcome(
                    n,
                    d,
                    write_num,
                    write_den,
                    len as nat,
                    seeds@[j],
                ),
        decreases seeds@.len() - i,
    {
        let outcome = run_trial(n, d, write_num, write_den, len, seeds[i]);
        outcomes.push(outcome);
        i += 1;
    }
    outcomes
}

/// Trials are reproducible: two runs over the same seeds with the same
/// parameters report the same costs and peaks, in the same order.
pub proof fn lemma_trials_reproducible(
    n: usize,
    d: usize,
    write_num: u64,
    write_den: u64,
    len: nat,
    seeds: Seq<u64>,
    first: Seq<TrialOutcome>,
    second: Seq<TrialOutcome>,
)
    requires
        first.len() == seeds.len(),
        second.len() == seeds.len(),
        forall|i: int|
            0 <= i < seeds.len() ==> #[trigger] first[i] == trial_outcome(
                n,
                d,
                write_num,
                write_den,
                len,
                seeds[i],
            ),
        forall|i: int|
            0 <= i < seeds.len() ==> #[trigger] second[i] == trial_outcome(
                n,
                d,
                write_num,
                write_den,
                len,
                seeds[i],
            ),
    ensures
        first == second,
{
    assert(first =~= second);
}

} // verus!
