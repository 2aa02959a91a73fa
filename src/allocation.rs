//! Adaptive replication of one shared page across a fixed set of processors.
//!
//! Every processor runs a small state machine that decides when it acquires a
//! replica of the page and when it gives its replica up again. Reads are free
//! where a replica is held and cost one otherwise; a write is charged for every
//! other replica that must be invalidated. Acquiring a replica costs the
//! threshold `d` once.
use vstd::prelude::*;

verus! {

/// Where a processor stands in its replica's lifecycle.
#[derive(Clone, Copy, Debug, PartialEq, Eq, Structural)]
pub enum State {
    /// No replica: local demand is counted up toward acquiring one.
    Increasing,
    /// Holds a replica: foreign writes count it down toward giving it up.
    Decreasing,
    /// Holds a replica and gives it up as soon as another replica exists.
    Holding,
}

/// One processor: its progress counter and its lifecycle state.
#[derive(Clone, Copy, Debug, PartialEq, Eq, Structural)]
pub struct Processor {
    pub count: usize,
    pub state: State,
}

impl Processor {
    /// Whether this processor holds a replica of the page.
    pub open spec fn holds_replica(self) -> bool {
        !(self.state is Increasing)
    }

    /// The counter fits the state, for threshold `d`.
    pub open spec fn counter_ok(self, d: nat) -> bool {
        match self.state {
            State::Increasing => self.count < d,
            State::Decreasing => 1 <= self.count <= d,
            State::Holding => self.count == 0,
        }
    }

    /// A processor without a replica that has seen no demand yet.
    pub fn new_empty() -> (r: Processor)
        ensures
            r == (Processor { count: 0, state: State::Increasing }),
    {
        Processor { count: 0, state: State::Increasing }
    }

    /// A processor that holds the page and is ready to give it up.
    pub fn new_full() -> (r: Processor)
        ensures
            r == (Processor { count: 0, state: State::Holding }),
    {
        Processor { count: 0, state: State::Holding }
    }

    pub fn has_copy(&self) -> (r: bool)
        ensures
            r == self.holds_replica(),
    {
        !matches!(self.state, State::Increasing)
    }
}


/// A read or a write of the shared page.
#[derive(Clone, Copy, Debug, PartialEq, Eq, Structural)]
pub enum Request {
    Read,
    Write,
}

/// Number of processors in `ps` that hold a replica.
pub open spec fn replica_count(ps: Seq<Processor>) -> nat
    decreases ps.len(),
{
    if ps.len() == 0 {
        0
    } else {
        replica_count(ps.drop_last()) + if ps.last().holds_replica() {
            1nat
        } else {
            0nat
        }
    }
}

/// The system holds exactly one replica and some processor waits to give it up.
pub open spec fn sole_holder_waiting(copies: nat, ps: Seq<Processor>) -> bool {
    copies == 1 && exists|i: int| 0 <= i < ps.len() && ps[i].state == State::Holding
}

/// The whole protocol state, as mathematical values.
pub struct AllocView {
    pub processors: Seq<Processor>,
    pub d: nat,
    pub copies: nat,
    pub max_copies: nat,
    pub cost: nat,
}

impl AllocView {
    /// Counters fit their states, and the replica count is the number of
    /// replicas, at least one and at most the peak.
    pub open spec fn wf(self) -> bool {
        &&& self.processors.len() >= 1
        &&& 1 <= self.d <= usize::MAX
        &&& forall|i: int| 0 <= i < self.processors.len() ==> #[trigger] self.processors[i].counter_ok(self.d)
        &&& self.copies == replica_count(self.processors)
        &&& 1 <= self.copies
        &&& self.copies <= self.max_copies <= self.processors.len()
    }

    /// What request `req` by processor `pid` is charged before any processor moves.
    pub open spec fn charge(self, pid: int, req: Request) -> nat {
        let has = self.processors[pid].holds_replica();
        match req {
            Request::Read => if has { 0 } else { 1 },
            Request::Write => if has { (self.copies - 1) as nat } else { self.copies },
        }
    }

    /// Processor `idx` takes its step for request `req` by `pid`, where `c0`
    /// is the replica count at the start of the request.
    ///
    /// - Without a replica, the issuing processor counts the request when it
    ///   is a read, or when the request started with a single replica whose
    ///   holder waits to give it up (judged on the processors as they stand
    ///   at this point of the pass). At `d` it acquires a replica and pays `d`.
    /// - With a replica it is counting down, a processor counts one down for
    ///   each write issued elsewhere; at 0 it waits to give its replica up.
    /// - A waiting processor gives its replica up as soon as the current
    ///   replica count, as lowered earlier in the pass, is above one.
    pub open spec fn advance_one(self, idx: int, pid: int, req: Request, c0: nat) -> AllocView {
        let p = self.processors[idx];
        match p.state {
            State::Increasing => {
                if idx == pid && (req == Request::Read || sole_holder_waiting(c0, self.processors)) {
                    if p.count + 1 == self.d {
                        AllocView {
                            processors: self.processors.update(
                                idx,
                                Processor { count: (p.count + 1) as usize, state: State::Decreasing },
                            ),
                            d: self.d,
                            copies: self.copies + 1,
                            max_copies: if self.copies + 1 > self.max_copies {
                                self.copies + 1
                            } else {
                                self.max_copies
                            },
                            cost: self.cost + self.d,
                        }
                    } else {
                        AllocView {
                            processors: self.processors.update(
                                idx,
                                Processor { count: (p.count + 1) as usize, state: State::Increasing },
                            ),
                            ..self
                        }
                    }
                } else {
                    self
                }
            },
            State::Decreasing => {
                if idx != pid && req == Request::Write {
                    let count = (p.count - 1) as usize;
                    AllocView {
                        processors: self.processors.update(
                            idx,
                            Processor {
                                count,
                                state: if count == 0 { State::Holding } else { State::Decreasing },
                            },
                        ),
                        ..self
                    }
                } else {
                    self
                }
            },
            State::Holding => {
                if self.copies > 1 {
                    AllocView {
                        processors: self.processors.update(
                            idx,
                            Processor { count: 0, state: State::Increasing },
                        ),
                        copies: (self.copies - 1) as nat,
                        ..self
                    }
                } else {
                    self
                }
            },
        }
    }

    /// Processors `lo..hi` take their steps in ascending order.
    pub open spec fn advance_range(self, lo: int, hi: int, pid: int, req: Request, c0: nat) -> AllocView
        decreases hi - lo,
    {
        if lo >= hi {
            self
        } else {
            self.advance_one(lo, pid, req, c0).advance_range(lo + 1, hi, pid, req, c0)
        }
    }

    /// The state after request `req` by processor `pid`: the request is
    /// charged, then every processor takes its step in ascending order.
    pub open spec fn step(self, pid: int, req: Request) -> AllocView {
        let charged = AllocView { cost: self.cost + self.charge(pid, req), ..self };
        charged.advance_range(0, self.processors.len() as int, pid, req, self.copies)
    }
}

/// Changing one processor changes the replica count by what that processor holds.
pub proof fn lemma_replica_count_update(ps: Seq<Processor>, i: int, p: Processor)
    requires
        0 <= i < ps.len(),
    ensures
        replica_count(ps.update(i, p)) + (if ps[i].holds_replica() { 1int } else { 0int })
            == replica_count(ps) + (if p.holds_replica() { 1int } else { 0int }),
    decreases ps.len(),
{
    let qs = ps.update(i, p);
    if i == ps.len() - 1 {
        assert(qs.drop_last() =~= ps.drop_last());
    } else {
        lemma_replica_count_update(ps.drop_last(), i, p);
        assert(qs.drop_last() =~= ps.drop_last().update(i, p));
    }
}

/// No more processors hold a replica than there are processors.
pub proof fn lemma_replica_count_bound(ps: Seq<Processor>)
    ensures
        replica_count(ps) <= ps.len(),
    decreases ps.len(),
{
    if ps.len() > 0 {
        lemma_replica_count_bound(ps.drop_last());
    }
}

/// One processor's step keeps the state well formed and never lowers the
/// peak replica count or the total cost.
pub proof fn lemma_advance_one_wf(s: AllocView, idx: int, pid: int, req: Request, c0: nat)
    requires
        s.wf(),
        0 <= idx < s.processors.len(),
    ensures
        s.advance_one(idx, pid, req, c0).wf(),
        s.advance_one(idx, pid, req, c0).processors.len() == s.processors.len(),
        s.advance_one(idx, pid, req, c0).d == s.d,
        s.advance_one(idx, pid, req, c0).max_copies >= s.max_copies,
        s.advance_one(idx, pid, req, c0).cost >= s.cost,
        s.advance_one(idx, pid, req, c0).cost <= s.cost + if idx == pid { s.d } else { 0 },
{
    let t = s.advance_one(idx, pid, req, c0);
    let p = s.processors[idx];
    assert(p.counter_ok(s.d));
    if t.processors != s.processors {
        lemma_replica_count_update(s.processors, idx, t.processors[idx]);
        assert(t.processors =~= s.processors.update(idx, t.processors[idx]));
    }
    lemma_replica_count_bound(t.processors);
    assert forall|i: int| 0 <= i < t.processors.len() implies #[trigger] t.processors[i].counter_ok(t.d) by {
        if i != idx {
            assert(t.processors[i] == s.processors[i]);
        }
    }
}


/// The processors take their steps in turn; each keeps the state well formed.
/// Only processor `pid` can add to the cost, and by at most `d`.
pub proof fn lemma_advance_range_wf(s: AllocView, lo: int, hi: int, pid: int, req: Request, c0: nat)
    requires
        s.wf(),
        0 <= lo <= hi <= s.processors.len(),
    ensures
        s.advance_range(lo, hi, pid, req, c0).wf(),
        s.advance_range(lo, hi, pid, req, c0).processors.len() == s.processors.len(),
        s.advance_range(lo, hi, pid, req, c0).d == s.d,
        s.advance_range(lo, hi, pid, req, c0).max_copies >= s.max_copies,
        s.advance_range(lo, hi, pid, req, c0).cost >= s.cost,
        s.advance_range(lo, hi, pid, req, c0).cost <= s.cost + if lo <= pid < hi { s.d } else { 0 },
    decreases hi - lo,
{
    if lo < hi {
        lemma_advance_one_wf(s, lo, pid, req, c0);
        lemma_advance_range_wf(s.advance_one(lo, pid, req, c0), lo + 1, hi, pid, req, c0);
    }
}

/// Every request keeps the protocol state well formed: the replica count
/// equals the number of processors holding a replica and stays between one
/// and the number of processors. The peak replica count and the total cost
/// never go down.
pub proof fn lemma_step_wf(s: AllocView, pid: int, req: Request)
    requires
        s.wf(),
        0 <= pid < s.processors.len(),
    ensures
        s.step(pid, req).wf(),
        s.step(pid, req).processors.len() == s.processors.len(),
        s.step(pid, req).d == s.d,
        s.step(pid, req).copies == replica_count(s.step(pid, req).processors),
        1 <= s.step(pid, req).copies <= s.processors.len(),
        1 <= s.max_copies <= s.step(pid, req).max_copies,
        s.cost <= s.step(pid, req).cost,
        s.step(pid, req).cost <= s.cost + s.processors.len() + s.d,
{
    let charged = AllocView { cost: s.cost + s.charge(pid, req), ..s };
    assert(charged.wf());
    lemma_advance_range_wf(charged, 0, s.processors.len() as int, pid, req, s.copies);
}

/// Whether the system holds a single replica and some processor waits to give it up.
pub fn is_waiting(num_of_copies: usize, processors: &[Processor]) -> (r: bool)
    ensures
        r == sole_holder_waiting(num_of_copies as nat, processors@),
{
    if num_of_copies != 1 {
        return false;
    }
    let mut i: usize = 0;
    while i < processors.len()
        invariant
            num_of_copies == 1,
            0 <= i <= processors@.len(),
            forall|j: int| 0 <= j < i ==> processors@[j].state != State::Holding,
        decreases processors.len() - i,
    {
        if matches!(processors[i].state, State::Holding) {
            assert(processors@[i as int].state == State::Holding);
            return true;
        }
        i += 1;
    }
    false
}

/// The processors at the start of a trial: processor 0 holds the page and
/// waits, all others have no replica and no demand yet.
pub open spec fn initial_processors(n: nat) -> Seq<Processor> {
    Seq::new(
        n,
        |i: int|
            if i == 0 {
                Processor { count: 0, state: State::Holding }
            } else {
                Processor { count: 0, state: State::Increasing }
            },
    )
}

/// The state at the start of a trial with `n` processors and threshold `d`.
pub open spec fn initial_view(n: nat, d: nat) -> AllocView {
    AllocView { processors: initial_processors(n), d, copies: 1, max_copies: 1, cost: 0 }
}

/// The initial state of a trial is well formed.
pub proof fn lemma_initial_wf(n: nat, d: nat)
    requires
        n >= 1,
        1 <= d <= usize::MAX,
    ensures
        initial_view(n, d).wf(),
    decreases n,
{
    let ps = initial_processors(n);
    if n > 1 {
        lemma_initial_wf((n - 1) as nat, d);
        assert(ps.drop_last() =~= initial_processors((n - 1) as nat));
        assert(!ps.last().holds_replica());
    } else {
        assert(ps.drop_last() =~= Seq::<Processor>::empty());
        assert(replica_count(ps.drop_last()) == 0);
        assert(ps.last().holds_replica());
    }
    assert(replica_count(ps) == 1);
    assert forall|i: int| 0 <= i < ps.len() implies #[trigger] ps[i].counter_ok(d) by {}
}

/// Processors for a trial of `n`: the first holds the page, the others are empty.
pub fn init_processors(n: usize) -> (r: Vec<Processor>)
    requires
        n >= 1,
    ensures
        r@ == initial_processors(n as nat),
{
    let mut processors: Vec<Processor> = Vec::new();
    processors.push(Processor::new_full());
    let mut i: usize = 1;
    while i < n
        invariant
            1 <= i <= n,
            processors@ =~= initial_processors(i as nat),
        decreases n - i,
    {
        processors.push(Processor::new_empty());
        i += 1;
        assert(processors@ =~= initial_processors(i as nat));
    }
    processors
}

/// The replication protocol over a fixed array of processors: the array,
/// the threshold, the current and peak replica counts and the running cost.
pub struct PageAllocation {
    processors: Vec<Processor>,
    d: usize,
    curr_copies: usize,
    max_copies: usize,
    total_cost: u64,
}

impl View for PageAllocation {
    type V = AllocView;

    closed spec fn view(&self) -> AllocView {
        AllocView {
            processors: self.processors@,
            d: self.d as nat,
            copies: self.curr_copies as nat,
            max_copies: self.max_copies as nat,
            cost: self.total_cost as nat,
        }
    }
}

impl PageAllocation {
    /// A fresh trial over `n` processors with threshold `d`.
    pub fn new(n: usize, d: usize) -> (r: PageAllocation)
        requires
            n >= 1,
            d >= 1,
        ensures
            r@ == initial_view(n as nat, d as nat),
            r@.wf(),
    {
        proof {
            lemma_initial_wf(n as nat, d as nat);
        }
        PageAllocation {
            processors: init_processors(n),
            d,
            curr_copies: 1,
            max_copies: 1,
            total_cost: 0,
        }
    }

    pub fn total_cost(&self) -> (r: u64)
        ensures
            r == self@.cost,
    {
        self.total_cost
    }

    pub fn curr_copies(&self) -> (r: usize)
        ensures
            r == self@.copies,
    {
        self.curr_copies
    }

    pub fn max_copies(&self) -> (r: usize)
        ensures
            r == self@.max_copies,
    {
        self.max_copies
    }

    pub fn threshold(&self) -> (r: usize)
        ensures
            r == self@.d,
    {
        self.d
    }

    pub fn num_processors(&self) -> (r: usize)
        ensures
            r == self@.processors.len(),
    {
        self.processors.len()
    }

    pub fn processor(&self, i: usize) -> (r: Processor)
        requires
            i < self@.processors.len(),
        ensures
            r == self@.processors[i as int],
    {
        self.processors[i]
    }

    /// Applies request `request` by processor `pid`: charges it, then lets
    /// every processor take its step in ascending order of index (see
    /// `AllocView::advance_one`). Returns what the request cost in all.
    pub fn apply(&mut self, pid: usize, request: Request) -> (r: u64)
        requires
            old(self)@.wf(),
            pid < old(self)@.processors.len(),
            old(self)@.cost + old(self)@.processors.len() + old(self)@.d <= u64::MAX,
        ensures
            final(self)@ == old(self)@.step(pid as int, request),
            final(self)@.wf(),
            r == final(self)@.cost - old(self)@.cost,
            final(self)@.max_copies >= old(self)@.max_copies,
            final(self)@.cost >= old(self)@.cost,
    {
        proof {
            lemma_step_wf(self@, pid as int, request);
            lemma_replica_count_bound(self@.processors);
        }
        let n = self.processors.len();
        let c0 = self.curr_copies;
        let start = self.total_cost;
        let charge: u64 = if self.processors[pid].has_copy() {
            match request {
                Request::Read => 0,
                Request::Write => (c0 - 1) as u64,
            }
        } else {
            match request {
                Request::Read => 1,
                Request::Write => c0 as u64,
            }
        };
        self.total_cost = self.total_cost + charge;
        let ghost charged = self@;
        let ghost target = charged.advance_range(0, n as int, pid as int, request, c0 as nat);
        assert(charged.wf());
        let mut idx: usize = 0;
        while idx < n
            invariant
                0 <= idx <= n,
                pid < n,
                n == self@.processors.len(),
                self@.wf(),
                self@.d == charged.d,
                self@.advance_range(idx as int, n as int, pid as int, request, c0 as nat) == target,
                self@.cost <= charged.cost + if idx > pid { charged.d } else { 0 },
                charged.cost + charged.d <= u64::MAX,
            decreases n - idx,
        {
            proof {
                lemma_advance_one_wf(self@, idx as int, pid as int, request, c0 as nat);
                assert(self@.processors[idx as int].counter_ok(self@.d));
            }
            let p = self.processors[idx];
            match p.state {
                State::Increasing => {
                    if idx == pid && (matches!(request, Request::Read) || is_waiting(
                        c0,
                        self.processors.as_slice(),
                    )) {
                        let count = p.count + 1;
                        if count == self.d {
                            self.total_cost = self.total_cost + self.d as u64;
                            self.curr_copies = self.curr_copies + 1;
                            if self.curr_copies > self.max_copies {
                                self.max_copies = self.curr_copies;
                            }
                            self.processors.set(idx, Processor { count, state: State::Decreasing });
                        } else {
                            self.processors.set(idx, Processor { count, state: State::Increasing });
                        }
                    }
                },
                State::Decreasing => {
                    if idx != pid && matches!(request, Request::Write) {
                        let count = p.count - 1;
                        if count == 0 {
                            self.processors.set(idx, Processor { count, state: State::Holding });
                        } else {
                            self.processors.set(idx, Processor { count, state: State::Decreasing });
                        }
                    }
                },
                State::Holding => {
                    if self.curr_copies > 1 {
                        self.curr_copies = self.curr_copies - 1;
                        self.processors.set(idx, Processor { count: 0, state: State::Increasing });
                    }
                },
            }
            idx += 1;
        }
        self.total_cost - start
    }
}


/// One request of a trace: the processor that issues it and what it does.
#[derive(Clone, Copy, Debug, PartialEq, Eq, Structural)]
pub struct Access {
    pub pid: usize,
    pub request: Request,
}

/// The state after the requests of `trace`, applied in order from `s`.
pub open spec fn run(s: AllocView, trace: Seq<Access>) -> AllocView
    decreases trace.len(),
{
    if trace.len() == 0 {
        s
    } else {
        run(s, trace.drop_last()).step(trace.last().pid as int, trace.last().request)
    }
}

/// Every request of `trace` names one of the `n` processors.
pub open spec fn valid_trace(trace: Seq<Access>, n: nat) -> bool {
    forall|i: int| 0 <= i < trace.len() ==> #[trigger] trace[i].pid < n
}

/// Over a whole trace the state stays well formed, the peak replica count
/// and the cost never go down, and each request adds at most `n + d` to the
/// cost.
pub proof fn lemma_run_wf(s: AllocView, trace: Seq<Access>)
    requires
        s.wf(),
        valid_trace(trace, s.processors.len()),
    ensures
        run(s, trace).wf(),
        run(s, trace).processors.len() == s.processors.len(),
        run(s, trace).d == s.d,
        1 <= s.max_copies <= run(s, trace).max_copies,
        s.cost <= run(s, trace).cost,
        run(s, trace).cost <= s.cost + trace.len() * (s.processors.len() + s.d),
    decreases trace.len(),
{
    if trace.len() > 0 {
        let t = trace.drop_last();
        assert(valid_trace(t, s.processors.len())) by {
            assert forall|i: int| 0 <= i < t.len() implies #[trigger] t[i].pid < s.processors.len() by {
                assert(t[i] == trace[i]);
            }
        }
        lemma_run_wf(s, t);
        assert(trace[trace.len() - 1].pid < s.processors.len());
        lemma_step_wf(run(s, t), trace.last().pid as int, trace.last().request);
        assert(trace.len() * (s.processors.len() + s.d) == t.len() * (s.processors.len() + s.d) + (
        s.processors.len() + s.d)) by (nonlinear_arith)
            requires
                t.len() + 1 == trace.len(),
        ;
    }
}


/// Running two traces one after the other is running their concatenation.
pub proof fn lemma_run_append(s: AllocView, first: Seq<Access>, second: Seq<Access>)
    ensures
        run(s, first + second) == run(run(s, first), second),
    decreases second.len(),
{
    if second.len() == 0 {
        assert(first + second =~= first);
    } else {
        lemma_run_append(s, first, second.drop_last());
        assert((first + second).drop_last() =~= first + second.drop_last());
    }
}

/// Every state reachable in a trial is well formed: the replica count is the
/// number of processors that hold a replica, and lies between one and the
/// number of processors; the peak replica count is at least one.
pub proof fn lemma_reachable_wf(n: nat, d: nat, trace: Seq<Access>)
    requires
        n >= 1,
        1 <= d <= usize::MAX,
        valid_trace(trace, n),
    ensures
        run(initial_view(n, d), trace).wf(),
        run(initial_view(n, d), trace).processors.len() == n,
        run(initial_view(n, d), trace).copies == replica_count(run(initial_view(n, d), trace).processors),
        1 <= run(initial_view(n, d), trace).copies <= n,
        1 <= run(initial_view(n, d), trace).max_copies,
{
    lemma_initial_wf(n, d);
    lemma_run_wf(initial_view(n, d), trace);
}

/// Over the course of a trial the peak replica count and the total cost
/// never go down: after the first `i` requests they are at most what they
/// are after the first `j`, for `i <= j`.
pub proof fn lemma_trial_monotone(n: nat, d: nat, trace: Seq<Access>, i: int, j: int)
    requires
        n >= 1,
        1 <= d <= usize::MAX,
        valid_trace(trace, n),
        0 <= i <= j <= trace.len(),
    ensures
        run(initial_view(n, d), trace.take(i)).max_copies <= run(initial_view(n, d), trace.take(j)).max_copies,
        run(initial_view(n, d), trace.take(i)).cost <= run(initial_view(n, d), trace.take(j)).cost,
{
    let s = initial_view(n, d);
    let head = trace.take(i);
    let rest = trace.subrange(i, j);
    assert(head + rest =~= trace.take(j));
    lemma_run_append(s, head, rest);
    assert(valid_trace(head, n)) by {
        assert forall|k: int| 0 <= k < head.len() implies #[trigger] head[k].pid < n by {
            assert(head[k] == trace[k]);
        }
    }
    assert(valid_trace(rest, n)) by {
        assert forall|k: int| 0 <= k < rest.len() implies #[trigger] rest[k].pid < n by {
            assert(rest[k] == trace[i + k]);
        }
    }
    lemma_reachable_wf(n, d, head);
    lemma_run_wf(run(s, head), rest);
}

} // verus!
