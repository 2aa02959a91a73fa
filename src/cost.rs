//! What requests cost under the replication protocol.
use vstd::prelude::*;
use crate::allocation::{
    initial_processors, initial_view, run, Access, AllocView, Processor, Request, State,
};

verus! {

/// Within a pass, only the issuing processor `pid` can change the cost: by
/// `d` when it acquires a replica, by nothing otherwise. Processors outside
/// the pass keep their state.
pub proof fn lemma_pass_cost(s: AllocView, lo: int, hi: int, pid: int, req: Request, c0: nat)
    requires
        0 <= pid < s.processors.len(),
        0 <= lo <= hi <= s.processors.len(),
    ensures
        s.advance_range(lo, hi, pid, req, c0).processors.len() == s.processors.len(),
        s.advance_range(lo, hi, pid, req, c0).d == s.d,
        s.advance_range(lo, hi, pid, req, c0).cost == s.cost + if lo <= pid < hi
            && !s.processors[pid].holds_replica() && s.advance_range(
            lo,
            hi,
            pid,
            req,
            c0,
        ).processors[pid].holds_replica() {
            s.d
        } else {
            0
        },
        !(lo <= pid < hi) ==> s.advance_range(lo, hi, pid, req, c0).processors[pid]
            == s.processors[pid],
    decreases hi - lo,
{
    if lo < hi {
        let s1 = s.advance_one(lo, pid, req, c0);
        lemma_pass_cost(s1, lo + 1, hi, pid, req, c0);
        if lo != pid {
            assert(s1.processors[pid] == s.processors[pid]);
        }
    }
}

/// The charge for a write: one less than the replica count when the writer
/// holds a replica, the replica count otherwise. Unless the writer acquires
/// a replica in that step, nothing else is added.
pub proof fn lemma_write_cost(s: AllocView, pid: int)
    requires
        s.wf(),
        0 <= pid < s.processors.len(),
        !(!s.processors[pid].holds_replica() && s.step(pid, Request::Write).processors[pid].holds_replica()),
    ensures
        s.step(pid, Request::Write).cost == s.cost + if s.processors[pid].holds_replica() {
            s.copies - 1
        } else {
            s.copies as int
        },
{
    let charged = AllocView { cost: s.cost + s.charge(pid, Request::Write), ..s };
    lemma_pass_cost(charged, 0, s.processors.len() as int, pid, Request::Write, s.copies);
}


/// A pass over processors that all leave the state as it is changes nothing.
pub proof fn lemma_inert_range(s: AllocView, lo: int, hi: int, pid: int, req: Request, c0: nat)
    requires
        lo <= hi,
        forall|i: int| lo <= i < hi ==> #[trigger] s.advance_one(i, pid, req, c0) == s,
    ensures
        s.advance_range(lo, hi, pid, req, c0) == s,
    decreases hi - lo,
{
    if lo < hi {
        lemma_inert_range(s, lo + 1, hi, pid, req, c0);
    }
}

/// A pass over `lo..hi` is the pass over `lo..mid` followed by the pass over `mid..hi`.
pub proof fn lemma_split_range(s: AllocView, lo: int, mid: int, hi: int, pid: int, req: Request, c0: nat)
    requires
        lo <= mid <= hi,
    ensures
        s.advance_range(lo, hi, pid, req, c0) == s.advance_range(lo, mid, pid, req, c0).advance_range(
            mid,
            hi,
            pid,
            req,
            c0,
        ),
    decreases mid - lo,
{
    if lo < mid {
        lemma_split_range(s.advance_one(lo, pid, req, c0), lo + 1, mid, hi, pid, req, c0);
    }
}

/// `k` reads, all by processor `q`.
pub open spec fn repeated_reads(q: usize, k: nat) -> Seq<Access> {
    Seq::new(k, |i: int| Access { pid: q, request: Request::Read })
}

/// The state after `j` reads by processor `q` from the initial state: `q`
/// counts its reads up to `d`, acquires a replica at the `d`-th, and the
/// initial holder gives its replica up at the next request.
pub open spec fn cold_read_state(n: nat, d: nat, q: int, j: nat) -> AllocView {
    let init = initial_processors(n);
    if j < d {
        AllocView {
            processors: init.update(q, Processor { count: j as usize, state: State::Increasing }),
            d,
            copies: 1,
            max_copies: 1,
            cost: j,
        }
    } else if j == d {
        AllocView {
            processors: init.update(q, Processor { count: d as usize, state: State::Decreasing }),
            d,
            copies: 2,
            max_copies: 2,
            cost: 2 * d,
        }
    } else {
        AllocView {
            processors: init.update(0, Processor { count: 0, state: State::Increasing }).update(
                q,
                Processor { count: d as usize, state: State::Decreasing },
            ),
            d,
            copies: 1,
            max_copies: 2,
            cost: 2 * d,
        }
    }
}

/// One more read by `q` moves the state from `j` reads to `j + 1`.
pub proof fn lemma_cold_read_step(n: nat, d: nat, q: usize, j: nat)
    requires
        1 <= q < n,
        1 <= d <= usize::MAX,
    ensures
        cold_read_state(n, d, q as int, j).step(q as int, Request::Read) == cold_read_state(
            n,
            d,
            q as int,
            j + 1,
        ),
{
    let s = cold_read_state(n, d, q as int, j);
    let t = cold_read_state(n, d, q as int, j + 1);
    let pid = q as int;
    let c0 = s.copies;
    let charged = AllocView { cost: s.cost + s.charge(pid, Request::Read), ..s };
    let len = n as int;
    if j < d {
        assert forall|i: int| 0 <= i < pid implies #[trigger] charged.advance_one(
            i,
            pid,
            Request::Read,
            c0,
        ) == charged by {}
        lemma_inert_range(charged, 0, pid, pid, Request::Read, c0);
        let a1 = charged.advance_one(pid, pid, Request::Read, c0);
        assert forall|i: int| pid + 1 <= i < len implies #[trigger] a1.advance_one(
            i,
            pid,
            Request::Read,
            c0,
        ) == a1 by {}
        lemma_inert_range(a1, pid + 1, len, pid, Request::Read, c0);
        lemma_split_range(charged, 0, pid, len, pid, Request::Read, c0);
        lemma_split_range(charged, pid, pid + 1, len, pid, Request::Read, c0);
        assert(a1.processors =~= t.processors);
    } else if j == d {
        let a1 = charged.advance_one(0, pid, Request::Read, c0);
        assert forall|i: int| 1 <= i < len implies #[trigger] a1.advance_one(
            i,
            pid,
            Request::Read,
            c0,
        ) == a1 by {}
        lemma_inert_range(a1, 1, len, pid, Request::Read, c0);
        lemma_split_range(charged, 0, 1, len, pid, Request::Read, c0);
        assert(a1.processors =~= t.processors);
    } else {
        assert forall|i: int| 0 <= i < len implies #[trigger] charged.advance_one(
            i,
            pid,
            Request::Read,
            c0,
        ) == charged by {}
        lemma_inert_range(charged, 0, len, pid, Request::Read, c0);
        assert(s.processors =~= t.processors);
    }
}

/// From the initial state, reads by one processor `q` that holds no replica
/// cost one each up to its `d`-th read, which also pays `d` for acquiring a
/// replica; later reads are free. The replica is acquired exactly once, so
/// after `k` reads the cost is `k` below the threshold and `2 * d` from it on,
/// and the peak replica count is two from the `d`-th read on.
pub proof fn lemma_cold_reads(n: nat, d: nat, q: usize, k: nat)
    requires
        1 <= q < n,
        1 <= d <= usize::MAX,
    ensures
        run(initial_view(n, d), repeated_reads(q, k)) == cold_read_state(n, d, q as int, k),
        run(initial_view(n, d), repeated_reads(q, k)).cost == if k < d {
            k
        } else {
            2 * d
        },
        run(initial_view(n, d), repeated_reads(q, k)).max_copies == if k < d {
            1nat
        } else {
            2nat
        },
    decreases k,
{
    if k == 0 {
        assert(cold_read_state(n, d, q as int, 0).processors =~= initial_processors(n));
    } else {
        lemma_cold_reads(n, d, q, (k - 1) as nat);
        assert(repeated_reads(q, k).drop_last() =~= repeated_reads(q, (k - 1) as nat));
        lemma_cold_read_step(n, d, q, (k - 1) as nat);
    }
}

} // verus!
