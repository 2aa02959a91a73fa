//! Migration of a single page over a network of 64 nodes, numbered from 1.
//!
//! Serving a request from a node costs `d` times the node's distance from
//! the node that holds the page. A migration rule decides where the page
//! goes next.
use vstd::prelude::*;
use crate::random::{draw_below, fresh_seed, seeded_draw};

verus! {

/// Number of one bits of `x`.
pub open spec fn ones(x: nat) -> nat
    decreases x,
{
    if x == 0 {
        0
    } else {
        ones(x / 2) + x % 2
    }
}

pub open spec fn two_pow(k: nat) -> nat
    decreases k,
{
    if k == 0 {
        1
    } else {
        2 * two_pow((k - 1) as nat)
    }
}

/// A number below `2^k` has at most `k` one bits.
pub proof fn lemma_ones_bound(x: nat, k: nat)
    requires
        x < two_pow(k),
    ensures
        ones(x) <= k,
    decreases k,
{
    if k > 0 && x > 0 {
        lemma_ones_bound(x / 2, (k - 1) as nat);
    }
}

/// Distance of positions `a` and `b` on a ring of four.
pub open spec fn ring_distance(a: nat, b: nat) -> nat {
    let diff = if a > b { a - b } else { b - a };
    if diff == 1 || diff == 3 {
        1
    } else if diff == 2 {
        2
    } else {
        0
    }
}

/// Sum of the ring distances of the lowest `k` base-4 digits of `x` and `y`.
pub open spec fn digit_distance(x: nat, y: nat, k: nat) -> nat
    decreases k,
{
    if k == 0 {
        0
    } else {
        ring_distance(x % 4, y % 4) + digit_distance(x / 4, y / 4, (k - 1) as nat)
    }
}

/// Distance of nodes `x` and `y` (counted from 0) on a 4 x 4 x 4 torus,
/// whose coordinates are the lowest three base-4 digits.
pub open spec fn torus_distance(x: nat, y: nat) -> nat {
    digit_distance(x, y, 3)
}

/// Number of one bits of `x`.
fn count_ones(x: u8) -> (r: u64)
    ensures
        r == ones(x as nat),
        r <= 8,
{
    proof {
        assert(two_pow(0) == 1);
        assert(two_pow(1) == 2);
        assert(two_pow(2) == 4);
        assert(two_pow(3) == 8);
        assert(two_pow(4) == 16);
        assert(two_pow(5) == 32);
        assert(two_pow(6) == 64);
        assert(two_pow(7) == 128);
        assert(two_pow(8) == 256);
        lemma_ones_bound(x as nat, 8);
    }
    let mut v: u8 = x;
    let mut c: u64 = 0;
    while v > 0
        invariant
            c + ones(v as nat) == ones(x as nat),
            ones(x as nat) <= 8,
        decreases v,
    {
        c = c + (v % 2) as u64;
        v = v / 2;
    }
    c
}

/// Distance of positions `a` and `b` on a ring of four.
fn ring_step(a: u8, b: u8) -> (r: u64)
    ensures
        r == ring_distance(a as nat, b as nat),
        r <= 2,
{
    let diff = if a > b {
        a - b
    } else {
        b - a
    };
    match diff {
        1 | 3 => 1,
        2 => 2,
        _ => 0,
    }
}

/// The shape of the network.
#[derive(Clone, Copy, Debug, PartialEq, Eq, Structural)]
pub enum PageStructure {
    /// A six-dimensional hypercube: nodes are neighbours when their numbers
    /// (from 0) differ in one bit.
    Hypercube,
    /// A 4 x 4 x 4 torus.
    Torus,
}

impl PageStructure {
    /// Distance of nodes `page1` and `page2`.
    pub open spec fn spec_distance(self, page1: u8, page2: u8) -> nat {
        match self {
            PageStructure::Hypercube => ones(((page1 - 1) as u8 ^ (page2 - 1) as u8) as nat),
            PageStructure::Torus => torus_distance((page1 - 1) as nat, (page2 - 1) as nat),
        }
    }

    pub fn name(&self) -> (r: &str)
        ensures
            r@ == match self {
                PageStructure::Hypercube => "hypercube"@,
                PageStructure::Torus => "torus"@,
            },
    {
        match self {
            PageStructure::Hypercube => "hypercube",
            PageStructure::Torus => "torus",
        }
    }

    pub fn distance(&self, page1: u8, page2: u8) -> (r: u64)
        requires
            page1 >= 1,
            page2 >= 1,
        ensures
            r == self.spec_distance(page1, page2),
            r <= 8,
    {
        match self {
            PageStructure::Hypercube => count_ones((page1 - 1) ^ (page2 - 1)),
            PageStructure::Torus => {
                let mut x: u8 = page1 - 1;
                let mut y: u8 = page2 - 1;
                let mut dist: u64 = 0;
                let mut k: u8 = 0;
                while k < 3
                    invariant
                        k <= 3,
                        dist <= 2 * k,
                        dist + digit_distance(x as nat, y as nat, (3 - k) as nat) == torus_distance(
                            (page1 - 1) as nat,
                            (page2 - 1) as nat,
                        ),
                    decreases 3 - k,
                {
                    dist = dist + ring_step(x % 4, y % 4);
                    x = x / 4;
                    y = y / 4;
                    k = k + 1;
                }
                dist
            },
        }
    }
}


/// Number of nodes in either network.
pub const NUM_OF_PAGES: u8 = 64;

/// Sum of the distances from the nodes of `requests` to `page`.
pub open spec fn total_distance(ps: PageStructure, requests: Seq<u8>, page: u8) -> nat
    decreases requests.len(),
{
    if requests.len() == 0 {
        0
    } else {
        total_distance(ps, requests.drop_last(), page) + ps.spec_distance(requests.last(), page)
    }
}

/// Every node of `requests` is numbered from 1.
pub open spec fn valid_requests(requests: Seq<u8>) -> bool {
    forall|i: int| 0 <= i < requests.len() ==> #[trigger] requests[i] >= 1
}

/// A sum of distances is at most eight per request.
pub proof fn lemma_total_lemma_distance_bound(ps: PageStructure, requests: Seq<u8>, page: u8)
    requires
        valid_requests(requests),
        page >= 1,
    ensures
        total_distance(ps, requests, page) <= 8 * requests.len(),
    decreases requests.len(),
{
    if requests.len() > 0 {
        let r = requests.drop_last();
        assert(valid_requests(r)) by {
            assert forall|i: int| 0 <= i < r.len() implies #[trigger] r[i] >= 1 by {
                assert(r[i] == requests[i]);
            }
        }
        lemma_total_lemma_distance_bound(ps, r, page);
        assert(requests[requests.len() - 1] >= 1);
        lemma_distance_bound(ps, requests.last(), page);
    }
}

/// No two nodes are further apart than eight.
pub proof fn lemma_distance_bound(ps: PageStructure, page1: u8, page2: u8)
    requires
        page1 >= 1,
        page2 >= 1,
    ensures
        ps.spec_distance(page1, page2) <= 8,
{
    assert(two_pow(0) == 1);
    assert(two_pow(1) == 2);
    assert(two_pow(2) == 4);
    assert(two_pow(3) == 8);
    assert(two_pow(4) == 16);
    assert(two_pow(5) == 32);
    assert(two_pow(6) == 64);
    assert(two_pow(7) == 128);
    assert(two_pow(8) == 256);
    lemma_ones_bound(((page1 - 1) as u8 ^ (page2 - 1) as u8) as nat, 8);
    let x = (page1 - 1) as nat;
    let y = (page2 - 1) as nat;
    assert(digit_distance(x / 4 / 4 / 4, y / 4 / 4 / 4, 0) == 0);
    assert(digit_distance(x / 4 / 4, y / 4 / 4, 1) <= 2);
    assert(digit_distance(x / 4, y / 4, 2) <= 4);
    assert(digit_distance(x, y, 3) <= 6);
}

/// The node among `1..=k` with the least sum of distances to `requests`;
/// on a tie, the lowest.
pub open spec fn best_page_upto(ps: PageStructure, requests: Seq<u8>, k: u8) -> u8
    decreases k,
{
    if k <= 1 {
        1
    } else {
        let b = best_page_upto(ps, requests, (k - 1) as u8);
        if total_distance(ps, requests, k) < total_distance(ps, requests, b) {
            k
        } else {
            b
        }
    }
}

/// Sum of the distances from the nodes of `requests` to `page`.
fn sum_distances(ps: &PageStructure, requests: &Vec<u8>, page: u8) -> (r: u64)
    requires
        valid_requests(requests@),
        page >= 1,
        8 * requests@.len() < u64::MAX,
    ensures
        r == total_distance(*ps, requests@, page),
{
    let mut acc: u64 = 0;
    let mut i: usize = 0;
    while i < requests.len()
        invariant
            valid_requests(requests@),
            page >= 1,
            8 * requests@.len() < u64::MAX,
            i <= requests@.len(),
            acc == total_distance(*ps, requests@.subrange(0, i as int), page),
            acc <= 8 * i,
        decreases requests@.len() - i,
    {
        assert(requests@[i as int] >= 1);
        let step = ps.distance(requests[i], page);
        acc = acc + step;
        i += 1;
        assert(requests@.subrange(0, i as int).drop_last() =~= requests@.subrange(0, i - 1));
    }
    assert(requests@.subrange(0, i as int) =~= requests@);
    acc
}

/// Collects `d` requests, then moves the page to the node with the least sum
/// of distances to them.
#[derive(Clone)]
pub struct MoveToMinMigration {
    d: u64,
    current_page: u8,
    requests: Vec<u8>,
}

/// The rule's state: its factor, where the page is, and the requests
/// collected since the last move.
pub struct MoveToMinView {
    pub d: nat,
    pub current_page: u8,
    pub requests: Seq<u8>,
}

impl View for MoveToMinMigration {
    type V = MoveToMinView;

    closed spec fn view(&self) -> MoveToMinView {
        MoveToMinView { d: self.d as nat, current_page: self.current_page, requests: self.requests@ }
    }
}

impl MoveToMinView {
    pub open spec fn wf(self) -> bool {
        &&& 1 <= self.current_page <= NUM_OF_PAGES
        &&& 8 * self.d < u64::MAX
        &&& valid_requests(self.requests)
        &&& self.d >= 1 ==> self.requests.len() < self.d
    }
}

impl MoveToMinMigration {
    /// A rule with factor `d`, the page at node 1. With `d = 0` requests
    /// are free and the page never moves.
    pub fn new(d: u64) -> (r: Self)
        requires
            8 * d < u64::MAX,
        ensures
            r@ == (MoveToMinView { d: d as nat, current_page: 1, requests: Seq::empty() }),
            r@.wf(),
    {
        MoveToMinMigration { d, current_page: 1, requests: Vec::with_capacity(d as usize) }
    }

    pub fn current_page(&self) -> (r: u8)
        ensures
            r == self@.current_page,
    {
        self.current_page
    }

    /// Serves a request from node `page`: returns `d` times its distance
    /// from the page, then records it; at the `d`-th recorded request the
    /// page moves to the best node for them and the record starts afresh.
    pub fn migrate(&mut self, page: u8, page_struct: &PageStructure) -> (r: u64)
        requires
            old(self)@.wf(),
            1 <= page <= NUM_OF_PAGES,
        ensures
            final(self)@.wf(),
            r == old(self)@.d * page_struct.spec_distance(old(self)@.current_page, page),
            final(self)@.d == old(self)@.d,
            old(self)@.requests.len() + 1 != old(self)@.d ==> final(self)@.current_page == old(
                self,
            )@.current_page && final(self)@.requests == old(self)@.requests.push(page),
            old(self)@.requests.len() + 1 == old(self)@.d ==> final(self)@.current_page
                == best_page_upto(*page_struct, old(self)@.requests.push(page), NUM_OF_PAGES)
                && final(self)@.requests == Seq::<u8>::empty(),
    {
        let dist = page_struct.distance(self.current_page, page);
        assert(self.d * dist <= self.d * 8) by (nonlinear_arith)
            requires
                dist <= 8,
        ;
        let cost = self.d * dist;
        self.requests.push(page);
        assert(valid_requests(self.requests@)) by {
            assert forall|i: int| 0 <= i < self.requests@.len() implies #[trigger] self.requests@[i]
                >= 1 by {
                if i < self.requests@.len() - 1 {
                    assert(self.requests@[i] == old(self).requests@[i]);
                }
            }
        }
        if self.requests.len() as u64 == self.d {
            let mut min_cost: u64 = u64::MAX;
            let mut min_page: u8 = 0;
            let mut candidate: u8 = 1;
            while candidate <= NUM_OF_PAGES
                invariant
                    1 <= candidate <= NUM_OF_PAGES + 1,
                    valid_requests(self.requests@),
                    8 * self.requests@.len() < u64::MAX,
                    candidate == 1 ==> min_cost == u64::MAX,
                    candidate > 1 ==> min_page == best_page_upto(
                        *page_struct,
                        self.requests@,
                        (candidate - 1) as u8,
                    ) && min_cost == total_distance(*page_struct, self.requests@, min_page),
                    candidate > 1 ==> 1 <= min_page < candidate,
                decreases NUM_OF_PAGES + 1 - candidate,
            {
                let cost = sum_distances(page_struct, &self.requests, candidate);
                proof {
                    lemma_total_lemma_distance_bound(*page_struct, self.requests@, candidate);
                }
                if cost < min_cost {
                    min_cost = cost;
                    min_page = candidate;
                }
                candidate = candidate + 1;
            }
            self.current_page = min_page;
            self.requests.clear();
        }
        cost
    }
}

/// Moves the page to the requesting node with probability `1 / (2 * d)`.
#[derive(Clone)]
pub struct RandomFlipMigration {
    d: u64,
    generator: u64,
    current_page: u8,
}

/// The rule's state: its factor, its generator's state and where the page is.
pub struct RandomFlipView {
    pub d: nat,
    pub generator: u64,
    pub current_page: u8,
}

impl View for RandomFlipMigration {
    type V = RandomFlipView;

    closed spec fn view(&self) -> RandomFlipView {
        RandomFlipView { d: self.d as nat, generator: self.generator, current_page: self.current_page }
    }
}

impl RandomFlipView {
    pub open spec fn wf(self) -> bool {
        &&& 1 <= self.current_page <= NUM_OF_PAGES
        &&& 1 <= self.d
        &&& 8 * self.d < u64::MAX
    }
}

impl RandomFlipMigration {
    /// A rule with factor `d`, the page at node 1, and a freshly seeded generator.
    pub fn new(d: u64) -> (r: Self)
        requires
            1 <= d,
            8 * d < u64::MAX,
        ensures
            r@.d == d,
            r@.current_page == 1,
            r@.wf(),
    {
        Self::with_seed(d, fresh_seed())
    }

    /// A rule with factor `d`, the page at node 1, and a generator seeded with `seed`.
    pub fn with_seed(d: u64, seed: u64) -> (r: Self)
        requires
            1 <= d,
            8 * d < u64::MAX,
        ensures
            r@ == (RandomFlipView { d: d as nat, generator: seed, current_page: 1 }),
            r@.wf(),
    {
        RandomFlipMigration { d, generator: seed, current_page: 1 }
    }

    pub fn current_page(&self) -> (r: u8)
        ensures
            r == self@.current_page,
    {
        self.current_page
    }

    /// Serves a request from node `page`: returns `d` times its distance
    /// from the page, then moves the page there when the generator draws
    /// 0 below `2 * d`.
    pub fn migrate(&mut self, page: u8, page_struct: &PageStructure) -> (r: u64)
        requires
            old(self)@.wf(),
            1 <= page <= NUM_OF_PAGES,
        ensures
            final(self)@.wf(),
            r == old(self)@.d * page_struct.spec_distance(old(self)@.current_page, page),
            final(self)@.d == old(self)@.d,
            final(self)@.generator == seeded_draw(old(self)@.generator, (2 * old(self)@.d) as u64).1,
            final(self)@.current_page == if seeded_draw(
                old(self)@.generator,
                (2 * old(self)@.d) as u64,
            ).0 == 0 {
                page
            } else {
                old(self)@.current_page
            },
    {
        let dist = page_struct.distance(self.current_page, page);
        assert(self.d * dist <= self.d * 8) by (nonlinear_arith)
            requires
                dist <= 8,
        ;
        let cost = self.d * dist;
        let (drawn, next) = draw_below(self.generator, 2 * self.d);
        self.generator = next;
        if drawn == 0 {
            self.current_page = page;
        }
        cost
    }
}

/// A migration rule of either kind.
#[derive(Clone)]
pub enum Migration {
    RandomFlip(RandomFlipMigration),
    MoveToMin(MoveToMinMigration),
}

impl Migration {
    pub open spec fn wf(&self) -> bool {
        match self {
            Migration::RandomFlip(x) => x@.wf(),
            Migration::MoveToMin(x) => x@.wf(),
        }
    }

    /// `after` and `r` are the state and cost after this rule serves a
    /// request from node `page` on network `ps`.
    pub open spec fn serves(&self, after: Migration, page: u8, ps: PageStructure, r: u64) -> bool {
        match (*self, after) {
            (Migration::RandomFlip(a), Migration::RandomFlip(b)) => {
                let (drawn, next) = seeded_draw(a@.generator, (2 * a@.d) as u64);
                &&& r == a@.d * ps.spec_distance(a@.current_page, page)
                &&& b@.d == a@.d
                &&& b@.generator == next
                &&& b@.current_page == if drawn == 0 { page } else { a@.current_page }
            },
            (Migration::MoveToMin(a), Migration::MoveToMin(b)) => {
                &&& r == a@.d * ps.spec_distance(a@.current_page, page)
                &&& b@.d == a@.d
                &&& a@.requests.len() + 1 != a@.d ==> b@.current_page == a@.current_page
                    && b@.requests == a@.requests.push(page)
                &&& a@.requests.len() + 1 == a@.d ==> b@.current_page == best_page_upto(
                    ps,
                    a@.requests.push(page),
                    NUM_OF_PAGES,
                ) && b@.requests == Seq::<u8>::empty()
            },
            _ => false,
        }
    }

    pub fn name(&self) -> (r: &str)
        ensures
            r@ == match self {
                Migration::RandomFlip(_) => "random_flip"@,
                Migration::MoveToMin(_) => "move_to_min"@,
            },
    {
        match self {
            Migration::RandomFlip(_) => "random_flip",
            Migration::MoveToMin(_) => "move_to_min",
        }
    }

    /// Serves a request from node `page` by the rule's kind.
    pub fn migrate(&mut self, page: u8, page_struct: &PageStructure) -> (r: u64)
        requires
            old(self).wf(),
            1 <= page <= NUM_OF_PAGES,
        ensures
            final(self).wf(),
            old(self).serves(*final(self), page, *page_struct, r),
    {
        match self {
            Migration::RandomFlip(x) => x.migrate(page, page_struct),
            Migration::MoveToMin(x) => x.migrate(page, page_struct),
        }
    }
}


/// A migration rule serving requests on one network.
pub struct PageMigration<'a> {
    page_struct: &'a PageStructure,
    migration: &'a mut Migration,
}

impl<'a> PageMigration<'a> {
    pub closed spec fn structure(&self) -> PageStructure {
        *self.page_struct
    }

    pub closed spec fn rule(&self) -> Migration {
        *self.migration
    }

    pub fn new(page_struct: &'a PageStructure, migration: &'a mut Migration) -> (r: Self)
        ensures
            r.structure() == *page_struct,
            r.rule() == *old(migration),
    {
        PageMigration { page_struct, migration }
    }

    /// Serves a request from node `page` by the rule, on the network.
    pub fn migrate(&mut self, page: u8) -> (r: u64)
        requires
            old(self).rule().wf(),
            1 <= page <= NUM_OF_PAGES,
        ensures
            final(self).rule().wf(),
            final(self).structure() == old(self).structure(),
            old(self).rule().serves(final(self).rule(), page, old(self).structure(), r),
    {
        self.migration.migrate(page, self.page_struct)
    }
}

} // verus!
