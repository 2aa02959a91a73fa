//! Paging caches of `k` pages under six eviction rules.
//!
//! A request for a cached page is a hit and costs nothing; any other request
//! is a fault, costs one, and brings the page in, evicting one page first
//! where the rule asks for it. The cached pages are kept in order of arrival,
//! each once.
use vstd::prelude::*;
use crate::access::{first_index, lemma_first_index_contains, position};

verus! {

#[verifier::external_type_specification]
#[verifier::external_body]
pub struct ExThreadRng(rand::rngs::ThreadRng);

/// Relies on rand's `Rng::gen_range` over `0..bound`: a value below `bound`.
/// It panics on an empty range, hence `bound >= 1`.
#[verifier::external_body]
fn random_below(rng: &mut rand::rngs::ThreadRng, bound: usize) -> (r: usize)
    requires
        bound >= 1,
    ensures
        r < bound,
{
    rand::Rng::gen_range(rng, 0..bound)
}

/// The eviction rule of a cache.
#[derive(Clone, Copy, Debug, PartialEq, Eq, Structural)]
pub enum CacheType {
    /// First in, first out.
    Fifo,
    /// Flush when full: a fault on a full cache empties it.
    Fwf,
    /// Evicts the least recently used page.
    Lru,
    /// Evicts the least frequently used page.
    Lfu,
    /// Evicts a page chosen at random.
    Rand,
    /// Random marking: evicts an unmarked page chosen at random, and unmarks
    /// all pages first where all are marked.
    Rma,
}

impl CacheType {
    pub fn name(&self) -> (r: &str)
        ensures
            r@ == match self {
                CacheType::Fifo => "FIFO"@,
                CacheType::Fwf => "FWF"@,
                CacheType::Lru => "LRU"@,
                CacheType::Lfu => "LFU"@,
                CacheType::Rand => "RAND"@,
                CacheType::Rma => "RMA"@,
            },
    {
        match self {
            CacheType::Fifo => "FIFO",
            CacheType::Fwf => "FWF",
            CacheType::Lru => "LRU",
            CacheType::Lfu => "LFU",
            CacheType::Rand => "RAND",
            CacheType::Rma => "RMA",
        }
    }

    /// Whether the rule keeps a value for each page number.
    pub open spec fn per_page(self) -> bool {
        self is Lru || self is Lfu || self is Rma
    }
}

/// Position in `pages` of the first page whose value in `keys` is least.
pub open spec fn min_index(pages: Seq<usize>, keys: Seq<usize>) -> int
    decreases pages.len(),
{
    if pages.len() <= 1 {
        0
    } else {
        let m = min_index(pages.drop_last(), keys);
        if keys[pages.last() as int] < keys[pages[m] as int] {
            pages.len() - 1
        } else {
            m
        }
    }
}

/// `keys` with the value of every page of `pages` set to 0.
pub open spec fn unmark_all(keys: Seq<usize>, pages: Seq<usize>) -> Seq<usize> {
    Seq::new(
        keys.len(),
        |j: int|
            if exists|m: int| 0 <= m < pages.len() && pages[m] == j {
                0usize
            } else {
                keys[j]
            },
    )
}

/// The whole cache, as mathematical values: the capacity, the rule, the
/// cached pages in order of arrival, the FIFO slot to overwrite next, the
/// LRU clock, and the rule's values (FIFO: the pages in their slots; LRU: the
/// time of each page's last use; LFU: each page's use count; RMA: each page's
/// mark).
pub struct CacheView {
    pub k: nat,
    pub cache_type: CacheType,
    pub pages: Seq<usize>,
    pub fifo_pointer: nat,
    pub lru_counter: nat,
    pub add_arr: Seq<usize>,
}

impl CacheView {
    pub open spec fn wf(self) -> bool {
        &&& self.k >= 1
        &&& self.pages.no_duplicates()
        &&& self.cache_type is Fifo ==> self.add_arr.len() == self.k && self.fifo_pointer < self.k
        &&& !(self.cache_type is Fifo) ==> self.pages.len() <= self.k
        &&& self.cache_type.per_page() ==> forall|i: int|
            0 <= i < self.pages.len() ==> #[trigger] self.pages[i] < self.add_arr.len()
        &&& self.cache_type is Rma ==> forall|j: int|
            0 <= j < self.add_arr.len() ==> #[trigger] self.add_arr[j] <= 1
    }

    /// A request for `page` can be served: a rule that keeps a value per
    /// page has room for it, and its clock or count can advance.
    pub open spec fn can_serve(self, page: usize) -> bool {
        &&& self.cache_type.per_page() ==> page < self.add_arr.len()
        &&& self.cache_type is Lru ==> self.lru_counter < usize::MAX
        &&& self.cache_type is Lfu ==> self.add_arr[page as int] < usize::MAX
    }

    /// The state after a hit on `page`.
    pub open spec fn hit(self, page: usize) -> CacheView {
        match self.cache_type {
            CacheType::Lru => CacheView {
                lru_counter: self.lru_counter + 1,
                add_arr: self.add_arr.update(page as int, (self.lru_counter + 1) as usize),
                ..self
            },
            CacheType::Lfu => CacheView {
                add_arr: self.add_arr.update(page as int, (self.add_arr[page as int] + 1) as usize),
                ..self
            },
            CacheType::Rma => CacheView { add_arr: self.add_arr.update(page as int, 1), ..self },
            _ => self,
        }
    }

    /// The cached pages after `page` comes in, evicting the one at `i` where
    /// the cache is full.
    pub open spec fn evict_at(self, i: int, page: usize) -> Seq<usize> {
        if self.pages.len() == self.k {
            self.pages.remove(i).push(page)
        } else {
            self.pages.push(page)
        }
    }

    /// A FIFO fault: the page in the current slot leaves, `page` takes the
    /// slot, and the next slot becomes current.
    pub open spec fn fifo_miss(self, page: usize) -> CacheView {
        let victim = self.add_arr[self.fifo_pointer as int];
        let i = first_index(self.pages, victim);
        let kept = if i >= 0 { self.pages.remove(i) } else { self.pages };
        CacheView {
            pages: kept.push(page),
            add_arr: self.add_arr.update(self.fifo_pointer as int, page),
            fifo_pointer: (self.fifo_pointer + 1) % self.k,
            ..self
        }
    }

    /// A flush-when-full fault: a full cache is emptied before `page` comes in.
    pub open spec fn fwf_miss(self, page: usize) -> CacheView {
        CacheView {
            pages: if self.pages.len() == self.k { seq![page] } else { self.pages.push(page) },
            ..self
        }
    }

    /// An LRU fault: `page` is stamped with the next time, and a full cache
    /// evicts the page used least recently.
    pub open spec fn lru_miss(self, page: usize) -> CacheView {
        let stamps = self.add_arr.update(page as int, (self.lru_counter + 1) as usize);
        CacheView {
            pages: self.evict_at(min_index(self.pages, stamps), page),
            lru_counter: self.lru_counter + 1,
            add_arr: stamps,
            ..self
        }
    }

    /// An LFU fault: `page` counts one more use, and a full cache evicts the
    /// page used least often, the earliest arrival among equals.
    pub open spec fn lfu_miss(self, page: usize) -> CacheView {
        let counts = self.add_arr.update(page as int, (self.add_arr[page as int] + 1) as usize);
        CacheView { pages: self.evict_at(min_index(self.pages, counts), page), add_arr: counts, ..self }
    }

    /// A random fault: a full cache evicts some page.
    pub open spec fn rand_miss(self, page: usize, after: CacheView) -> bool {
        if self.pages.len() == self.k {
            exists|i: int|
                0 <= i < self.pages.len() && after == CacheView {
                    pages: self.evict_at(i, page),
                    ..self
                }
        } else {
            after == CacheView { pages: self.pages.push(page), ..self }
        }
    }

    /// A random-marking fault: a full cache whose pages are all marked
    /// unmarks them, then evicts some unmarked page.
    pub open spec fn rma_miss(self, page: usize, after: CacheView) -> bool {
        if self.pages.len() == self.k {
            let marks = if forall|i: int|
                0 <= i < self.pages.len() ==> self.add_arr[#[trigger] self.pages[i] as int] == 1 {
                unmark_all(self.add_arr, self.pages)
            } else {
                self.add_arr
            };
            exists|i: int|
                0 <= i < self.pages.len() && marks[self.pages[i] as int] == 0 && after == CacheView {
                    pages: self.evict_at(i, page),
                    add_arr: marks,
                    ..self
                }
        } else {
            after == CacheView { pages: self.pages.push(page), ..self }
        }
    }

    /// `after` and `r` are a state and a cost that serving `page` can give.
    pub open spec fn served(self, page: usize, after: CacheView, r: usize) -> bool {
        if self.pages.contains(page) {
            r == 0 && after == self.hit(page)
        } else {
            r == 1 && match self.cache_type {
                CacheType::Fifo => after == self.fifo_miss(page),
                CacheType::Fwf => after == self.fwf_miss(page),
                CacheType::Lru => after == self.lru_miss(page),
                CacheType::Lfu => after == self.lfu_miss(page),
                CacheType::Rand => self.rand_miss(page, after),
                CacheType::Rma => self.rma_miss(page, after),
            }
        }
    }
}

/// Removing a page and adding a new one keeps the pages distinct, and adds
/// no other page.
pub proof fn lemma_evict_insert(pages: Seq<usize>, i: int, page: usize)
    requires
        pages.no_duplicates(),
        0 <= i < pages.len(),
        !pages.contains(page),
    ensures
        pages.remove(i).push(page).no_duplicates(),
        forall|j: int|
            0 <= j < pages.len() ==> #[trigger] pages.remove(i).push(page)[j] == page || pages.contains(
                pages.remove(i).push(page)[j],
            ),
{
    let r = pages.remove(i);
    let t = r.push(page);
    assert forall|a: int, b: int| 0 <= a < b < t.len() implies t[a] != t[b] by {
        if b == t.len() - 1 {
            if a < i {
                assert(t[a] == pages[a]);
            } else {
                assert(t[a] == pages[a + 1]);
            }
        } else {
            let pa = if a < i { a } else { a + 1 };
            let pb = if b < i { b } else { b + 1 };
            assert(t[a] == pages[pa]);
            assert(t[b] == pages[pb]);
        }
    }
    assert forall|j: int| 0 <= j < pages.len() implies #[trigger] t[j] == page || pages.contains(t[j]) by {
        if j < t.len() - 1 {
            let pj = if j < i { j } else { j + 1 };
            assert(t[j] == pages[pj]);
        }
    }
}

/// Adding a new page keeps the pages distinct.
pub proof fn lemma_insert(pages: Seq<usize>, page: usize)
    requires
        pages.no_duplicates(),
        !pages.contains(page),
    ensures
        pages.push(page).no_duplicates(),
{
    let t = pages.push(page);
    assert forall|a: int, b: int| 0 <= a < b < t.len() implies t[a] != t[b] by {
        if b == t.len() - 1 {
            assert(t[a] == pages[a]);
        }
    }
}


/// Position in `pages` of the first page whose value in `keys` is least.
fn least_index(pages: &Vec<usize>, keys: &Vec<usize>) -> (r: usize)
    requires
        pages@.len() >= 1,
        forall|i: int| 0 <= i < pages@.len() ==> #[trigger] pages@[i] < keys@.len(),
    ensures
        r == min_index(pages@, keys@),
        r < pages@.len(),
{
    let mut best: usize = 0;
    let mut i: usize = 1;
    while i < pages.len()
        invariant
            1 <= i <= pages@.len(),
            forall|j: int| 0 <= j < pages@.len() ==> #[trigger] pages@[j] < keys@.len(),
            best < i,
            best == min_index(pages@.subrange(0, i as int), keys@),
        decreases pages@.len() - i,
    {
        let ghost prefix = pages@.subrange(0, i as int + 1);
        assert(prefix.drop_last() =~= pages@.subrange(0, i as int));
        assert(prefix[best as int] == pages@[best as int]);
        if keys[pages[i]] < keys[pages[best]] {
            best = i;
        }
        i += 1;
    }
    assert(pages@.subrange(0, i as int) =~= pages@);
    best
}

/// Number of pages of `pages` whose value in `marks` is 0.
pub open spec fn count_unmarked(pages: Seq<usize>, marks: Seq<usize>) -> nat
    decreases pages.len(),
{
    if pages.len() == 0 {
        0
    } else {
        count_unmarked(pages.drop_last(), marks) + if marks[pages.last() as int] == 0 {
            1nat
        } else {
            0nat
        }
    }
}

/// Where one page is unmarked, some page is counted.
pub proof fn lemma_unmarked_positive(pages: Seq<usize>, marks: Seq<usize>, i: int)
    requires
        0 <= i < pages.len(),
        marks[pages[i] as int] == 0,
    ensures
        count_unmarked(pages, marks) >= 1,
    decreases pages.len(),
{
    if i < pages.len() - 1 {
        assert(pages.drop_last()[i] == pages[i]);
        lemma_unmarked_positive(pages.drop_last(), marks, i);
    }
}

/// Whether every page of `pages` is marked.
fn all_marked(pages: &Vec<usize>, marks: &Vec<usize>) -> (r: bool)
    requires
        forall|i: int| 0 <= i < pages@.len() ==> #[trigger] pages@[i] < marks@.len(),
    ensures
        r == forall|i: int| 0 <= i < pages@.len() ==> marks@[#[trigger] pages@[i] as int] == 1,
{
    let mut i: usize = 0;
    while i < pages.len()
        invariant
            i <= pages@.len(),
            forall|j: int| 0 <= j < pages@.len() ==> #[trigger] pages@[j] < marks@.len(),
            forall|j: int| 0 <= j < i ==> marks@[#[trigger] pages@[j] as int] == 1,
        decreases pages@.len() - i,
    {
        if marks[pages[i]] != 1 {
            return false;
        }
        i += 1;
    }
    true
}

/// Number of pages of `pages` that are unmarked.
fn unmarked_count(pages: &Vec<usize>, marks: &Vec<usize>) -> (r: usize)
    requires
        forall|i: int| 0 <= i < pages@.len() ==> #[trigger] pages@[i] < marks@.len(),
    ensures
        r == count_unmarked(pages@, marks@),
{
    let mut count: usize = 0;
    let mut i: usize = 0;
    while i < pages.len()
        invariant
            i <= pages@.len(),
            count <= i,
            forall|j: int| 0 <= j < pages@.len() ==> #[trigger] pages@[j] < marks@.len(),
            count == count_unmarked(pages@.subrange(0, i as int), marks@),
        decreases pages@.len() - i,
    {
        assert(pages@.subrange(0, i as int + 1).drop_last() =~= pages@.subrange(0, i as int));
        if marks[pages[i]] == 0 {
            count += 1;
        }
        i += 1;
    }
    assert(pages@.subrange(0, i as int) =~= pages@);
    count
}

/// Position in `pages` of the unmarked page that has `target` unmarked pages before it.
fn nth_unmarked(pages: &Vec<usize>, marks: &Vec<usize>, target: usize) -> (r: usize)
    requires
        forall|i: int| 0 <= i < pages@.len() ==> #[trigger] pages@[i] < marks@.len(),
        target < count_unmarked(pages@, marks@),
    ensures
        r < pages@.len(),
        marks@[pages@[r as int] as int] == 0,
{
    let mut seen: usize = 0;
    let mut i: usize = 0;
    while i < pages.len()
        invariant
            i <= pages@.len(),
            seen <= target,
            target < count_unmarked(pages@, marks@),
            forall|j: int| 0 <= j < pages@.len() ==> #[trigger] pages@[j] < marks@.len(),
            seen == count_unmarked(pages@.subrange(0, i as int), marks@),
        decreases pages@.len() - i,
    {
        assert(pages@.subrange(0, i as int + 1).drop_last() =~= pages@.subrange(0, i as int));
        if marks[pages[i]] == 0 {
            if seen == target {
                return i;
            }
            seen += 1;
        }
        i += 1;
    }
    assert(pages@.subrange(0, i as int) =~= pages@);
    assert(false);
    0
}

/// A paging cache.
pub struct Cache {
    k: usize,
    cache_type: CacheType,
    set_cache: Vec<usize>,
    fifo_pointer: usize,
    lru_counter: usize,
    add_arr: Vec<usize>,
}

impl View for Cache {
    type V = CacheView;

    closed spec fn view(&self) -> CacheView {
        CacheView {
            k: self.k as nat,
            cache_type: self.cache_type,
            pages: self.set_cache@,
            fifo_pointer: self.fifo_pointer as nat,
            lru_counter: self.lru_counter as nat,
            add_arr: self.add_arr@,
        }
    }
}

impl Cache {
    /// An empty cache of `k` pages under rule `cache_type`, for pages
    /// numbered up to `n`.
    pub fn new(n: usize, k: usize, cache_type: CacheType) -> (r: Self)
        requires
            k >= 1,
            cache_type.per_page() ==> n < usize::MAX,
        ensures
            r@.wf(),
            r@.k == k,
            r@.cache_type == cache_type,
            r@.pages == Seq::<usize>::empty(),
            r@.fifo_pointer == 0,
            r@.lru_counter == 0,
            r@.add_arr == match cache_type {
                CacheType::Fifo => Seq::new(k as nat, |i: int| 0usize),
                CacheType::Lru | CacheType::Lfu | CacheType::Rma => Seq::new(
                    (n + 1) as nat,
                    |i: int| 0usize,
                ),
                _ => Seq::<usize>::empty(),
            },
    {
        let add_arr: Vec<usize> = match cache_type {
            CacheType::Fifo => vec![0; k],
            CacheType::Lru | CacheType::Lfu | CacheType::Rma => vec![0; n + 1],
            _ => vec![0; 0],
        };
        let r = Cache {
            k,
            cache_type,
            set_cache: Vec::new(),
            fifo_pointer: 0,
            add_arr,
            lru_counter: 0,
        };
        assert(r@.add_arr =~= match cache_type {
            CacheType::Fifo => Seq::new(k as nat, |i: int| 0usize),
            CacheType::Lru | CacheType::Lfu | CacheType::Rma => Seq::new((n + 1) as nat, |i: int| 0usize),
            _ => Seq::<usize>::empty(),
        });
        r
    }

    fn fifo_add(&mut self, page: usize)
        requires
            old(self)@.wf(),
            old(self)@.cache_type is Fifo,
            !old(self)@.pages.contains(page),
        ensures
            final(self)@ == old(self)@.fifo_miss(page),
            final(self)@.wf(),
    {
        let to_remove = self.add_arr[self.fifo_pointer];
        match position(&self.set_cache, to_remove) {
            Some(i) => {
                proof {
                    lemma_evict_insert(self.set_cache@, i as int, page);
                }
                self.set_cache.remove(i);
            },
            None => {
                proof {
                    lemma_insert(self.set_cache@, page);
                }
            },
        }
        self.add_arr.set(self.fifo_pointer, page);
        self.set_cache.push(page);
        self.fifo_pointer = (self.fifo_pointer + 1) % self.k;
    }

    fn fwf_add(&mut self, page: usize)
        requires
            old(self)@.wf(),
            old(self)@.cache_type is Fwf,
            !old(self)@.pages.contains(page),
        ensures
            final(self)@ == old(self)@.fwf_miss(page),
            final(self)@.wf(),
    {
        if self.set_cache.len() == self.k {
            self.set_cache.clear();
        }
        proof {
            lemma_insert(self.set_cache@, page);
        }
        self.set_cache.push(page);
        assert(old(self)@.pages.len() == old(self)@.k ==> self.set_cache@ =~= seq![page]);
    }

    fn lru_update(&mut self, page: usize)
        requires
            old(self)@.cache_type is Lru,
            page < old(self)@.add_arr.len(),
            old(self)@.lru_counter < usize::MAX,
        ensures
            final(self)@ == (CacheView {
                lru_counter: old(self)@.lru_counter + 1,
                add_arr: old(self)@.add_arr.update(page as int, (old(self)@.lru_counter + 1) as usize),
                ..old(self)@
            }),
    {
        self.lru_counter += 1;
        self.add_arr.set(page, self.lru_counter);
    }

    fn lfu_update(&mut self, page: usize)
        requires
            old(self)@.cache_type is Lfu,
            page < old(self)@.add_arr.len(),
            old(self)@.add_arr[page as int] < usize::MAX,
        ensures
            final(self)@ == (CacheView {
                add_arr: old(self)@.add_arr.update(page as int, (old(self)@.add_arr[page as int] + 1) as usize),
                ..old(self)@
            }),
    {
        let count = self.add_arr[page] + 1;
        self.add_arr.set(page, count);
    }

    fn rma_update(&mut self, page: usize)
        requires
            old(self)@.cache_type is Rma,
            page < old(self)@.add_arr.len(),
        ensures
            final(self)@ == (CacheView { add_arr: old(self)@.add_arr.update(page as int, 1), ..old(self)@ }),
    {
        self.add_arr.set(page, 1);
    }

    /// Brings `page` in, evicting the page with the least value where the
    /// cache is full (the LRU and LFU rules).
    fn evict_least_and_add(&mut self, page: usize)
        requires
            old(self)@.wf(),
            old(self)@.cache_type.per_page(),
            !(old(self)@.cache_type is Rma),
            !old(self)@.pages.contains(page),
            page < old(self)@.add_arr.len(),
        ensures
            final(self)@ == (CacheView {
                pages: old(self)@.evict_at(min_index(old(self)@.pages, old(self)@.add_arr), page),
                ..old(self)@
            }),
            final(self)@.wf(),
    {
        if self.set_cache.len() == self.k {
            let i = least_index(&self.set_cache, &self.add_arr);
            proof {
                lemma_evict_insert(self.set_cache@, i as int, page);
            }
            self.set_cache.remove(i);
        } else {
            proof {
                lemma_insert(self.set_cache@, page);
            }
        }
        self.set_cache.push(page);
    }

    fn rand_add(&mut self, page: usize, rand: &mut rand::rngs::ThreadRng)
        requires
            old(self)@.wf(),
            old(self)@.cache_type is Rand,
            !old(self)@.pages.contains(page),
        ensures
            old(self)@.rand_miss(page, final(self)@),
            final(self)@.wf(),
    {
        let ghost before = self@;
        if self.set_cache.len() == self.k {
            let rand_idx = random_below(rand, self.k);
            proof {
                lemma_evict_insert(self.set_cache@, rand_idx as int, page);
            }
            self.set_cache.remove(rand_idx);
            self.set_cache.push(page);
            assert(self@ == (CacheView { pages: before.evict_at(rand_idx as int, page), ..before }));
        } else {
            proof {
                lemma_insert(self.set_cache@, page);
            }
            self.set_cache.push(page);
        }
    }

    fn rma_add(&mut self, page: usize, rand: &mut rand::rngs::ThreadRng)
        requires
            old(self)@.wf(),
            old(self)@.cache_type is Rma,
            old(self)@.can_serve(page),
            !old(self)@.pages.contains(page),
        ensures
            old(self)@.rma_miss(page, final(self)@),
            final(self)@.wf(),
    {
        let ghost before = self@;
        if self.set_cache.len() == self.k {
            let all = all_marked(&self.set_cache, &self.add_arr);
            if all {
                let mut i: usize = 0;
                while i < self.set_cache.len()
                    invariant
                        self@ == (CacheView { add_arr: self@.add_arr, ..before }),
                        i <= before.pages.len(),
                        self.add_arr@.len() == before.add_arr.len(),
                        forall|j: int| 0 <= j < before.pages.len() ==> #[trigger] before.pages[j] < before.add_arr.len(),
                        forall|j: int|
                            0 <= j < before.add_arr.len() ==> #[trigger] self.add_arr@[j] == if exists|m: int|
                                0 <= m < i && before.pages[m] == j {
                                0
                            } else {
                                before.add_arr[j]
                            },
                    decreases before.pages.len() - i,
                {
                    let p = self.set_cache[i];
                    self.add_arr.set(p, 0);
                    i += 1;
                    assert forall|j: int| 0 <= j < before.add_arr.len() implies #[trigger] self.add_arr@[j] == if exists|m: int|
                        0 <= m < i && before.pages[m] == j {
                        0
                    } else {
                        before.add_arr[j]
                    } by {
                        if j == p as int {
                            assert(before.pages[i - 1] == j);
                        }
                    }
                }
                assert(self.add_arr@ =~= unmark_all(before.add_arr, before.pages));
                assert(before.pages[0] < before.add_arr.len());
                assert(unmark_all(before.add_arr, before.pages)[before.pages[0] as int] == 0);
                proof {
                    lemma_unmarked_positive(before.pages, self.add_arr@, 0);
                }
            } else {
                let ghost i = choose|i: int| 0 <= i < before.pages.len() && before.add_arr[before.pages[i] as int] != 1;
                assert(before.add_arr[before.pages[i] as int] <= 1);
                proof {
                    lemma_unmarked_positive(before.pages, before.add_arr, i);
                }
            }
            let ghost marks = self.add_arr@;
            let unmarked = unmarked_count(&self.set_cache, &self.add_arr);
            let rand_idx = random_below(rand, unmarked);
            let victim = nth_unmarked(&self.set_cache, &self.add_arr, rand_idx);
            proof {
                lemma_evict_insert(self.set_cache@, victim as int, page);
            }
            self.set_cache.remove(victim);
            self.set_cache.push(page);
            assert(self@ == (CacheView { pages: before.evict_at(victim as int, page), add_arr: marks, ..before }));
        } else {
            proof {
                lemma_insert(self.set_cache@, page);
            }
            self.set_cache.push(page);
        }
    }

    /// Number of pages cached.
    pub fn cached_count(&self) -> (r: usize)
        ensures
            r == self@.pages.len(),
    {
        self.set_cache.len()
    }

    /// Whether `page` is cached.
    pub fn is_cached(&self, page: usize) -> (r: bool)
        ensures
            r == self@.pages.contains(page),
    {
        proof {
            lemma_first_index_contains(self.set_cache@, page);
        }
        position(&self.set_cache, page).is_some()
    }

    /// Serves a request for `page`: returns 1 where the page was not cached
    /// (a fault, after which it is), 0 otherwise.
    pub fn get_page(&mut self, page: usize, rand: &mut rand::rngs::ThreadRng) -> (r: usize)
        requires
            old(self)@.wf(),
            old(self)@.can_serve(page),
        ensures
            final(self)@.wf(),
            old(self)@.served(page, final(self)@, r),
    {
        proof {
            lemma_first_index_contains(self.set_cache@, page);
        }
        if position(&self.set_cache, page).is_some() {
            match self.cache_type {
                CacheType::Lru => self.lru_update(page),
                CacheType::Lfu => self.lfu_update(page),
                CacheType::Rma => self.rma_update(page),
                _ => (),
            }
            0
        } else {
            match self.cache_type {
                CacheType::Fifo => self.fifo_add(page),
                CacheType::Fwf => self.fwf_add(page),
                CacheType::Rand => self.rand_add(page, rand),
                CacheType::Lru => self.lru_add(page),
                CacheType::Lfu => self.lfu_add(page),
                CacheType::Rma => self.rma_add(page, rand),
            }
            1
        }
    }

    fn lru_add(&mut self, page: usize)
        requires
            old(self)@.wf(),
            old(self)@.cache_type is Lru,
            old(self)@.can_serve(page),
            !old(self)@.pages.contains(page),
        ensures
            final(self)@ == old(self)@.lru_miss(page),
            final(self)@.wf(),
    {
        self.lru_update(page);
        self.evict_least_and_add(page);
    }

    fn lfu_add(&mut self, page: usize)
        requires
            old(self)@.wf(),
            old(self)@.cache_type is Lfu,
            old(self)@.can_serve(page),
            !old(self)@.pages.contains(page),
        ensures
            final(self)@ == old(self)@.lfu_miss(page),
            final(self)@.wf(),
    {
        self.lfu_update(page);
        self.evict_least_and_add(page);
    }
}

} // verus!
