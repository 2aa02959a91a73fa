//! Self-organising lists. Each list serves accesses to keys: an access looks
//! the key up from the front, reports what the lookup cost, and reorganises
//! the list by the list's own rule. A key that is missing is added, and the
//! lookup reports the list's length before the addition.
use vstd::prelude::*;
use std::collections::VecDeque;

verus! {

/// Index of the first occurrence of `x` in `s`, or -1 where `x` is missing.
pub open spec fn first_index(s: Seq<usize>, x: usize) -> int
    decreases s.len(),
{
    if s.len() == 0 {
        -1
    } else if s[0] == x {
        0
    } else {
        let r = first_index(s.drop_first(), x);
        if r < 0 {
            -1
        } else {
            r + 1
        }
    }
}

/// A scan that has passed `i` entries without meeting `x` finds the first
/// occurrence at `i`, or none where it is at the end.
pub proof fn lemma_first_index(s: Seq<usize>, x: usize, i: int)
    requires
        0 <= i <= s.len(),
        forall|j: int| 0 <= j < i ==> s[j] != x,
    ensures
        i < s.len() && s[i] == x ==> first_index(s, x) == i,
        i == s.len() ==> first_index(s, x) == -1,
    decreases i,
{
    if i > 0 {
        assert(s[0] != x);
        lemma_first_index(s.drop_first(), x, i - 1);
    } else if s.len() == 0 {
    }
}

/// Where `first_index` finds a key, the key is there, at or below the end.
pub proof fn lemma_first_index_found(s: Seq<usize>, x: usize)
    ensures
        -1 <= first_index(s, x) < s.len(),
        first_index(s, x) >= 0 ==> s[first_index(s, x)] == x,
    decreases s.len(),
{
    if s.len() > 0 {
        lemma_first_index_found(s.drop_first(), x);
    }
}

/// `first_index` finds exactly the keys that occur.
pub proof fn lemma_first_index_contains(s: Seq<usize>, x: usize)
    ensures
        s.contains(x) <==> first_index(s, x) >= 0,
    decreases s.len(),
{
    lemma_first_index_found(s, x);
    if s.len() > 0 {
        lemma_first_index_contains(s.drop_first(), x);
        if s.contains(x) && s[0] != x {
            let j = choose|j: int| 0 <= j < s.len() && s[j] == x;
            assert(s.drop_first()[j - 1] == x);
        }
        if s.drop_first().contains(x) {
            let j = choose|j: int| 0 <= j < s.len() - 1 && s.drop_first()[j] == x;
            assert(s[j + 1] == x);
        }
    }
}

/// The keys of a list of (count, key) pairs.
pub open spec fn keys_of(s: Seq<(usize, usize)>) -> Seq<usize> {
    s.map_values(|p: (usize, usize)| p.1)
}

/// An access to a list that never reorganises.
pub open spec fn simple_access(s: Seq<usize>, x: usize) -> (Seq<usize>, nat) {
    let i = first_index(s, x);
    if i >= 0 {
        (s, (i + 1) as nat)
    } else {
        (s.push(x), s.len())
    }
}

/// An access to a move-to-front list: the key goes to the front.
pub open spec fn mtf_access(s: Seq<usize>, x: usize) -> (Seq<usize>, nat) {
    let i = first_index(s, x);
    if i >= 0 {
        (seq![x] + s.remove(i), (i + 1) as nat)
    } else {
        (seq![x] + s, s.len())
    }
}

/// An access to a transpose list: a key found swaps with its predecessor.
pub open spec fn trans_access(s: Seq<usize>, x: usize) -> (Seq<usize>, nat) {
    let i = first_index(s, x);
    if i > 0 {
        (s.update(i, s[i - 1]).update(i - 1, x), (i + 1) as nat)
    } else if i == 0 {
        (s, 1)
    } else {
        (s.push(x), s.len())
    }
}

/// An access to a frequency-count list: a key found counts one more access
/// and swaps with its predecessor where that one has been accessed less.
pub open spec fn count_access(s: Seq<(usize, usize)>, x: usize) -> (Seq<(usize, usize)>, nat) {
    let i = first_index(keys_of(s), x);
    if i >= 0 {
        let c = (s[i].0 + 1) as usize;
        let bumped = s.update(i, (c, x));
        if i > 0 && s[i - 1].0 < c {
            (bumped.update(i, s[i - 1]).update(i - 1, (c, x)), (i + 1) as nat)
        } else {
            (bumped, (i + 1) as nat)
        }
    } else {
        (s.push((1usize, x)), s.len())
    }
}

/// Finds the first position of `search` in `list`.
pub(crate) fn position(list: &Vec<usize>, search: usize) -> (r: Option<usize>)
    ensures
        match r {
            Some(i) => i < list@.len() && first_index(list@, search) == i,
            None => first_index(list@, search) == -1,
        },
{
    let mut i: usize = 0;
    while i < list.len()
        invariant
            0 <= i <= list@.len(),
            forall|j: int| 0 <= j < i ==> list@[j] != search,
        decreases list@.len() - i,
    {
        if list[i] == search {
            proof {
                lemma_first_index(list@, search, i as int);
            }
            return Some(i);
        }
        i += 1;
    }
    proof {
        lemma_first_index(list@, search, i as int);
    }
    None
}

/// A list kept in order of first access.
#[derive(Clone)]
pub struct SimpleList {
    list: Vec<usize>,
}

impl View for SimpleList {
    type V = Seq<usize>;

    closed spec fn view(&self) -> Seq<usize> {
        self.list@
    }
}

impl SimpleList {
    pub fn new() -> (r: Self)
        ensures
            r@ == Seq::<usize>::empty(),
    {
        SimpleList { list: Vec::new() }
    }

    pub fn access(&mut self, search: usize) -> (r: usize)
        ensures
            (final(self)@, r as nat) == simple_access(old(self)@, search),
    {
        match position(&self.list, search) {
            Some(index) => {
                let len = self.list.len();
                assert(index < len);
                index + 1
            },
            None => {
                self.list.push(search);
                self.list.len() - 1
            },
        }
    }
}

/// A list that moves each accessed key to the front.
#[derive(Clone)]
pub struct MtfList {
    list: VecDeque<usize>,
}

impl View for MtfList {
    type V = Seq<usize>;

    closed spec fn view(&self) -> Seq<usize> {
        self.list@
    }
}

impl MtfList {
    pub fn new() -> (r: Self)
        ensures
            r@ == Seq::<usize>::empty(),
    {
        MtfList { list: VecDeque::new() }
    }

    /// Finds the first position of `search` in the list.
    fn position(&self, search: usize) -> (r: Option<usize>)
        ensures
            match r {
                Some(i) => i < self@.len() && first_index(self@, search) == i,
                None => first_index(self@, search) == -1,
            },
    {
        let mut i: usize = 0;
        while i < self.list.len()
            invariant
                0 <= i <= self@.len(),
                forall|j: int| 0 <= j < i ==> self@[j] != search,
            decreases self@.len() - i,
        {
            if self.list[i] == search {
                proof {
                    lemma_first_index(self@, search, i as int);
                }
                return Some(i);
            }
            i += 1;
        }
        proof {
            lemma_first_index(self@, search, i as int);
        }
        None
    }

    pub fn access(&mut self, search: usize) -> (r: usize)
        ensures
            (final(self)@, r as nat) == mtf_access(old(self)@, search),
    {
        match self.position(search) {
            Some(index) => {
                let len = self.list.len();
                assert(index < len);
                self.list.remove(index);
                self.list.push_front(search);
                index + 1
            },
            None => {
                self.list.push_front(search);
                self.list.len() - 1
            },
        }
    }
}

/// A list that moves each accessed key one place toward the front.
#[derive(Clone)]
pub struct TransList {
    list: Vec<usize>,
}

impl View for TransList {
    type V = Seq<usize>;

    closed spec fn view(&self) -> Seq<usize> {
        self.list@
    }
}

impl TransList {
    pub fn new() -> (r: Self)
        ensures
            r@ == Seq::<usize>::empty(),
    {
        TransList { list: Vec::new() }
    }

    pub fn access(&mut self, search: usize) -> (r: usize)
        ensures
            (final(self)@, r as nat) == trans_access(old(self)@, search),
    {
        match position(&self.list, search) {
            Some(index) => {
                let len = self.list.len();
                assert(index < len);
                if index > 0 {
                    let prev = self.list[index - 1];
                    self.list.set(index, prev);
                    self.list.set(index - 1, search);
                }
                index + 1
            },
            None => {
                self.list.push(search);
                self.list.len() - 1
            },
        }
    }
}

/// A list kept ordered by access counts: each entry is a (count, key) pair.
#[derive(Clone)]
pub struct CountList {
    list: Vec<(usize, usize)>,
}

impl View for CountList {
    type V = Seq<(usize, usize)>;

    closed spec fn view(&self) -> Seq<(usize, usize)> {
        self.list@
    }
}

impl CountList {
    pub fn new() -> (r: Self)
        ensures
            r@ == Seq::<(usize, usize)>::empty(),
    {
        CountList { list: Vec::new() }
    }

    /// Every count can take one more access.
    pub open spec fn counts_below_max(&self) -> bool {
        forall|i: int| 0 <= i < self@.len() ==> #[trigger] self@[i].0 < usize::MAX
    }

    /// Finds the first entry whose key is `search`.
    fn position(&self, search: usize) -> (r: Option<usize>)
        ensures
            match r {
                Some(i) => i < self@.len() && first_index(keys_of(self@), search) == i,
                None => first_index(keys_of(self@), search) == -1,
            },
    {
        let ghost keys = keys_of(self@);
        let mut i: usize = 0;
        while i < self.list.len()
            invariant
                0 <= i <= self@.len(),
                keys == keys_of(self@),
                forall|j: int| 0 <= j < i ==> keys[j] != search,
            decreases self@.len() - i,
        {
            if self.list[i].1 == search {
                proof {
                    lemma_first_index(keys, search, i as int);
                }
                return Some(i);
            }
            i += 1;
        }
        proof {
            lemma_first_index(keys, search, i as int);
        }
        None
    }

    pub fn access(&mut self, search: usize) -> (r: usize)
        requires
            old(self).counts_below_max(),
        ensures
            (final(self)@, r as nat) == count_access(old(self)@, search),
    {
        match self.position(search) {
            Some(index) => {
                let len = self.list.len();
                assert(index < len);
                proof {
                    lemma_first_index_found(keys_of(self@), search);
                }
                let count = self.list[index].0 + 1;
                self.list.set(index, (count, search));
                if index > 0 && self.list[index - 1].0 < count {
                    let prev = self.list[index - 1];
                    self.list.set(index, prev);
                    self.list.set(index - 1, (count, search));
                }
                index + 1
            },
            None => {
                self.list.push((1, search));
                self.list.len() - 1
            },
        }
    }
}

/// A self-organising list of one of the four kinds.
#[derive(Clone)]
pub enum AccessList {
    Simple(SimpleList),
    Mtf(MtfList),
    Trans(TransList),
    Count(CountList),
}

impl AccessList {
    /// The list can serve one more access.
    pub open spec fn can_access(&self) -> bool {
        match self {
            AccessList::Count(list) => list.counts_below_max(),
            _ => true,
        }
    }

    /// Accesses `search`: returns what the lookup cost and reorganises the
    /// list by its kind's rule.
    pub fn access(&mut self, search: usize) -> (r: usize)
        requires
            old(self).can_access(),
        ensures
            match (*old(self), *final(self)) {
                (AccessList::Simple(a), AccessList::Simple(b)) => (b@, r as nat) == simple_access(
                    a@,
                    search,
                ),
                (AccessList::Mtf(a), AccessList::Mtf(b)) => (b@, r as nat) == mtf_access(a@, search),
                (AccessList::Trans(a), AccessList::Trans(b)) => (b@, r as nat) == trans_access(
                    a@,
                    search,
                ),
                (AccessList::Count(a), AccessList::Count(b)) => (b@, r as nat) == count_access(
                    a@,
                    search,
                ),
                _ => false,
            },
    {
        match self {
            AccessList::Simple(list) => list.access(search),
            AccessList::Mtf(list) => list.access(search),
            AccessList::Trans(list) => list.access(search),
            AccessList::Count(list) => list.access(search),
        }
    }
}


/// Names a series of measurements: the kind of list and the distribution of
/// the keys accessed.
#[derive(Clone, Debug, PartialEq, Eq, Hash)]
pub struct AccessDistr {
    pub access: String,
    pub distr: String,
}

impl AccessDistr {
    pub fn new(access: String, distr: String) -> (r: Self)
        ensures
            r.access == access,
            r.distr == distr,
    {
        AccessDistr { access, distr }
    }
}

/// What a series of measurements is grouped by.
#[derive(Clone, Copy, Debug, PartialEq, Eq, Structural)]
pub enum Condition {
    Access,
    Distribution,
}

} // verus!
