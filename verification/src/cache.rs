//! A bounded response cache with byte-weighted, least-recently-used
//! eviction and single-flight bookkeeping.
//!
//! Entries are ordered least-recently-used first. The weight of an
//! entry is the byte length of its value; the sum of all weights never
//! exceeds the configured capacity. A capacity of zero disables
//! caching. The pending set records keys whose fetch is in flight:
//! the first caller to ask for an absent key becomes the leader and
//! performs the fetch, later callers for the same key wait for it.

use vstd::prelude::*;
use crate::bytes::{bytes_eq, copy_bytes};

verus! {

/// One cached entry: a key and the bytes that replay the response.
pub struct CacheEntry {
    pub key: Vec<u8>,
    pub value: Vec<u8>,
}

/// What `begin_fetch` tells one caller to do.
pub enum FetchRole {
    /// The value was cached; here is a copy.
    Hit(Vec<u8>),
    /// Absent and not in flight: the caller must fetch and then call
    /// `complete_fetch`.
    Leader,
    /// Absent but another caller is already fetching: wait for it.
    Waiter,
}

/// The mathematical state of the cache: the capacity, the entries as
/// (key, value) pairs in least-recently-used-first order, and the keys
/// with a fetch in flight.
pub struct CacheG {
    pub capacity: nat,
    pub entries: Seq<(Seq<u8>, Seq<u8>)>,
    pub pending: Seq<Seq<u8>>,
}

/// Sum of the entry weights (value byte lengths).
pub open spec fn weight_sum(entries: Seq<(Seq<u8>, Seq<u8>)>) -> nat
    decreases entries.len(),
{
    if entries.len() == 0 {
        0
    } else {
        entries[0].1.len() + weight_sum(entries.skip(1))
    }
}

/// Index of the entry with the given key, if present.
pub open spec fn entry_index(entries: Seq<(Seq<u8>, Seq<u8>)>, key: Seq<u8>) -> Option<int>
    decreases entries.len(),
{
    if entries.len() == 0 {
        Option::None
    } else if entries[0].0 == key {
        Option::Some(0)
    } else {
        match entry_index(entries.skip(1), key) {
            Option::Some(i) => Option::Some(i + 1),
            Option::None => Option::None,
        }
    }
}

/// The cached value of a key, if present.
pub open spec fn spec_lookup(s: CacheG, key: Seq<u8>) -> Option<Seq<u8>> {
    match entry_index(s.entries, key) {
        Option::Some(i) => Option::Some(s.entries[i].1),
        Option::None => Option::None,
    }
}

/// Drop least-recently-used entries from the front until the new
/// weight fits, then append the new entry as most recent.
pub open spec fn evict_insert(
    entries: Seq<(Seq<u8>, Seq<u8>)>,
    capacity: nat,
    key: Seq<u8>,
    value: Seq<u8>,
) -> Seq<(Seq<u8>, Seq<u8>)>
    decreases entries.len(),
{
    if weight_sum(entries) + value.len() <= capacity {
        entries.push((key, value))
    } else if entries.len() == 0 {
        entries
    } else {
        evict_insert(entries.skip(1), capacity, key, value)
    }
}

/// The state after inserting a value: the old entry for the key is
/// replaced; entries are evicted in least-recently-used order until
/// the new entry fits; a value larger than the whole capacity is not
/// cached.
pub open spec fn spec_insert(s: CacheG, key: Seq<u8>, value: Seq<u8>) -> CacheG {
    if s.capacity == 0 || value.len() > s.capacity {
        CacheG { entries: remove_key(s.entries, key), ..s }
    } else {
        CacheG { entries: evict_insert(remove_key(s.entries, key), s.capacity, key, value), ..s }
    }
}

/// The entries without the given key.
pub open spec fn remove_key(entries: Seq<(Seq<u8>, Seq<u8>)>, key: Seq<u8>) -> Seq<
    (Seq<u8>, Seq<u8>),
> {
    match entry_index(entries, key) {
        Option::Some(i) => entries.remove(i),
        Option::None => entries,
    }
}

/// The entry moved to the most-recently-used position.
pub open spec fn spec_touch(s: CacheG, key: Seq<u8>) -> CacheG {
    match entry_index(s.entries, key) {
        Option::Some(i) => CacheG {
            entries: s.entries.remove(i).push(s.entries[i]),
            ..s
        },
        Option::None => s,
    }
}

/// What `begin_fetch` returns and leaves behind, as a function of the
/// state: a hit touches the entry; a miss with the key pending makes
/// the caller wait; a plain miss makes the caller the leader.
pub open spec fn spec_begin_fetch(s: CacheG, key: Seq<u8>) -> (CacheG, Option<Option<Seq<u8>>>) {
    match spec_lookup(s, key) {
        Option::Some(v) => (spec_touch(s, key), Option::Some(Option::Some(v))),
        Option::None => {
            if s.pending.contains(key) {
                (s, Option::Some(Option::None))
            } else {
                (CacheG { pending: s.pending.push(key), ..s }, Option::None)
            }
        },
    }
}

/// What `complete_fetch` leaves behind: the key is no longer pending;
/// a successful fetch is inserted, a failed one leaves no entry.
pub open spec fn spec_complete_fetch(s: CacheG, key: Seq<u8>, outcome: Option<Seq<u8>>) -> CacheG {
    let s2 = CacheG { pending: remove_pending(s.pending, key), ..s };
    match outcome {
        Option::Some(v) => spec_insert(s2, key, v),
        Option::None => s2,
    }
}

/// The pending set without the given key.
pub open spec fn remove_pending(pending: Seq<Seq<u8>>, key: Seq<u8>) -> Seq<Seq<u8>>
    decreases pending.len(),
{
    if pending.len() == 0 {
        pending
    } else if pending[0] == key {
        remove_pending(pending.skip(1), key)
    } else {
        seq![pending[0]] + remove_pending(pending.skip(1), key)
    }
}

/// The response cache. All mutation goes through its methods; callers
/// never lock or order anything themselves.
pub struct ResponseCache {
    pub capacity: usize,
    pub entries: Vec<CacheEntry>,
    pub pending: Vec<Vec<u8>>,
    pub total_weight: usize,
}

impl View for ResponseCache {
    type V = CacheG;

    open spec fn view(&self) -> CacheG {
        CacheG {
            capacity: self.capacity as nat,
            entries: self.entries@.map_values(|e: CacheEntry| (e.key@, e.value@)),
            pending: self.pending@.map_values(|k: Vec<u8>| k@),
        }
    }
}

impl ResponseCache {
    /// Keys are unique and the total weight is within capacity.
    pub open spec fn wf(&self) -> bool {
        &&& forall|i: int, j: int|
            0 <= i < j < self@.entries.len() ==> self@.entries[i].0 != self@.entries[j].0
        &&& weight_sum(self@.entries) == self.total_weight
        &&& self.total_weight <= self.capacity
    }

    /// A cache bounded by `capacity` bytes; zero disables caching.
    pub fn new(capacity: usize) -> (r: ResponseCache)
        ensures
            r.wf(),
            r@ == (CacheG {
                capacity: capacity as nat,
                entries: Seq::<(Seq<u8>, Seq<u8>)>::empty(),
                pending: Seq::<Seq<u8>>::empty(),
            }),
    {
        let r = ResponseCache {
            capacity,
            entries: Vec::new(),
            pending: Vec::new(),
            total_weight: 0,
        };
        proof {
            assert(r@.entries =~= Seq::<(Seq<u8>, Seq<u8>)>::empty());
            assert(r@.pending =~= Seq::<Seq<u8>>::empty());
        }
        r
    }

    /// Position of a key in the entry list.
    #[verifier::loop_isolation(false)]
    fn find_entry(&self, key: &Vec<u8>) -> (r: Option<usize>)
        ensures
            match r {
                Option::Some(i) => entry_index(self@.entries, key@) == Option::Some(i as int) && i
                    < self@.entries.len(),
                Option::None => entry_index(self@.entries, key@) is None,
            },
    {
        let mut i: usize = 0;
        while i < self.entries.len()
            invariant
                i <= self@.entries.len(),
                forall|q: int| 0 <= q < i ==> self@.entries[q].0 != key@,
            decreases self@.entries.len() - i,
        {
            if bytes_eq(&self.entries[i].key, key) {
                proof {
                    lemma_entry_index_first(self@.entries, key@, i as int);
                }
                return Option::Some(i);
            }
            i = i + 1;
        }
        proof {
            lemma_entry_index_none(self@.entries, key@);
        }
        Option::None
    }
}

pub proof fn lemma_weight_remove(entries: Seq<(Seq<u8>, Seq<u8>)>, i: int)
    requires
        0 <= i < entries.len(),
    ensures
        weight_sum(entries) == weight_sum(entries.remove(i)) + entries[i].1.len(),
    decreases entries.len(),
{
    if i == 0 {
        assert(entries.remove(0) =~= entries.skip(1));
    } else {
        assert(entries.remove(i).skip(1) =~= entries.skip(1).remove(i - 1));
        assert(entries.skip(1)[i - 1] == entries[i]);
        lemma_weight_remove(entries.skip(1), i - 1);
    }
}

pub proof fn lemma_weight_push(entries: Seq<(Seq<u8>, Seq<u8>)>, e: (Seq<u8>, Seq<u8>))
    ensures
        weight_sum(entries.push(e)) == weight_sum(entries) + e.1.len(),
    decreases entries.len(),
{
    assert(entries.push(e)[0] == if entries.len() == 0 {
        e
    } else {
        entries[0]
    });
    assert(weight_sum(entries.push(e)) == entries.push(e)[0].1.len() + weight_sum(
        entries.push(e).skip(1),
    ));
    if entries.len() == 0 {
        assert(entries.push(e).skip(1) =~= Seq::<(Seq<u8>, Seq<u8>)>::empty());
        assert(weight_sum(entries.push(e).skip(1)) == 0);
    } else {
        assert(entries.push(e).skip(1) =~= entries.skip(1).push(e));
        lemma_weight_push(entries.skip(1), e);
    }
}

pub proof fn lemma_entry_index_none_inv(entries: Seq<(Seq<u8>, Seq<u8>)>, key: Seq<u8>)
    requires
        entry_index(entries, key) is None,
    ensures
        forall|q: int| 0 <= q < entries.len() ==> entries[q].0 != key,
    decreases entries.len(),
{
    if entries.len() > 0 {
        lemma_entry_index_none_inv(entries.skip(1), key);
        assert(forall|q: int|
            1 <= q < entries.len() ==> entries[q] == entries.skip(1)[q - 1]);
    }
}

/// With unique keys, removing the key leaves no entry with it.
pub proof fn lemma_remove_key_no_key(entries: Seq<(Seq<u8>, Seq<u8>)>, key: Seq<u8>)
    requires
        forall|a: int, b: int| 0 <= a < b < entries.len() ==> entries[a].0 != entries[b].0,
    ensures
        forall|q: int|
            0 <= q < remove_key(entries, key).len() ==> remove_key(entries, key)[q].0 != key,
{
    match entry_index(entries, key) {
        Option::None => {
            lemma_entry_index_none_inv(entries, key);
        },
        Option::Some(i) => {
            lemma_entry_index_bounds(entries, key, i);
            assert forall|q: int|
                0 <= q < remove_key(entries, key).len() implies remove_key(entries, key)[q].0
                != key by {
                let q0 = if q < i {
                    q
                } else {
                    q + 1
                };
                assert(remove_key(entries, key)[q] == entries[q0]);
                if q0 < i {
                    assert(entries[q0].0 != entries[i].0);
                } else {
                    assert(entries[i].0 != entries[q0].0);
                }
            }
        },
    }
}

impl ResponseCache {
    /// Remove the entry with this key, if any.
    pub fn invalidate(&mut self, key: &Vec<u8>)
        requires
            old(self).wf(),
        ensures
            final(self).wf(),
            final(self)@ == (CacheG { entries: remove_key(old(self)@.entries, key@), ..old(self)@ }),
    {
        let ghost ev = self@.entries;
        match self.find_entry(key) {
            Option::None => {},
            Option::Some(i) => {
                proof {
                    lemma_entry_index_bounds(ev, key@, i as int);
                    lemma_weight_remove(ev, i as int);
                }
                let e = self.entries.remove(i);
                self.total_weight = self.total_weight - e.value.len();
                proof {
                    assert(self@.entries =~= ev.remove(i as int));
                    assert forall|a: int, b: int|
                        0 <= a < b < self@.entries.len() implies self@.entries[a].0
                        != self@.entries[b].0 by {
                        let a0 = if a < i {
                            a
                        } else {
                            a + 1
                        };
                        let b0 = if b < i {
                            b
                        } else {
                            b + 1
                        };
                        assert(self@.entries[a] == ev[a0]);
                        assert(self@.entries[b] == ev[b0]);
                    }
                }
            },
        }
    }

    /// The cached value, touching the entry as most recently used.
    pub fn lookup(&mut self, key: &Vec<u8>) -> (r: Option<Vec<u8>>)
        requires
            old(self).wf(),
        ensures
            final(self).wf(),
            final(self)@ == spec_touch(old(self)@, key@),
            match r {
                Option::Some(v) => spec_lookup(old(self)@, key@) == Option::Some(v@),
                Option::None => spec_lookup(old(self)@, key@) is None,
            },
    {
        let ghost ev = self@.entries;
        match self.find_entry(key) {
            Option::None => Option::None,
            Option::Some(i) => {
                proof {
                    lemma_entry_index_bounds(ev, key@, i as int);
                    lemma_weight_remove(ev, i as int);
                }
                let e = self.entries.remove(i);
                let val = copy_bytes(&e.value);
                self.entries.push(e);
                proof {
                    lemma_weight_push(ev.remove(i as int), ev[i as int]);
                    assert(self@.entries =~= ev.remove(i as int).push(ev[i as int]));
                    let ne = self@.entries;
                    assert forall|a: int, b: int|
                        0 <= a < b < ne.len() implies ne[a].0 != ne[b].0 by {
                        let last = ne.len() - 1;
                        let a0 = if a < i {
                            a
                        } else if a == last {
                            i as int
                        } else {
                            a + 1
                        };
                        let b0 = if b < i {
                            b
                        } else if b == last {
                            i as int
                        } else {
                            b + 1
                        };
                        assert(ne[a] == ev[a0]);
                        assert(ne[b] == ev[b0]);
                    }
                }
                Option::Some(val)
            },
        }
    }

    /// Insert a value for a key: replace any old entry, evict
    /// least-recently-used entries until the new entry fits, and do
    /// not cache a value larger than the whole capacity.
    #[verifier::loop_isolation(false)]
    pub fn insert(&mut self, key: Vec<u8>, value: Vec<u8>)
        requires
            old(self).wf(),
        ensures
            final(self).wf(),
            final(self)@ == spec_insert(old(self)@, key@, value@),
    {
        let ghost s0 = self@;
        self.invalidate(&key);
        if self.capacity == 0 || value.len() > self.capacity {
            return ;
        }
        proof {
            lemma_remove_key_no_key(s0.entries, key@);
        }
        let ghost base = self@.entries;
        let w = value.len();
        while self.capacity - self.total_weight < w
            invariant
                self.wf(),
                self@.capacity == s0.capacity,
                self@.pending == s0.pending,
                w == value@.len(),
                w <= self.capacity,
                evict_insert(self@.entries, s0.capacity, key@, value@) == evict_insert(
                    base,
                    s0.capacity,
                    key@,
                    value@,
                ),
                forall|q: int| 0 <= q < self@.entries.len() ==> self@.entries[q].0 != key@,
            decreases self@.entries.len(),
        {
            proof {
                assert(self@.entries.len() > 0);
                lemma_weight_remove(self@.entries, 0);
                assert(self@.entries.remove(0) =~= self@.entries.skip(1));
            }
            let ghost before = self@.entries;
            let e = self.entries.remove(0);
            self.total_weight = self.total_weight - e.value.len();
            proof {
                assert(self@.entries =~= before.skip(1));
            }
        }
        proof {
            assert(self.total_weight + w <= self.capacity);
            lemma_weight_push(self@.entries, (key@, value@));
            assert(evict_insert(self@.entries, s0.capacity, key@, value@) == self@.entries.push(
                (key@, value@)));
        }
        let ghost before_push = self@.entries;
        let wcopy = value.len();
        self.entries.push(CacheEntry { key, value });
        self.total_weight = self.total_weight + wcopy;
        proof {
            assert(self@.entries =~= before_push.push((key@, value@)));
            let ne = self@.entries;
            assert forall|a: int, b: int| 0 <= a < b < ne.len() implies ne[a].0 != ne[b].0 by {
                if b == ne.len() - 1 {
                    assert(ne[a] == before_push[a]);
                }
            }
        }
    }

    /// Whether a fetch for this key is already in flight.
    #[verifier::loop_isolation(false)]
    fn is_pending(&self, key: &Vec<u8>) -> (r: bool)
        ensures
            r == self@.pending.contains(key@),
    {
        let mut i: usize = 0;
        while i < self.pending.len()
            invariant
                i <= self@.pending.len(),
                forall|q: int| 0 <= q < i ==> self@.pending[q] != key@,
            decreases self@.pending.len() - i,
        {
            if bytes_eq(&self.pending[i], key) {
                assert(self@.pending[i as int] == key@);
                return true;
            }
            i = i + 1;
        }
        proof {
            if self@.pending.contains(key@) {
                let q = choose|q: int|
                    0 <= q < self@.pending.len() && self@.pending[q] == key@;
                assert(false);
            }
        }
        false
    }

    /// One caller's entry into `get_or_fetch`: a hit returns the
    /// cached bytes and touches the entry; on a miss the first caller
    /// becomes the leader and must fetch, later callers wait.
    pub fn begin_fetch(&mut self, key: &Vec<u8>) -> (r: FetchRole)
        requires
            old(self).wf(),
        ensures
            final(self).wf(),
            final(self)@ == spec_begin_fetch(old(self)@, key@).0,
            role_view(&r) == spec_begin_fetch(old(self)@, key@).1,
    {
        let hit = self.lookup(key);
        match hit {
            Option::Some(v) => FetchRole::Hit(v),
            Option::None => {
                proof {
                    assert(spec_touch(old(self)@, key@) == old(self)@);
                }
                if self.is_pending(key) {
                    FetchRole::Waiter
                } else {
                    let ghost p0 = self@.pending;
                    self.pending.push(copy_bytes(key));
                    proof {
                        assert(self@.pending =~= p0.push(key@));
                        assert(self@.entries == old(self)@.entries);
                    }
                    FetchRole::Leader
                }
            },
        }
    }

    /// The leader reports the outcome of its fetch: the key stops
    /// being pending; a successful fetch is cached, a failed one
    /// leaves no entry (the next caller retries).
    #[verifier::loop_isolation(false)]
    pub fn complete_fetch(&mut self, key: &Vec<u8>, outcome: Option<Vec<u8>>)
        requires
            old(self).wf(),
        ensures
            final(self).wf(),
            final(self)@ == spec_complete_fetch(old(self)@, key@, opt_value_view(&outcome)),
    {
        let ghost pv = self@.pending;
        let mut newp: Vec<Vec<u8>> = Vec::new();
        let mut i: usize = 0;
        proof {
            assert(newp@.map_values(|k: Vec<u8>| k@) =~= Seq::<Seq<u8>>::empty());
            assert(pv.skip(0) =~= pv);
            assert(Seq::<Seq<u8>>::empty() + remove_pending(pv, key@) =~= remove_pending(
                pv,
                key@,
            ));
        }
        while i < self.pending.len()
            invariant
                i <= self@.pending.len(),
                newp@.map_values(|k: Vec<u8>| k@) + remove_pending(pv.skip(i as int), key@)
                    == remove_pending(pv, key@),
                self@.pending == pv,
            decreases self@.pending.len() - i,
        {
            proof {
                assert(pv.skip(i as int)[0] == pv[i as int]);
                assert(pv.skip(i as int).skip(1) =~= pv.skip(i + 1 as int));
            }
            if !bytes_eq(&self.pending[i], key) {
                let ghost np0 = newp@.map_values(|k: Vec<u8>| k@);
                let kc = copy_bytes(&self.pending[i]);
                newp.push(kc);
                proof {
                    assert(newp@.map_values(|k: Vec<u8>| k@) =~= np0.push(pv[i as int]));
                    assert(np0.push(pv[i as int]) =~= np0 + seq![pv[i as int]]);
                    assert((np0 + seq![pv[i as int]]) + remove_pending(pv.skip(i + 1 as int), key@)
                        =~= np0 + (seq![pv[i as int]] + remove_pending(pv.skip(i + 1 as int),
                        key@)));
                }
            }
            i = i + 1;
        }
        proof {
            assert(pv.skip(pv.len() as int).len() == 0);
            assert(newp@.map_values(|k: Vec<u8>| k@) + Seq::<Seq<u8>>::empty() =~= newp@.map_values(
                |k: Vec<u8>| k@));
        }
        self.pending = newp;
        match outcome {
            Option::None => {},
            Option::Some(v) => {
                self.insert(copy_bytes(key), v);
            },
        }
    }
}

pub proof fn lemma_evict_insert_lookup(
    entries: Seq<(Seq<u8>, Seq<u8>)>,
    cap: nat,
    k: Seq<u8>,
    v: Seq<u8>,
)
    requires
        v.len() <= cap,
        forall|q: int| 0 <= q < entries.len() ==> entries[q].0 != k,
    ensures
        entry_index(evict_insert(entries, cap, k, v), k) matches Option::Some(i)
            && evict_insert(entries, cap, k, v)[i].1 == v,
    decreases entries.len(),
{
    if weight_sum(entries) + v.len() <= cap {
        let r = entries.push((k, v));
        lemma_entry_index_first(r, k, r.len() - 1);
    } else if entries.len() == 0 {
        assert(false);
    } else {
        assert(forall|q: int|
            0 <= q < entries.skip(1).len() ==> entries.skip(1)[q] == entries[q + 1]);
        lemma_evict_insert_lookup(entries.skip(1), cap, k, v);
    }
}

pub proof fn lemma_evict_weight(entries: Seq<(Seq<u8>, Seq<u8>)>, cap: nat, k: Seq<u8>, v: Seq<u8>)
    requires
        v.len() <= cap,
    ensures
        weight_sum(evict_insert(entries, cap, k, v)) <= cap,
    decreases entries.len(),
{
    if weight_sum(entries) + v.len() <= cap {
        lemma_weight_push(entries, (k, v));
    } else if entries.len() == 0 {
        assert(false);
    } else {
        lemma_evict_weight(entries.skip(1), cap, k, v);
    }
}

pub proof fn lemma_evict_no_key(
    entries: Seq<(Seq<u8>, Seq<u8>)>,
    cap: nat,
    k: Seq<u8>,
    v: Seq<u8>,
    other: Seq<u8>,
)
    requires
        other != k,
        forall|q: int| 0 <= q < entries.len() ==> entries[q].0 != other,
    ensures
        entry_index(evict_insert(entries, cap, k, v), other) is None,
    decreases entries.len(),
{
    if weight_sum(entries) + v.len() <= cap {
        let r = entries.push((k, v));
        assert(forall|q: int| 0 <= q < r.len() ==> r[q].0 != other);
        lemma_entry_index_none(r, other);
    } else if entries.len() == 0 {
        lemma_entry_index_none(entries, other);
    } else {
        assert(forall|q: int|
            0 <= q < entries.skip(1).len() ==> entries.skip(1)[q] == entries[q + 1]);
        lemma_evict_no_key(entries.skip(1), cap, k, v, other);
    }
}

/// Cache round-trip: for an absent, un-pending key, the first caller
/// becomes the leader (so its fetch runs); once it completes with
/// bytes `v`, an immediate second `get_or_fetch` for the key is a hit
/// with exactly those bytes, so the second fetch is never invoked.
/// (Requires a value that fits: with capacity 0, or a value larger
/// than the whole capacity, nothing is cached and the second call
/// fetches again.)
pub proof fn lemma_cache_round_trip(s: CacheG, k: Seq<u8>, v: Seq<u8>)
    requires
        forall|a: int, b: int| 0 <= a < b < s.entries.len() ==> s.entries[a].0 != s.entries[b].0,
        spec_lookup(s, k) is None,
        !s.pending.contains(k),
        0 < s.capacity,
        v.len() <= s.capacity,
    ensures
        ({
            let first = spec_begin_fetch(s, k);
            let s2 = spec_complete_fetch(first.0, k, Option::Some(v));
            &&& first.1 is None
            &&& spec_begin_fetch(s2, k).1 == Option::Some(Option::Some(v))
        }),
{
    let first = spec_begin_fetch(s, k);
    let s1 = first.0;
    let s2 = spec_complete_fetch(s1, k, Option::Some(v));
    lemma_remove_key_no_key(s.entries, k);
    lemma_evict_insert_lookup(remove_key(s.entries, k), s.capacity, k, v);
}

/// Single-flight: for an absent key, the first caller is told to
/// fetch (leader) and every caller that arrives while that fetch is
/// still in flight is told to wait — the fetch runs exactly once.
pub proof fn lemma_single_flight(s: CacheG, k: Seq<u8>)
    requires
        spec_lookup(s, k) is None,
        !s.pending.contains(k),
    ensures
        spec_begin_fetch(s, k).1 is None,
        spec_begin_fetch(spec_begin_fetch(s, k).0, k).1 == Option::Some(
            Option::None::<Seq<u8>>,
        ),
{
    let s1 = spec_begin_fetch(s, k).0;
    assert(s1.pending[s1.pending.len() - 1] == k);
    assert(s1.pending.contains(k));
}

/// Eviction boundary: when an insert of a fresh key exceeds the
/// capacity by exactly one byte, the least-recently-used entry is
/// evicted and the total weight stays within capacity.
pub proof fn lemma_eviction_boundary(s: CacheG, k: Seq<u8>, v: Seq<u8>)
    requires
        forall|a: int, b: int| 0 <= a < b < s.entries.len() ==> s.entries[a].0 != s.entries[b].0,
        s.entries.len() > 0,
        forall|q: int| 0 <= q < s.entries.len() ==> s.entries[q].0 != k,
        0 < s.capacity,
        v.len() <= s.capacity,
        weight_sum(s.entries) + v.len() == s.capacity + 1,
    ensures
        weight_sum(spec_insert(s, k, v).entries) <= s.capacity,
        entry_index(spec_insert(s, k, v).entries, s.entries[0].0) is None,
{
    lemma_entry_index_none(s.entries, k);
    assert(remove_key(s.entries, k) == s.entries);
    lemma_evict_weight(s.entries, s.capacity, k, v);
    assert(evict_insert(s.entries, s.capacity, k, v) == evict_insert(s.entries.skip(1),
        s.capacity, k, v));
    assert(forall|q: int|
        0 <= q < s.entries.skip(1).len() ==> s.entries.skip(1)[q] == s.entries[q + 1]);
    lemma_evict_no_key(s.entries.skip(1), s.capacity, k, v, s.entries[0].0);
}

/// The mathematical content of a [`FetchRole`].
pub open spec fn role_view(r: &FetchRole) -> Option<Option<Seq<u8>>> {
    match r {
        FetchRole::Hit(v) => Option::Some(Option::Some(v@)),
        FetchRole::Waiter => Option::Some(Option::None),
        FetchRole::Leader => Option::None,
    }
}

/// The mathematical content of a fetch outcome.
pub open spec fn opt_value_view(o: &Option<Vec<u8>>) -> Option<Seq<u8>> {
    match o {
        Option::Some(v) => Option::Some(v@),
        Option::None => Option::None,
    }
}

pub proof fn lemma_entry_index_first(entries: Seq<(Seq<u8>, Seq<u8>)>, key: Seq<u8>, j: int)
    requires
        0 <= j < entries.len(),
        entries[j].0 == key,
        forall|q: int| 0 <= q < j ==> entries[q].0 != key,
    ensures
        entry_index(entries, key) == Option::Some(j),
    decreases entries.len(),
{
    if entries[0].0 == key {
        if j != 0 {
            assert(entries[0].0 != key);
        }
    } else {
        assert(entries.skip(1)[j - 1] == entries[j]);
        assert(forall|q: int| 0 <= q < j - 1 ==> entries.skip(1)[q] == entries[q + 1]);
        lemma_entry_index_first(entries.skip(1), key, j - 1);
    }
}

pub proof fn lemma_entry_index_none(entries: Seq<(Seq<u8>, Seq<u8>)>, key: Seq<u8>)
    requires
        forall|q: int| 0 <= q < entries.len() ==> entries[q].0 != key,
    ensures
        entry_index(entries, key) is None,
    decreases entries.len(),
{
    if entries.len() > 0 {
        assert(forall|q: int|
            0 <= q < entries.skip(1).len() ==> entries.skip(1)[q] == entries[q + 1]);
        lemma_entry_index_none(entries.skip(1), key);
    }
}

pub proof fn lemma_entry_index_bounds(entries: Seq<(Seq<u8>, Seq<u8>)>, key: Seq<u8>, i: int)
    requires
        entry_index(entries, key) == Option::Some(i),
    ensures
        0 <= i < entries.len(),
        entries[i].0 == key,
    decreases entries.len(),
{
    if entries.len() == 0 {
    } else if entries[0].0 == key {
    } else {
        let j = entry_index(entries.skip(1), key)->Some_0;
        lemma_entry_index_bounds(entries.skip(1), key, j);
    }
}

} // verus!
