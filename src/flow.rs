//! Flow keys and the bounded recency cache used to spot request/response pairs.
use vstd::prelude::*;

verus! {

/// A network-layer address, IPv4 or IPv6, as an integer in network byte order.
#[derive(Debug, Clone, Copy, PartialEq, Eq, Structural)]
pub enum IpAddress {
    V4(u32),
    V6(u128),
}

/// Direction of one UDP conversation: source address and port, destination address and port.
#[derive(Debug, Clone, Copy, PartialEq, Eq, Structural)]
pub struct FlowKey {
    pub src: IpAddress,
    pub src_port: u16,
    pub dst: IpAddress,
    pub dst_port: u16,
}

/// The same conversation seen from the other side.
pub open spec fn reversed(k: FlowKey) -> FlowKey {
    FlowKey { src: k.dst, src_port: k.dst_port, dst: k.src, dst_port: k.src_port }
}

impl FlowKey {
    /// Swaps source and destination.
    pub fn reverse(&self) -> (r: FlowKey)
        ensures
            r == reversed(*self),
    {
        FlowKey { src: self.dst, src_port: self.dst_port, dst: self.src, dst_port: self.src_port }
    }
}

/// Size above which an insertion triggers a sweep.
pub const FLOW_CACHE_SOFT_LIMIT: usize = 4096;

/// Age, in milliseconds, beyond which a sweep drops an entry.
pub const FLOW_MAX_AGE_MS: u64 = 2000;

/// No key occurs twice.
pub open spec fn keys_distinct(s: Seq<(FlowKey, u64)>) -> bool {
    forall|i: int, j: int|
        0 <= i < s.len() && 0 <= j < s.len() && i != j ==> #[trigger] s[i].0 != #[trigger] s[j].0
}

pub open spec fn has_key(s: Seq<(FlowKey, u64)>, k: FlowKey) -> bool {
    exists|i: int| 0 <= i < s.len() && #[trigger] s[i].0 == k
}

/// Position of a key that the cache holds.
pub open spec fn key_index(s: Seq<(FlowKey, u64)>, k: FlowKey) -> int
    recommends
        has_key(s, k),
{
    choose|i: int| 0 <= i < s.len() && #[trigger] s[i].0 == k
}

/// When a key was last seen, if the cache holds it.
pub open spec fn flow_lookup(s: Seq<(FlowKey, u64)>, k: FlowKey) -> Option<u64> {
    if has_key(s, k) {
        Some(s[key_index(s, k)].1)
    } else {
        None
    }
}

/// Records `k` as seen at `t`: its entry is updated in place, or appended.
pub open spec fn flow_insert(s: Seq<(FlowKey, u64)>, k: FlowKey, t: u64) -> Seq<(FlowKey, u64)> {
    if has_key(s, k) {
        s.update(key_index(s, k), (k, t))
    } else {
        s.push((k, t))
    }
}

/// An entry is kept by a sweep at `now` when it is at most two seconds old.
pub open spec fn is_recent(e: (FlowKey, u64), now: u64) -> bool {
    now <= e.1 + FLOW_MAX_AGE_MS
}

/// The entries that survive a sweep at `now`, in their order.
pub open spec fn flow_sweep(s: Seq<(FlowKey, u64)>, now: u64) -> Seq<(FlowKey, u64)> {
    s.filter(|e: (FlowKey, u64)| is_recent(e, now))
}

/// The sweep runs only when the cache has grown past its soft limit.
pub open spec fn flow_maybe_evict(s: Seq<(FlowKey, u64)>, now: u64) -> Seq<(FlowKey, u64)> {
    if s.len() > FLOW_CACHE_SOFT_LIMIT {
        flow_sweep(s, now)
    } else {
        s
    }
}

/// Insertion of a key seen at `now`, followed by the conditional sweep.
pub open spec fn flow_record(s: Seq<(FlowKey, u64)>, k: FlowKey, now: u64) -> Seq<(FlowKey, u64)> {
    flow_maybe_evict(flow_insert(s, k, now), now)
}

pub proof fn lemma_lookup_at(s: Seq<(FlowKey, u64)>, i: int)
    requires
        keys_distinct(s),
        0 <= i < s.len(),
    ensures
        flow_lookup(s, s[i].0) == Some(s[i].1),
{
    assert(has_key(s, s[i].0));
}

pub proof fn lemma_insert_props(s: Seq<(FlowKey, u64)>, k: FlowKey, t: u64)
    requires
        keys_distinct(s),
    ensures
        keys_distinct(flow_insert(s, k, t)),
        flow_lookup(flow_insert(s, k, t), k) == Some(t),
        flow_insert(s, k, t).len() <= s.len() + 1,
{
    let r = flow_insert(s, k, t);
    if has_key(s, k) {
        let i = key_index(s, k);
        assert(r[i] == (k, t));
        lemma_lookup_at(r, i);
    } else {
        assert(r[s.len() as int] == (k, t));
        lemma_lookup_at(r, s.len() as int);
    }
}

/// Maps recently seen UDP flow keys to the millisecond they were last seen.
///
/// Not an LRU: it only bounds memory. Once an insertion leaves more than
/// `FLOW_CACHE_SOFT_LIMIT` entries, every entry older than two seconds is dropped
/// in one pass, so a burst can leave it briefly above the limit.
pub struct FlowCache {
    entries: Vec<(FlowKey, u64)>,
}

impl View for FlowCache {
    type V = Seq<(FlowKey, u64)>;

    closed spec fn view(&self) -> Seq<(FlowKey, u64)> {
        self.entries@
    }
}

impl FlowCache {
    pub open spec fn wf(&self) -> bool {
        keys_distinct(self@)
    }

    /// An empty cache.
    pub fn new() -> (r: FlowCache)
        ensures
            r.wf(),
            r@ == Seq::<(FlowKey, u64)>::empty(),
    {
        FlowCache { entries: Vec::new() }
    }

    /// Number of keys held.
    pub fn len(&self) -> (r: usize)
        ensures
            r == self@.len(),
    {
        self.entries.len()
    }

    fn find(&self, key: &FlowKey) -> (r: Option<usize>)
        requires
            self.wf(),
        ensures
            match r {
                Some(i) => i < self@.len() && self@[i as int].0 == *key && has_key(self@, *key)
                    && key_index(self@, *key) == i,
                None => !has_key(self@, *key),
            },
    {
        let n = self.entries.len();
        let mut i: usize = 0;
        while i < n
            invariant
                n == self@.len(),
                keys_distinct(self@),
                i <= n,
                forall|j: int| 0 <= j < i ==> #[trigger] self@[j].0 != *key,
            decreases n - i,
        {
            if self.entries[i].0 == *key {
                proof {
                    assert(has_key(self@, *key));
                    let c = key_index(self@, *key);
                    assert(self@[c].0 == self@[i as int].0);
                    assert(c == i);
                }
                return Some(i);
            }
            i += 1;
        }
        None
    }

    /// When `key` was last recorded, if it is held.
    pub fn lookup(&self, key: &FlowKey) -> (r: Option<u64>)
        requires
            self.wf(),
        ensures
            r == flow_lookup(self@, *key),
    {
        match self.find(key) {
            Some(i) => Some(self.entries[i].1),
            None => None,
        }
    }

    /// Records `key` as seen at `now_ms`.
    pub fn insert(&mut self, key: FlowKey, now_ms: u64)
        requires
            old(self).wf(),
        ensures
            final(self).wf(),
            final(self)@ == flow_insert(old(self)@, key, now_ms),
            flow_lookup(final(self)@, key) == Some(now_ms),
            final(self)@.len() <= old(self)@.len() + 1,
    {
        proof {
            lemma_insert_props(self@, key, now_ms);
        }
        match self.find(&key) {
            Some(i) => {
                self.entries.set(i, (key, now_ms));
            },
            None => {
                self.entries.push((key, now_ms));
            },
        }
    }

    /// Drops every entry older than two seconds, if the cache holds more than
    /// `FLOW_CACHE_SOFT_LIMIT` keys; otherwise leaves it as it is.
    pub fn maybe_evict(&mut self, now_ms: u64)
        requires
            old(self).wf(),
        ensures
            final(self).wf(),
            final(self)@ == flow_maybe_evict(old(self)@, now_ms),
            old(self)@.len() > FLOW_CACHE_SOFT_LIMIT ==> forall|i: int|
                0 <= i < final(self)@.len() ==> #[trigger] is_recent(final(self)@[i], now_ms),
            final(self)@.len() <= old(self)@.len(),
    {
        if self.entries.len() > FLOW_CACHE_SOFT_LIMIT {
            self.sweep(now_ms);
        }
    }

    fn sweep(&mut self, now_ms: u64)
        requires
            old(self).wf(),
        ensures
            final(self).wf(),
            final(self)@ == flow_sweep(old(self)@, now_ms),
            forall|i: int| 0 <= i < final(self)@.len() ==> #[trigger] is_recent(final(self)@[i], now_ms),
            final(self)@.len() <= old(self)@.len(),
    {
        let ghost s = self@;
        let ghost pred = |e: (FlowKey, u64)| is_recent(e, now_ms);
        let n = self.entries.len();
        let mut kept: Vec<(FlowKey, u64)> = Vec::new();
        let mut i: usize = 0;
        while i < n
            invariant
                n == s.len(),
                s == self@,
                pred == (|e: (FlowKey, u64)| is_recent(e, now_ms)),
                keys_distinct(s),
                i <= n,
                kept@ == s.subrange(0, i as int).filter(pred),
                forall|j: int| 0 <= j < kept@.len() ==> #[trigger] is_recent(kept@[j], now_ms),
                forall|j: int| 0 <= j < kept@.len() ==> exists|k: int| 0 <= k < i && s[k] == #[trigger] kept@[j],
                keys_distinct(kept@),
                kept@.len() <= i,
            decreases n - i,
        {
            let e = self.entries[i];
            proof {
                reveal(Seq::filter);
                assert(s.subrange(0, i as int + 1).drop_last() == s.subrange(0, i as int));
                assert(s.subrange(0, i as int + 1).last() == s[i as int]);
                assert(pred(e) == is_recent(e, now_ms));
            }
            if e.1 >= now_ms || now_ms - e.1 <= FLOW_MAX_AGE_MS {
                let ghost before = kept@;
                proof {
                    assert forall|j: int| 0 <= j < before.len() implies before[j].0 != e.0 by {
                        let k = choose|k: int| 0 <= k < i && s[k] == #[trigger] before[j];
                        assert(s[k].0 != s[i as int].0);
                    }
                }
                kept.push(e);
                proof {
                    assert forall|j: int| 0 <= j < kept@.len() implies exists|k: int|
                        0 <= k < i + 1 && s[k] == #[trigger] kept@[j] by {
                        if j == before.len() {
                            assert(s[i as int] == kept@[j]);
                        } else {
                            assert(kept@[j] == before[j]);
                        }
                    }
                    assert forall|a: int, b: int|
                        0 <= a < kept@.len() && 0 <= b < kept@.len() && a != b implies #[trigger] kept@[a].0
                        != #[trigger] kept@[b].0 by {
                        if a < before.len() && b < before.len() {
                            assert(kept@[a] == before[a] && kept@[b] == before[b]);
                        }
                    }
                }
            } else {
                proof {
                    assert forall|j: int| 0 <= j < kept@.len() implies exists|k: int|
                        0 <= k < i + 1 && s[k] == #[trigger] kept@[j] by {
                        let k = choose|k: int| 0 <= k < i && s[k] == #[trigger] kept@[j];
                    }
                }
            }
            i += 1;
        }
        proof {
            assert(s.subrange(0, n as int) == s);
        }
        self.entries = kept;
    }

    /// Records `key` as seen at `now_ms`, then sweeps if the cache has grown past
    /// its soft limit. After the call the cache holds at most one key more than
    /// before, unless a sweep ran; when one ran, nothing older than two seconds is left.
    pub fn record(&mut self, key: FlowKey, now_ms: u64)
        requires
            old(self).wf(),
        ensures
            final(self).wf(),
            final(self)@ == flow_record(old(self)@, key, now_ms),
            final(self)@.len() <= old(self)@.len() + 1,
            final(self)@.len() <= FLOW_CACHE_SOFT_LIMIT || forall|i: int|
                0 <= i < final(self)@.len() ==> #[trigger] is_recent(final(self)@[i], now_ms),
    {
        self.insert(key, now_ms);
        self.maybe_evict(now_ms);
    }
}

} // verus!

verus! {

proof fn lemma_filter_from(s: Seq<(FlowKey, u64)>, pred: spec_fn((FlowKey, u64)) -> bool)
    ensures
        forall|i: int| 0 <= i < s.filter(pred).len() ==> s.contains(#[trigger] s.filter(pred)[i]),
    decreases s.len(),
{
    reveal(Seq::filter);
    if s.len() > 0 {
        let t = s.drop_last();
        lemma_filter_from(t, pred);
        let sub = t.filter(pred);
        assert forall|i: int| 0 <= i < s.filter(pred).len() implies s.contains(
            #[trigger] s.filter(pred)[i],
        ) by {
            if i < sub.len() {
                assert(s.filter(pred)[i] == sub[i]);
                assert(t.contains(sub[i]));
                let j = choose|j: int| 0 <= j < t.len() && t[j] == sub[i];
                assert(s[j] == sub[i]);
            } else {
                assert(s.filter(pred)[i] == s[s.len() - 1]);
            }
        }
    }
}

proof fn lemma_filter_distinct(s: Seq<(FlowKey, u64)>, pred: spec_fn((FlowKey, u64)) -> bool)
    requires
        keys_distinct(s),
    ensures
        keys_distinct(s.filter(pred)),
    decreases s.len(),
{
    reveal(Seq::filter);
    if s.len() > 0 {
        let t = s.drop_last();
        assert(keys_distinct(t)) by {
            assert forall|i: int, j: int|
                0 <= i < t.len() && 0 <= j < t.len() && i != j implies #[trigger] t[i].0
                != #[trigger] t[j].0 by {
                assert(t[i] == s[i] && t[j] == s[j]);
            }
        }
        lemma_filter_distinct(t, pred);
        lemma_filter_from(t, pred);
        let sub = t.filter(pred);
        let r = s.filter(pred);
        if pred(s.last()) {
            assert forall|i: int, j: int|
                0 <= i < r.len() && 0 <= j < r.len() && i != j implies #[trigger] r[i].0
                != #[trigger] r[j].0 by {
                if i < sub.len() && j < sub.len() {
                    assert(r[i] == sub[i] && r[j] == sub[j]);
                } else if i < sub.len() {
                    assert(t.contains(sub[i]));
                    let k = choose|k: int| 0 <= k < t.len() && t[k] == sub[i];
                    assert(s[k] == r[i]);
                    assert(r[j] == s[s.len() - 1]);
                } else {
                    assert(t.contains(sub[j]));
                    let k = choose|k: int| 0 <= k < t.len() && t[k] == sub[j];
                    assert(s[k] == r[j]);
                    assert(r[i] == s[s.len() - 1]);
                }
            }
        }
    }
}

/// A recent entry survives a sweep, and stays the one its key finds.
pub proof fn lemma_sweep_keeps_recent(s: Seq<(FlowKey, u64)>, k: FlowKey, now: u64)
    requires
        keys_distinct(s),
        flow_lookup(s, k) matches Some(t) && is_recent((k, t), now),
    ensures
        keys_distinct(flow_sweep(s, now)),
        flow_lookup(flow_sweep(s, now), k) == flow_lookup(s, k),
{
    let pred = |e: (FlowKey, u64)| is_recent(e, now);
    let r = s.filter(pred);
    lemma_filter_distinct(s, pred);
    let i = key_index(s, k);
    assert(s[i] == (k, flow_lookup(s, k)->Some_0));
    s.lemma_filter_contains(pred, i);
    let j = choose|j: int| 0 <= j < r.len() && r[j] == s[i];
    lemma_lookup_at(r, j);
}

/// After recording `k` at `now`, the cache finds `k` at `now`.
pub proof fn lemma_record_then_lookup(s: Seq<(FlowKey, u64)>, k: FlowKey, now: u64)
    requires
        keys_distinct(s),
    ensures
        keys_distinct(flow_record(s, k, now)),
        flow_lookup(flow_record(s, k, now), k) == Some(now),
{
    lemma_insert_props(s, k, now);
    let m = flow_insert(s, k, now);
    if m.len() > FLOW_CACHE_SOFT_LIMIT {
        lemma_sweep_keeps_recent(m, k, now);
    }
}

/// What one recording does to the cache's size: it grows by at most the one key
/// recorded, and when that takes it past `FLOW_CACHE_SOFT_LIMIT` a sweep runs at
/// once, after which no entry is more than two seconds old. So the cache exceeds the
/// limit only by keys recorded within the last two seconds.
pub proof fn lemma_record_bounds(s: Seq<(FlowKey, u64)>, k: FlowKey, now: u64)
    requires
        keys_distinct(s),
    ensures
        flow_record(s, k, now).len() <= s.len() + 1,
        flow_record(s, k, now).len() <= FLOW_CACHE_SOFT_LIMIT || forall|i: int|
            0 <= i < flow_record(s, k, now).len() ==> #[trigger] is_recent(
                flow_record(s, k, now)[i],
                now,
            ),
{
    lemma_insert_props(s, k, now);
    let m = flow_insert(s, k, now);
    if m.len() > FLOW_CACHE_SOFT_LIMIT {
        let pred = |e: (FlowKey, u64)| is_recent(e, now);
        m.lemma_filter_len(pred);
        assert forall|i: int| 0 <= i < m.filter(pred).len() implies #[trigger] is_recent(
            m.filter(pred)[i],
            now,
        ) by {
            m.lemma_filter_pred(pred, i);
        }
    }
}

} // verus!
