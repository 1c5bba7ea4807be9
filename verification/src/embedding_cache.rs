//! Bounded memoization of text-to-embedding lookups.
//!
//! The cache is keyed by the raw input text. Once it reaches its capacity,
//! an insert first evicts the oldest quarter of the entries by insertion
//! order (or clears a tiny cache entirely), so the size never exceeds the
//! capacity.

use vstd::prelude::*;

use crate::text::bytes_eq;

verus! {

/// Default capacity of the embedding cache.
pub const MAX_CACHE_ENTRIES: usize = 512;

/// One memoized lookup: the text, its embedding, and when it arrived.
pub struct CacheEntry {
    pub key: Vec<u8>,
    pub embedding: Vec<i64>,
    pub insert_order: u64,
}

/// Some entry carries this insertion order.
pub open spec fn has_order(entries: Seq<CacheEntry>, order: u64) -> bool {
    exists|t: int| 0 <= t < entries.len() && (#[trigger] entries[t]).insert_order == order
}

/// Some entry carries this key.
pub open spec fn has_key(entries: Seq<CacheEntry>, key: Seq<u8>) -> bool {
    exists|t: int| 0 <= t < entries.len() && (#[trigger] entries[t]).key@ == key
}

/// The text-to-embedding cache.
pub struct EmbeddingCache {
    pub entries: Vec<CacheEntry>,
    pub counter: u64,
    pub capacity: usize,
}

impl EmbeddingCache {
    /// Bounded size, unique keys, and insertion orders unique and below the
    /// counter.
    pub open spec fn wf(&self) -> bool {
        &&& self.capacity >= 1
        &&& self.entries@.len() <= self.capacity
        &&& forall|i: int, j: int|
            0 <= i < j < self.entries@.len() ==> (#[trigger] self.entries@[i]).key@ != (
            #[trigger] self.entries@[j]).key@
        &&& forall|i: int, j: int|
            0 <= i < j < self.entries@.len() ==> (#[trigger] self.entries@[i]).insert_order != (
            #[trigger] self.entries@[j]).insert_order
        &&& forall|i: int|
            0 <= i < self.entries@.len() ==> (#[trigger] self.entries@[i]).insert_order
                < self.counter || self.entries@[i].insert_order == self.counter
    }

    /// An empty cache with the default capacity.
    pub fn new() -> (r: Self)
        ensures
            r.wf(),
            r.entries@.len() == 0,
            r.counter == 0,
            r.capacity == MAX_CACHE_ENTRIES,
    {
        EmbeddingCache { entries: Vec::new(), counter: 0, capacity: MAX_CACHE_ENTRIES }
    }

    /// An empty cache with an explicit capacity.
    pub fn with_capacity(capacity: usize) -> (r: Self)
        requires
            capacity >= 1,
        ensures
            r.wf(),
            r.entries@.len() == 0,
            r.counter == 0,
            r.capacity == capacity,
    {
        EmbeddingCache { entries: Vec::new(), counter: 0, capacity }
    }

    /// The memoized embedding for `key`, if any.
    pub fn get(&self, key: &[u8]) -> (r: Option<&Vec<i64>>)
        ensures
            r is Some ==> exists|t: int|
                0 <= t < self.entries@.len() && (#[trigger] self.entries@[t]).key@ == key@
                    && r->Some_0@ == self.entries@[t].embedding@,
            r is None ==> !has_key(self.entries@, key@),
    {
        let mut i: usize = 0;
        while i < self.entries.len()
            invariant
                i <= self.entries@.len(),
                forall|t: int| 0 <= t < i ==> (#[trigger] self.entries@[t]).key@ != key@,
            decreases self.entries@.len() - i,
        {
            if bytes_eq(self.entries[i].key.as_slice(), key) {
                return Some(&self.entries[i].embedding);
            }
            i = i + 1;
        }
        None
    }

    /// Evict the oldest quarter of the entries by insertion order; a cache
    /// too small for a whole quarter is cleared.
    fn evict_oldest_quarter(&mut self)
        requires
            old(self).wf(),
        ensures
            final(self).wf(),
            final(self).capacity == old(self).capacity,
            final(self).counter == old(self).counter,
            old(self).entries@.len() / 4 == 0 ==> final(self).entries@.len() == 0,
            old(self).entries@.len() / 4 > 0 ==> final(self).entries@.len() == old(
                self,
            ).entries@.len() - old(self).entries@.len() / 4,
            forall|t: int|
                0 <= t < final(self).entries@.len() ==> old(self).entries@.contains(
                    #[trigger] final(self).entries@[t],
                ),
            forall|u: int, v: int|
                0 <= u < old(self).entries@.len() && 0 <= v < old(self).entries@.len()
                    && !has_order(final(self).entries@, (#[trigger] old(
                    self,
                ).entries@[u]).insert_order) && has_order(final(self).entries@, (#[trigger] old(
                    self,
                ).entries@[v]).insert_order) ==> old(self).entries@[u].insert_order < old(
                    self,
                ).entries@[v].insert_order,
    {
        let to_remove = self.entries.len() / 4;
        if to_remove == 0 {
            self.entries.clear();
            return;
        }
        let mut removed: usize = 0;
        proof {
            assert forall|t: int| 0 <= t < self.entries@.len() implies old(
                self,
            ).entries@.contains(#[trigger] self.entries@[t]) by {
                assert(old(self).entries@[t] == self.entries@[t]);
            }
        }
        while removed < to_remove
            invariant
                self.wf(),
                self.capacity == old(self).capacity,
                self.counter == old(self).counter,
                to_remove == old(self).entries@.len() / 4,
                to_remove <= old(self).entries@.len(),
                removed <= to_remove,
                self.entries@.len() == old(self).entries@.len() - removed,
                forall|t: int|
                    0 <= t < self.entries@.len() ==> old(self).entries@.contains(
                        #[trigger] self.entries@[t],
                    ),
                forall|u: int, v: int|
                    0 <= u < old(self).entries@.len() && 0 <= v < old(self).entries@.len()
                        && !has_order(self.entries@, (#[trigger] old(
                        self,
                    ).entries@[u]).insert_order) && has_order(self.entries@, (#[trigger] old(
                        self,
                    ).entries@[v]).insert_order) ==> old(self).entries@[u].insert_order < old(
                        self,
                    ).entries@[v].insert_order,
            decreases to_remove - removed,
        {
            let mut oldest: usize = 0;
            let mut t: usize = 1;
            while t < self.entries.len()
                invariant
                    0 < self.entries@.len(),
                    1 <= t <= self.entries@.len(),
                    oldest < t,
                    forall|v: int|
                        0 <= v < t ==> (#[trigger] self.entries@[v]).insert_order
                            >= self.entries@[oldest as int].insert_order,
                decreases self.entries@.len() - t,
            {
                if self.entries[t].insert_order < self.entries[oldest].insert_order {
                    oldest = t;
                }
                t = t + 1;
            }
            let ghost pre = self.entries@;
            let _ = self.entries.remove(oldest);
            removed = removed + 1;
            proof {
                assert forall|i: int, j: int|
                    0 <= i < j < self.entries@.len() implies (#[trigger] self.entries@[i]).key@
                    != (#[trigger] self.entries@[j]).key@ && self.entries@[i].insert_order
                    != self.entries@[j].insert_order by {
                    let ri = if i < oldest as int {
                        i
                    } else {
                        i + 1
                    };
                    let rj = if j < oldest as int {
                        j
                    } else {
                        j + 1
                    };
                    assert(self.entries@[i] == pre[ri]);
                    assert(self.entries@[j] == pre[rj]);
                }
                assert forall|t2: int| 0 <= t2 < self.entries@.len() implies old(
                    self,
                ).entries@.contains(#[trigger] self.entries@[t2]) by {
                    let rt = if t2 < oldest as int {
                        t2
                    } else {
                        t2 + 1
                    };
                    assert(self.entries@[t2] == pre[rt]);
                    assert(pre.contains(pre[rt]));
                }
                assert forall|u: int, v: int|
                    0 <= u < old(self).entries@.len() && 0 <= v < old(self).entries@.len()
                        && !has_order(self.entries@, (#[trigger] old(
                        self,
                    ).entries@[u]).insert_order) && has_order(self.entries@, (#[trigger] old(
                        self,
                    ).entries@[v]).insert_order) implies old(self).entries@[u].insert_order < old(
                        self,
                    ).entries@[v].insert_order by {
                    if has_order(pre, old(self).entries@[u].insert_order) {
                        let pu = choose|p: int|
                            0 <= p < pre.len() && (#[trigger] pre[p]).insert_order == old(
                                self,
                            ).entries@[u].insert_order;
                        if pu != oldest as int {
                            let st = if pu < oldest as int {
                                pu
                            } else {
                                pu - 1
                            };
                            assert(self.entries@[st] == pre[pu]);
                            assert(has_order(self.entries@, old(self).entries@[u].insert_order));
                            assert(false);
                        }
                        let qv = choose|p: int|
                            0 <= p < self.entries@.len() && (
                            #[trigger] self.entries@[p]).insert_order == old(
                                self,
                            ).entries@[v].insert_order;
                        let rv = if qv < oldest as int {
                            qv
                        } else {
                            qv + 1
                        };
                        assert(self.entries@[qv] == pre[rv]);
                        assert(pre[rv].insert_order >= pre[oldest as int].insert_order);
                        assert(rv != oldest as int);
                    }
                }
            }
        }
    }

    /// Memoize `embedding` for `key`, evicting the oldest quarter first when
    /// the cache is full; an existing entry under `key` is replaced. The
    /// size never exceeds the capacity, and when the keys are fresh the
    /// eviction removes exactly a quarter.
    pub fn insert(&mut self, key: Vec<u8>, embedding: Vec<i64>)
        requires
            old(self).wf(),
            old(self).counter < u64::MAX,
        ensures
            final(self).wf(),
            final(self).capacity == old(self).capacity,
            final(self).counter == old(self).counter + 1,
            final(self).entries@.len() <= final(self).capacity,
            exists|t: int|
                0 <= t < final(self).entries@.len() && (#[trigger] final(self).entries@[t]).key@ == key@ && final(self).entries@[t].embedding@ == embedding@
                    && final(self).entries@[t].insert_order == old(self).counter + 1,
            old(self).entries@.len() >= old(self).capacity && old(self).entries@.len() / 4 > 0
                && !has_key(old(self).entries@, key@) ==> final(self).entries@.len() == old(
                self,
            ).entries@.len() - old(self).entries@.len() / 4 + 1,
            old(self).entries@.len() < old(self).capacity && !has_key(old(self).entries@, key@)
                ==> final(self).entries@.len() == old(self).entries@.len() + 1,
            old(self).entries@.len() >= old(self).capacity ==> (forall|u: int, v: int|
                0 <= u < old(self).entries@.len() && 0 <= v < old(self).entries@.len()
                    && !has_order(final(self).entries@, (#[trigger] old(
                    self,
                ).entries@[u]).insert_order) && has_order(final(self).entries@, (#[trigger] old(
                    self,
                ).entries@[v]).insert_order) && old(self).entries@[u].key@ != key@ && old(
                    self,
                ).entries@[v].key@ != key@ ==> old(self).entries@[u].insert_order < old(
                    self,
                ).entries@[v].insert_order),
    {
        if self.entries.len() >= self.capacity {
            self.evict_oldest_quarter();
        }
        let ghost mid = self.entries@;
        let ghost mid_counter = self.counter;
        proof {
            assert(forall|t: int|
                0 <= t < mid.len() ==> (#[trigger] mid[t]).insert_order <= mid_counter);
        }
        self.counter = self.counter + 1;
        let entry = CacheEntry { key, embedding, insert_order: self.counter };
        let mut i: usize = 0;
        let mut found: Option<usize> = None;
        while i < self.entries.len()
            invariant
                i <= self.entries@.len(),
                match found {
                    Some(f) => f < self.entries@.len() && self.entries@[f as int].key@
                        == entry.key@,
                    None => forall|t: int|
                        0 <= t < i ==> (#[trigger] self.entries@[t]).key@ != entry.key@,
                },
                i == self.entries@.len() ==> (found is Some || forall|t: int|
                    0 <= t < self.entries@.len() ==> (#[trigger] self.entries@[t]).key@
                        != entry.key@),
                entry.key@ == key@,
                self.entries@ == mid,
            decreases self.entries@.len() - i,
        {
            if found.is_none() && bytes_eq(self.entries[i].key.as_slice(), entry.key.as_slice()) {
                found = Some(i);
            }
            i = i + 1;
        }
        let ghost pre = self.entries@;
        match found {
            Some(f) => {
                let _ = self.entries.remove(f);
                self.entries.insert(f, entry);
                proof {
                    assert(self.entries@ =~= pre.update(f as int, self.entries@[f as int]));
                    assert forall|a: int, b: int|
                        0 <= a < b < self.entries@.len() implies (
                    #[trigger] self.entries@[a]).key@ != (#[trigger] self.entries@[b]).key@ && (
                    self.entries@[a]).insert_order != (self.entries@[b]).insert_order by {
                        assert(self.entries@[f as int].key@ == key@ && self.entries@[
                        f as int].insert_order == mid_counter + 1);
                        if a != f as int && b != f as int {
                            assert(self.entries@[a] == pre[a]);
                            assert(self.entries@[b] == pre[b]);
                        } else if a == f as int {
                            assert(self.entries@[b] == pre[b]);
                            assert(pre[b].key@ != pre[f as int].key@);
                            assert(pre[b].insert_order <= mid_counter);
                        } else {
                            assert(self.entries@[a] == pre[a]);
                            assert(pre[a].key@ != pre[f as int].key@);
                            assert(pre[a].insert_order <= mid_counter);
                        }
                    }
                }
            },
            None => {
                proof {
                    assert(forall|t: int|
                        0 <= t < self.entries@.len() ==> (#[trigger] self.entries@[t]).key@
                            != key@);
                }
                self.entries.push(entry);
                proof {
                    assert forall|a: int, b: int|
                        0 <= a < b < self.entries@.len() implies (
                    #[trigger] self.entries@[a]).key@ != (#[trigger] self.entries@[b]).key@ && (
                    self.entries@[a]).insert_order != (self.entries@[b]).insert_order by {
                        if b == self.entries@.len() - 1 {
                            assert(self.entries@[a] == pre[a]);
                            assert(self.entries@[b].key@ == key@ && self.entries@[
                            b].insert_order == mid_counter + 1);
                            assert(pre[a].key@ != key@);
                            assert(pre[a].insert_order <= mid_counter);
                        } else {
                            assert(self.entries@[a] == pre[a]);
                            assert(self.entries@[b] == pre[b]);
                        }
                    }
                }
            },
        }
        proof {
            let fin = self.entries@;
            match found {
                Some(f) => {
                    assert(fin[f as int].key@ == key@ && fin[f as int].insert_order
                        == self.counter);
                },
                None => {
                    assert(fin[fin.len() - 1].key@ == key@ && fin[fin.len() - 1].insert_order
                        == self.counter);
                },
            }
            if old(self).entries@.len() >= old(self).capacity {
                assert forall|u: int, v: int|
                    0 <= u < old(self).entries@.len() && 0 <= v < old(self).entries@.len()
                        && !has_order(fin, (#[trigger] old(self).entries@[u]).insert_order)
                        && has_order(fin, (#[trigger] old(self).entries@[v]).insert_order) && old(
                        self,
                    ).entries@[u].key@ != key@ && old(self).entries@[v].key@ != key@ implies old(
                        self,
                    ).entries@[u].insert_order < old(self).entries@[v].insert_order by {
                    let ou = old(self).entries@[u].insert_order;
                    let ov = old(self).entries@[v].insert_order;
                    if has_order(mid, ou) {
                        let p = choose|p: int|
                            0 <= p < mid.len() && (#[trigger] mid[p]).insert_order == ou;
                        match found {
                            Some(f) => {
                                if p == f as int {
                                    assert(old(self).entries@.contains(mid[p]));
                                    let w = choose|w: int|
                                        0 <= w < old(self).entries@.len() && (#[trigger] old(
                                            self,
                                        ).entries@[w]) == mid[p];
                                    assert(old(self).entries@[w].insert_order == ou);
                                    assert(w == u);
                                    assert(mid[p].key@ == key@);
                                    assert(false);
                                } else {
                                    assert(fin[p] == mid[p]);
                                    assert(has_order(fin, ou));
                                    assert(false);
                                }
                            },
                            None => {
                                assert(fin[p] == mid[p]);
                                assert(has_order(fin, ou));
                                assert(false);
                            },
                        }
                    }
                    let qv = choose|q: int|
                        0 <= q < fin.len() && (#[trigger] fin[q]).insert_order == ov;
                    assert(ov <= mid_counter);
                    match found {
                        Some(f) => {
                            if qv == f as int {
                                assert(fin[qv].insert_order == self.counter);
                                assert(false);
                            }
                            assert(fin[qv] == mid[qv]);
                            assert(has_order(mid, ov));
                        },
                        None => {
                            if qv == fin.len() - 1 {
                                assert(fin[qv].insert_order == self.counter);
                                assert(false);
                            }
                            assert(fin[qv] == mid[qv]);
                            assert(has_order(mid, ov));
                        },
                    }
                }
            }
        }
    }
}

} // verus!
