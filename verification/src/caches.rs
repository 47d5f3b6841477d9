//! Bounded least-recently-used caches.  The abstract content is an ordered,
//! duplicate-free sequence whose front is the least recently inserted
//! element; inserting beyond the capacity evicts the front.

use vstd::prelude::*;

use crate::seqs::{lemma_seq_retain_props, lemma_seq_without_is_remove_idx,
    lemma_seq_without_props, lru_evicted, lru_inserted, seq_retain, seq_without};
use crate::types::{PeerId, TxHash};

verus! {

/// A bounded least-recently-used cache of transaction hashes.
#[derive(Debug)]
pub struct LruCache {
    entries: Vec<TxHash>,
    limit: usize,
}

impl View for LruCache {
    type V = Seq<TxHash>;

    closed spec fn view(&self) -> Seq<TxHash> {
        self.entries@
    }
}

impl LruCache {
    /// The capacity of the cache.
    pub closed spec fn cap(self) -> int {
        self.limit as int
    }

    /// A cache is well formed when it holds no duplicates and respects its
    /// capacity.
    pub open spec fn wf(self) -> bool {
        &&& self@.no_duplicates()
        &&& self@.len() <= self.cap()
        &&& self.cap() >= 1
    }

    /// An empty cache with the given capacity.
    pub fn new(limit: usize) -> (r: LruCache)
        requires
            limit >= 1,
        ensures
            r@ == Seq::<TxHash>::empty(),
            r.cap() == limit,
            r.wf(),
    {
        LruCache { entries: Vec::new(), limit }
    }

    /// The number of cached hashes.
    pub fn len(&self) -> (n: usize)
        ensures
            n == self@.len(),
    {
        self.entries.len()
    }

    /// Whether `h` is cached.  Does not touch recency.
    pub fn contains(&self, h: &TxHash) -> (r: bool)
        ensures
            r == self@.contains(*h),
    {
        let n = self.entries.len();
        let mut i: usize = 0;
        while i < n
            invariant
                n == self@.len(),
                0 <= i <= n,
                forall|j: int| 0 <= j < i ==> self@[j] != *h,
            decreases n - i,
        {
            if self.entries[i] == *h {
                return true;
            }
            i += 1;
        }
        false
    }

    /// The hash at position `i`, counting from the least recently used end.
    pub fn get_at(&self, i: usize) -> (h: TxHash)
        requires
            i < self@.len(),
        ensures
            h == self@[i as int],
    {
        self.entries[i]
    }

    /// Removes `h` if present; reports whether it was present.
    pub fn remove(&mut self, h: &TxHash) -> (r: bool)
        requires
            old(self).wf(),
        ensures
            r == old(self)@.contains(*h),
            final(self)@ == seq_without(old(self)@, *h),
            final(self).cap() == old(self).cap(),
            final(self).wf(),
            !final(self)@.contains(*h),
            forall|x: TxHash| x != *h ==> (final(self)@.contains(x) == old(self)@.contains(x)),
    {
        proof {
            lemma_seq_without_props(self@, *h);
        }
        let n = self.entries.len();
        let mut i: usize = 0;
        while i < n
            invariant
                self == old(self),
                n == self@.len(),
                0 <= i <= n,
                forall|j: int| 0 <= j < i ==> self@[j] != *h,
            decreases n - i,
        {
            if self.entries[i] == *h {
                proof {
                    assert(old(self)@.contains(*h));
                    lemma_seq_without_is_remove_idx(self@, i as int);
                }
                self.entries.remove(i);
                return true;
            }
            i += 1;
        }
        proof {
            assert(!self@.contains(*h));
        }
        false
    }

    /// Inserts `h` at the most-recent end; if it is new and the cache is at
    /// capacity, evicts and returns the least recently used hash.  Returns
    /// whether `h` was new together with the evicted hash.
    pub fn insert_and_get_evicted(&mut self, h: TxHash) -> (r: (bool, Option<TxHash>))
        requires
            old(self).wf(),
        ensures
            final(self)@ == lru_inserted(old(self)@, old(self).cap(), h),
            r.1 == lru_evicted(old(self)@, old(self).cap(), h),
            r.0 == !old(self)@.contains(h),
            final(self).cap() == old(self).cap(),
            final(self).wf(),
            final(self)@.contains(h),
    {
        broadcast use vstd::seq_lib::group_seq_properties;

        if self.contains(&h) {
            return (false, None);
        }
        self.entries.push(h);
        if self.entries.len() > self.limit {
            let evicted = self.entries.remove(0);
            proof {
                assert(final(self)@ =~= old(self)@.push(h).drop_first());
                assert(final(self)@.no_duplicates());
                assert(final(self)@[final(self)@.len() - 1] == h);
            }
            return (true, Some(evicted));
        }
        (true, None)
    }

}

/// A bounded least-recently-used cache of peer identifiers, used for the
/// fallback peers of a single hash.
#[derive(Debug)]
pub struct PeerCache {
    entries: Vec<PeerId>,
    limit: usize,
}

impl View for PeerCache {
    type V = Seq<PeerId>;

    closed spec fn view(&self) -> Seq<PeerId> {
        self.entries@
    }
}

impl PeerCache {
    /// The capacity of the cache.
    pub closed spec fn cap(self) -> int {
        self.limit as int
    }

    /// A cache is well formed when it holds no duplicates and respects its
    /// capacity.
    pub open spec fn wf(self) -> bool {
        &&& self@.no_duplicates()
        &&& self@.len() <= self.cap()
        &&& self.cap() >= 1
    }

    /// An empty cache with the given capacity.
    pub fn new(limit: usize) -> (r: PeerCache)
        requires
            limit >= 1,
        ensures
            r@ == Seq::<PeerId>::empty(),
            r.cap() == limit,
            r.wf(),
    {
        PeerCache { entries: Vec::new(), limit }
    }

    /// The number of cached peers.
    pub fn len(&self) -> (n: usize)
        ensures
            n == self@.len(),
    {
        self.entries.len()
    }

    /// Whether `p` is cached.  Does not touch recency.
    pub fn contains(&self, p: &PeerId) -> (r: bool)
        ensures
            r == self@.contains(*p),
    {
        let n = self.entries.len();
        let mut i: usize = 0;
        while i < n
            invariant
                n == self@.len(),
                0 <= i <= n,
                forall|j: int| 0 <= j < i ==> self@[j] != *p,
            decreases n - i,
        {
            if self.entries[i] == *p {
                return true;
            }
            i += 1;
        }
        false
    }

    /// The peer at position `i`, counting from the least recently used end.
    pub fn get_at(&self, i: usize) -> (p: PeerId)
        requires
            i < self@.len(),
        ensures
            p == self@[i as int],
    {
        self.entries[i]
    }

    /// Removes `p` if present; reports whether it was present.
    pub fn remove(&mut self, p: &PeerId) -> (r: bool)
        requires
            old(self).wf(),
        ensures
            r == old(self)@.contains(*p),
            final(self)@ == seq_without(old(self)@, *p),
            final(self).cap() == old(self).cap(),
            final(self).wf(),
            !final(self)@.contains(*p),
            forall|x: PeerId| x != *p ==> (final(self)@.contains(x) == old(self)@.contains(x)),
    {
        proof {
            lemma_seq_without_props(self@, *p);
        }
        let n = self.entries.len();
        let mut i: usize = 0;
        while i < n
            invariant
                self == old(self),
                n == self@.len(),
                0 <= i <= n,
                forall|j: int| 0 <= j < i ==> self@[j] != *p,
            decreases n - i,
        {
            if self.entries[i] == *p {
                proof {
                    assert(old(self)@.contains(*p));
                    lemma_seq_without_is_remove_idx(self@, i as int);
                }
                self.entries.remove(i);
                return true;
            }
            i += 1;
        }
        proof {
            assert(!self@.contains(*p));
        }
        false
    }

    /// Inserts `p` at the most-recent end, evicting the least recently used
    /// peer if the cache is at capacity.  Returns whether `p` was new.
    pub fn insert(&mut self, p: PeerId) -> (r: bool)
        requires
            old(self).wf(),
        ensures
            final(self)@ == lru_inserted(old(self)@, old(self).cap(), p),
            r == !old(self)@.contains(p),
            final(self).cap() == old(self).cap(),
            final(self).wf(),
            final(self)@.contains(p),
    {
        broadcast use vstd::seq_lib::group_seq_properties;

        if self.contains(&p) {
            return false;
        }
        self.entries.push(p);
        if self.entries.len() > self.limit {
            self.entries.remove(0);
            proof {
                assert(final(self)@ =~= old(self)@.push(p).drop_first());
                assert(final(self)@.no_duplicates());
                assert(final(self)@[final(self)@.len() - 1] == p);
            }
        }
        true
    }
}

/// Whether the vector holds the given peer.
pub fn peers_contain(v: &Vec<PeerId>, p: &PeerId) -> (r: bool)
    ensures
        r == v@.contains(*p),
{
    let n = v.len();
    let mut i: usize = 0;
    while i < n
        invariant
            n == v@.len(),
            0 <= i <= n,
            forall|j: int| 0 <= j < i ==> v@[j] != *p,
        decreases n - i,
    {
        if v[i] == *p {
            return true;
        }
        i += 1;
    }
    false
}

/// Whether the vector holds the given hash.
pub fn hashes_contain(v: &Vec<TxHash>, h: &TxHash) -> (r: bool)
    ensures
        r == v@.contains(*h),
{
    let n = v.len();
    let mut i: usize = 0;
    while i < n
        invariant
            n == v@.len(),
            0 <= i <= n,
            forall|j: int| 0 <= j < i ==> v@[j] != *h,
        decreases n - i,
    {
        if v[i] == *h {
            return true;
        }
        i += 1;
    }
    false
}

impl PeerCache {
    /// Keeps only the peers that occur in `keep`, preserving order and
    /// recency; used to prune peers whose sessions have ended.
    pub fn retain_present_in(&mut self, keep: &Vec<PeerId>)
        requires
            old(self).wf(),
        ensures
            final(self)@ == seq_retain(old(self)@, keep@),
            final(self).cap() == old(self).cap(),
            final(self).wf(),
    {
        proof {
            lemma_seq_retain_props(self@, keep@);
        }
        let n = self.entries.len();
        let mut kept: Vec<PeerId> = Vec::new();
        proof {
            assert(self@.skip(0) =~= self@);
            assert(Seq::<PeerId>::empty() + seq_retain(self@, keep@) =~= seq_retain(self@, keep@));
        }
        let mut i: usize = 0;
        while i < n
            invariant
                self == old(self),
                n == self@.len(),
                0 <= i <= n,
                seq_retain(self@, keep@) == kept@ + seq_retain(self@.skip(i as int), keep@),
                kept@.len() <= i,
            decreases n - i,
        {
            proof {
                assert(self@.skip(i as int)[0] == self@[i as int]);
                assert(self@.skip(i as int).drop_first() =~= self@.skip(i + 1));
            }
            if peers_contain(keep, &self.entries[i]) {
                kept.push(self.entries[i]);
                proof {
                    assert(seq_retain(self@.skip(i as int), keep@) == seq![self@[i as int]]
                        + seq_retain(self@.skip(i + 1), keep@));
                    assert(kept@ + seq_retain(self@.skip(i + 1), keep@)
                        =~= kept@.drop_last() + (seq![self@[i as int]]
                            + seq_retain(self@.skip(i + 1), keep@)));
                }
            }
            i += 1;
        }
        proof {
            assert(self@.skip(n as int) =~= Seq::<PeerId>::empty());
            assert(kept@ + seq_retain(self@.skip(n as int), keep@) =~= kept@);
        }
        self.entries = kept;
    }
}

} // verus!
