//! Association-list maps with mathematical `Map` views: the unknown-hash
//! table, the announced-size table and the active-peer table.  None of them
//! tracks recency; the unknown-hash and announced-size tables are unbounded,
//! the active-peer table is bounded by the global concurrency limit.

use vstd::prelude::*;
use vstd::map::*;

use crate::caches::PeerCache;
use crate::seqs::{lru_inserted, seq_retain, seq_without};
use crate::types::{PeerId, TxHash, MAX_ALTERNATIVE_PEERS_PER_TX};

verus! {

/// What the fetcher records about one hash it is trying to obtain: how many
/// failed request attempts were made for it, and which peers have announced
/// it and may serve as alternative request targets.
#[derive(Debug)]
pub struct UnknownEntry {
    pub retries: u8,
    pub peers: PeerCache,
}

/// The abstract content of an [`UnknownEntry`].
pub struct EntryView {
    pub retries: u8,
    pub peers: Seq<PeerId>,
}

/// The abstract content of one entry.
pub open spec fn entry_view(e: UnknownEntry) -> EntryView {
    EntryView { retries: e.retries, peers: e.peers@ }
}

/// Whether some pair of the association list has key `k`.
pub open spec fn ukey_in(s: Seq<(TxHash, UnknownEntry)>, k: TxHash) -> bool {
    exists|i: int| 0 <= i < s.len() && s[i].0 == k
}

/// Whether the keys of the association list are pairwise distinct.
pub open spec fn unique_ukeys(s: Seq<(TxHash, UnknownEntry)>) -> bool {
    forall|i: int, j: int| 0 <= i < j < s.len() ==> s[i].0 != s[j].0
}

/// The map described by the association list; a later pair wins, though with
/// distinct keys the question does not arise.
pub open spec fn umap_of(s: Seq<(TxHash, UnknownEntry)>) -> Map<TxHash, EntryView>
    decreases s.len(),
{
    if s.len() == 0 {
        Map::empty()
    } else {
        umap_of(s.drop_last()).insert(s.last().0, entry_view(s.last().1))
    }
}

proof fn lemma_umap_dom(s: Seq<(TxHash, UnknownEntry)>)
    ensures
        forall|k: TxHash| umap_of(s).contains_key(k) == ukey_in(s, k),
    decreases s.len(),
{
    broadcast use vstd::seq_lib::group_seq_properties;

    if s.len() > 0 {
        lemma_umap_dom(s.drop_last());
        assert forall|k: TxHash| umap_of(s).contains_key(k) == ukey_in(s, k) by {
            if umap_of(s).contains_key(k) {
                if k == s.last().0 {
                    assert(s[s.len() - 1].0 == k);
                    assert(ukey_in(s, k));
                } else {
                    assert(umap_of(s.drop_last()).contains_key(k));
                    assert(ukey_in(s.drop_last(), k));
                    let i = choose|i: int|
                        0 <= i < s.drop_last().len() && s.drop_last()[i].0 == k;
                    assert(s.drop_last()[i] == s[i]);
                    assert(s[i].0 == k);
                    assert(ukey_in(s, k));
                }
            }
            if ukey_in(s, k) {
                let i = choose|i: int| 0 <= i < s.len() && s[i].0 == k;
                if i < s.len() - 1 {
                    assert(s.drop_last()[i] == s[i]);
                    assert(s.drop_last()[i].0 == k);
                    assert(ukey_in(s.drop_last(), k));
                    assert(umap_of(s).contains_key(k));
                } else {
                    assert(k == s.last().0);
                    assert(umap_of(s).contains_key(k));
                }
            }
        }
    }
}

proof fn lemma_umap_get(s: Seq<(TxHash, UnknownEntry)>, i: int)
    requires
        unique_ukeys(s),
        0 <= i < s.len(),
    ensures
        umap_of(s).contains_key(s[i].0),
        umap_of(s)[s[i].0] == entry_view(s[i].1),
    decreases s.len(),
{
    broadcast use vstd::seq_lib::group_seq_properties;

    lemma_umap_dom(s);
    if i < s.len() - 1 {
        assert(s.drop_last()[i] == s[i]);
        lemma_umap_get(s.drop_last(), i);
        assert(s[i].0 != s.last().0);
    }
}

proof fn lemma_umap_push(s: Seq<(TxHash, UnknownEntry)>, k: TxHash, v: UnknownEntry)
    ensures
        umap_of(s.push((k, v))) == umap_of(s).insert(k, entry_view(v)),
        !ukey_in(s, k) && unique_ukeys(s) ==> unique_ukeys(s.push((k, v))),
    decreases s.len(),
{
    broadcast use vstd::seq_lib::group_seq_properties;

    let t = s.push((k, v));
    assert(t.drop_last() =~= s);
    assert(t.last() == (k, v));
    if !ukey_in(s, k) && unique_ukeys(s) {
        assert forall|i: int, j: int| 0 <= i < j < t.len() implies t[i].0 != t[j].0 by {
            if j == t.len() - 1 {
                assert(s[i].0 == t[i].0);
            }
        }
    }
}

proof fn lemma_umap_remove(s: Seq<(TxHash, UnknownEntry)>, i: int)
    requires
        unique_ukeys(s),
        0 <= i < s.len(),
    ensures
        umap_of(s.remove(i)) == umap_of(s).remove(s[i].0),
        unique_ukeys(s.remove(i)),
        !ukey_in(s.remove(i), s[i].0),
    decreases s.len(),
{
    broadcast use vstd::seq_lib::group_seq_properties;

    lemma_umap_dom(s);
    lemma_umap_dom(s.remove(i));
    let k = s[i].0;
    s.remove_ensures(i);
    assert forall|a: int, b: int| 0 <= a < b < s.remove(i).len() implies s.remove(i)[a].0
        != s.remove(i)[b].0 by {
        assert(s.remove(i)[a] == (if a < i { s[a] } else { s[a + 1] }));
        assert(s.remove(i)[b] == (if b < i { s[b] } else { s[b + 1] }));
    }
    assert forall|a: int| 0 <= a < s.remove(i).len() implies s.remove(i)[a].0 != k by {
        assert(s.remove(i)[a] == (if a < i { s[a] } else { s[a + 1] }));
    }
    if i == s.len() - 1 {
        assert(s.remove(i) =~= s.drop_last());
        lemma_umap_dom(s.drop_last());
        assert(!ukey_in(s.drop_last(), k)) by {
            if ukey_in(s.drop_last(), k) {
                let a = choose|a: int| 0 <= a < s.drop_last().len() && s.drop_last()[a].0 == k;
                assert(s.drop_last()[a] == s[a]);
            }
        }
        assert(!umap_of(s.drop_last()).contains_key(k));
        assert(umap_of(s.drop_last()) =~= umap_of(s).remove(k));
    } else {
        assert(s.remove(i).drop_last() =~= s.drop_last().remove(i));
        assert(s.remove(i).last() == s.last());
        assert(s.drop_last()[i] == s[i]);
        assert forall|a: int, b: int| 0 <= a < b < s.drop_last().len() implies s.drop_last()[a].0
            != s.drop_last()[b].0 by {
            assert(s.drop_last()[a] == s[a] && s.drop_last()[b] == s[b]);
        }
        lemma_umap_remove(s.drop_last(), i);
        assert(umap_of(s.remove(i)) == umap_of(s.drop_last()).remove(k).insert(
            s.last().0,
            entry_view(s.last().1),
        ));
        assert(k != s.last().0);
        assert(umap_of(s.drop_last()).remove(k).insert(s.last().0, entry_view(s.last().1))
            =~= umap_of(s).remove(k));
    }
}

/// The table of hashes the fetcher is currently trying to obtain, mapping
/// each to its retry count and fallback peers.  Unbounded.
#[derive(Debug)]
pub struct UnknownMap {
    entries: Vec<(TxHash, UnknownEntry)>,
}

impl View for UnknownMap {
    type V = Map<TxHash, EntryView>;

    closed spec fn view(&self) -> Map<TxHash, EntryView> {
        umap_of(self.entries@)
    }
}

impl UnknownMap {
    /// The table is well formed when its keys are distinct and every
    /// fallback-peer cache is well formed with the fixed fallback capacity.
    pub closed spec fn wf(self) -> bool {
        &&& unique_ukeys(self.entries@)
        &&& forall|i: int|
            0 <= i < self.entries@.len() ==> (#[trigger] self.entries@[i].1.peers.wf()
                && self.entries@[i].1.peers.cap() == MAX_ALTERNATIVE_PEERS_PER_TX as int)
    }

    /// An empty table.
    pub fn new() -> (r: UnknownMap)
        ensures
            r@ == Map::<TxHash, EntryView>::empty(),
            r.wf(),
    {
        UnknownMap { entries: Vec::new() }
    }

    fn find(&self, h: &TxHash) -> (r: Option<usize>)
        ensures
            match r {
                Some(i) => i < self.entries@.len() && self.entries@[i as int].0 == *h
                    && self@.contains_key(*h),
                None => !self@.contains_key(*h),
            },
    {
        proof {
            lemma_umap_dom(self.entries@);
        }
        let n = self.entries.len();
        let mut i: usize = 0;
        while i < n
            invariant
                n == self.entries@.len(),
                0 <= i <= n,
                forall|j: int| 0 <= j < i ==> self.entries@[j].0 != *h,
            decreases n - i,
        {
            if self.entries[i].0 == *h {
                proof {
                    assert(ukey_in(self.entries@, *h));
                }
                return Some(i);
            }
            i += 1;
        }
        proof {
            assert(!ukey_in(self.entries@, *h)) by {
                if ukey_in(self.entries@, *h) {
                    let j = choose|j: int|
                        0 <= j < self.entries@.len() && self.entries@[j].0 == *h;
                }
            }
        }
        None
    }

    /// Whether `h` is tracked.
    pub fn contains(&self, h: &TxHash) -> (r: bool)
        ensures
            r == self@.contains_key(*h),
    {
        self.find(h).is_some()
    }

    /// The retry count recorded for `h`.
    pub fn retries(&self, h: &TxHash) -> (r: u8)
        requires
            self.wf(),
            self@.contains_key(*h),
        ensures
            r == self@[*h].retries,
    {
        let i = self.find(h).unwrap();
        proof {
            lemma_umap_get(self.entries@, i as int);
        }
        self.entries[i].1.retries
    }

    /// The number of fallback peers recorded for `h`.
    pub fn fallback_len(&self, h: &TxHash) -> (n: usize)
        requires
            self.wf(),
            self@.contains_key(*h),
        ensures
            n == self@[*h].peers.len(),
    {
        let i = self.find(h).unwrap();
        proof {
            lemma_umap_get(self.entries@, i as int);
        }
        self.entries[i].1.peers.len()
    }

    /// The fallback peer of `h` at position `j`, counting from the least
    /// recently inserted end.
    pub fn fallback_at(&self, h: &TxHash, j: usize) -> (p: PeerId)
        requires
            self.wf(),
            self@.contains_key(*h),
            j < self@[*h].peers.len(),
        ensures
            p == self@[*h].peers[j as int],
    {
        let i = self.find(h).unwrap();
        proof {
            lemma_umap_get(self.entries@, i as int);
        }
        self.entries[i].1.peers.get_at(j)
    }

    /// Whether `p` is recorded as a fallback peer for `h`.
    pub fn fallback_contains(&self, h: &TxHash, p: &PeerId) -> (r: bool)
        requires
            self.wf(),
            self@.contains_key(*h),
        ensures
            r == self@[*h].peers.contains(*p),
    {
        let i = self.find(h).unwrap();
        proof {
            lemma_umap_get(self.entries@, i as int);
        }
        self.entries[i].1.peers.contains(p)
    }

    /// Starts tracking `h` with no retries and no fallback peers.
    pub fn insert_new(&mut self, h: TxHash) -> (r: bool)
        requires
            old(self).wf(),
        ensures
            r == !old(self)@.contains_key(h),
            r ==> final(self)@ == old(self)@.insert(
                h,
                EntryView { retries: 0, peers: Seq::empty() },
            ),
            !r ==> *final(self) == *old(self),
            final(self).wf(),
    {
        if self.contains(&h) {
            return false;
        }
        let peers = PeerCache::new(MAX_ALTERNATIVE_PEERS_PER_TX as usize);
        let entry = UnknownEntry { retries: 0, peers };
        proof {
            lemma_umap_dom(self.entries@);
            lemma_umap_push(self.entries@, h, entry);
        }
        let ghost pre = self.entries@;
        self.entries.push((h, entry));
        proof {
            assert forall|j: int| 0 <= j < self.entries@.len() implies
                (#[trigger] self.entries@[j].1.peers.wf()
                    && self.entries@[j].1.peers.cap() == MAX_ALTERNATIVE_PEERS_PER_TX as int) by {
                if j < pre.len() {
                    assert(self.entries@[j] == pre[j]);
                    assert(pre[j].1.peers.wf());
                }
            }
        }
        true
    }

    /// Stops tracking `h`; a no-op if `h` is not tracked.
    pub fn remove(&mut self, h: &TxHash)
        requires
            old(self).wf(),
        ensures
            final(self)@ == old(self)@.remove(*h),
            final(self).wf(),
    {
        proof {
            lemma_umap_dom(self.entries@);
        }
        match self.find(h) {
            Some(i) => {
                proof {
                    lemma_umap_remove(self.entries@, i as int);
                }
                let ghost pre = self.entries@;
                self.entries.remove(i);
                proof {
                    assert forall|j: int| 0 <= j < self.entries@.len() implies
                        (#[trigger] self.entries@[j].1.peers.wf()
                            && self.entries@[j].1.peers.cap()
                                == MAX_ALTERNATIVE_PEERS_PER_TX as int) by {
                        assert(self.entries@[j] == (if j < i { pre[j] } else { pre[j + 1] }));
                    }
                }
            },
            None => {
                proof {
                    assert(final(self)@ =~= old(self)@.remove(*h));
                }
            },
        }
    }

    /// Takes the entry of `h` out of the table.
    fn take(&mut self, h: &TxHash) -> (r: UnknownEntry)
        requires
            old(self).wf(),
            old(self)@.contains_key(*h),
        ensures
            entry_view(r) == old(self)@[*h],
            r.peers.wf(),
            r.peers.cap() == MAX_ALTERNATIVE_PEERS_PER_TX as int,
            final(self)@ == old(self)@.remove(*h),
            final(self).wf(),
    {
        let i = self.find(h).unwrap();
        proof {
            lemma_umap_get(self.entries@, i as int);
            lemma_umap_remove(self.entries@, i as int);
            assert(self.entries@[i as int].1.peers.wf());
        }
        let ghost pre = self.entries@;
        let ghost gi = i as int;
        let (_, e) = self.entries.remove(i);
        proof {
            assert forall|j: int| 0 <= j < self.entries@.len() implies
                (#[trigger] self.entries@[j].1.peers.wf()
                    && self.entries@[j].1.peers.cap() == MAX_ALTERNATIVE_PEERS_PER_TX as int) by {
                assert(self.entries@[j] == (if j < gi { pre[j] } else { pre[j + 1] }));
            }
        }
        e
    }

    /// Puts an entry for `h` back into the table.
    fn put(&mut self, h: TxHash, e: UnknownEntry)
        requires
            old(self).wf(),
            !old(self)@.contains_key(h),
            e.peers.wf(),
            e.peers.cap() == MAX_ALTERNATIVE_PEERS_PER_TX as int,
        ensures
            final(self)@ == old(self)@.insert(h, entry_view(e)),
            final(self).wf(),
    {
        proof {
            lemma_umap_dom(self.entries@);
            lemma_umap_push(self.entries@, h, e);
        }
        let ghost pre = self.entries@;
        self.entries.push((h, e));
        proof {
            assert forall|j: int| 0 <= j < self.entries@.len() implies
                (#[trigger] self.entries@[j].1.peers.wf()
                    && self.entries@[j].1.peers.cap() == MAX_ALTERNATIVE_PEERS_PER_TX as int) by {
                if j < pre.len() {
                    assert(self.entries@[j] == pre[j]);
                    assert(pre[j].1.peers.wf());
                }
            }
        }
    }

    /// Increments the retry count of `h`.
    pub fn increment_retries(&mut self, h: &TxHash)
        requires
            old(self).wf(),
            old(self)@.contains_key(*h),
            old(self)@[*h].retries < 255,
        ensures
            final(self)@ == old(self)@.insert(
                *h,
                EntryView {
                    retries: (old(self)@[*h].retries + 1) as u8,
                    peers: old(self)@[*h].peers,
                },
            ),
            final(self).wf(),
    {
        let mut e = self.take(h);
        e.retries = e.retries + 1;
        self.put(*h, e);
        proof {
            assert(final(self)@ =~= old(self)@.insert(
                *h,
                EntryView {
                    retries: (old(self)@[*h].retries + 1) as u8,
                    peers: old(self)@[*h].peers,
                },
            ));
        }
    }

    /// Records `p` as a fallback peer of `h`, evicting the least recently
    /// inserted fallback peer if the cache is full.
    pub fn add_fallback(&mut self, h: &TxHash, p: PeerId)
        requires
            old(self).wf(),
            old(self)@.contains_key(*h),
        ensures
            final(self)@ == old(self)@.insert(
                *h,
                EntryView {
                    retries: old(self)@[*h].retries,
                    peers: lru_inserted(
                        old(self)@[*h].peers,
                        MAX_ALTERNATIVE_PEERS_PER_TX as int,
                        p,
                    ),
                },
            ),
            final(self).wf(),
    {
        let mut e = self.take(h);
        e.peers.insert(p);
        self.put(*h, e);
        proof {
            assert(final(self)@ =~= old(self)@.insert(
                *h,
                EntryView {
                    retries: old(self)@[*h].retries,
                    peers: lru_inserted(
                        old(self)@[*h].peers,
                        MAX_ALTERNATIVE_PEERS_PER_TX as int,
                        p,
                    ),
                },
            ));
        }
    }

    /// Unregisters `p` as a fallback peer of `h`; reports whether it was
    /// registered.
    pub fn remove_fallback(&mut self, h: &TxHash, p: &PeerId) -> (r: bool)
        requires
            old(self).wf(),
            old(self)@.contains_key(*h),
        ensures
            r == old(self)@[*h].peers.contains(*p),
            final(self)@ == old(self)@.insert(
                *h,
                EntryView {
                    retries: old(self)@[*h].retries,
                    peers: seq_without(old(self)@[*h].peers, *p),
                },
            ),
            final(self).wf(),
    {
        let mut e = self.take(h);
        let was = e.peers.remove(p);
        self.put(*h, e);
        proof {
            assert(final(self)@ =~= old(self)@.insert(
                *h,
                EntryView {
                    retries: old(self)@[*h].retries,
                    peers: seq_without(old(self)@[*h].peers, *p),
                },
            ));
        }
        was
    }

    /// Drops every fallback peer of `h` whose session has ended, i.e. who
    /// does not occur in `sessions`.
    pub fn prune_fallback(&mut self, h: &TxHash, sessions: &Vec<PeerId>)
        requires
            old(self).wf(),
            old(self)@.contains_key(*h),
        ensures
            final(self)@ == old(self)@.insert(
                *h,
                EntryView {
                    retries: old(self)@[*h].retries,
                    peers: seq_retain(old(self)@[*h].peers, sessions@),
                },
            ),
            final(self).wf(),
    {
        let mut e = self.take(h);
        e.peers.retain_present_in(sessions);
        self.put(*h, e);
        proof {
            assert(final(self)@ =~= old(self)@.insert(
                *h,
                EntryView {
                    retries: old(self)@[*h].retries,
                    peers: seq_retain(old(self)@[*h].peers, sessions@),
                },
            ));
        }
    }
}

/// Whether some pair of an association list has key `k`.
pub open spec fn akey_in<K, V>(s: Seq<(K, V)>, k: K) -> bool {
    exists|i: int| 0 <= i < s.len() && s[i].0 == k
}

/// Whether the keys of an association list are pairwise distinct.
pub open spec fn unique_akeys<K, V>(s: Seq<(K, V)>) -> bool {
    forall|i: int, j: int| 0 <= i < j < s.len() ==> s[i].0 != s[j].0
}

/// The map described by an association list; a later pair wins, though with
/// distinct keys the question does not arise.
pub open spec fn amap_of<K, V>(s: Seq<(K, V)>) -> Map<K, V>
    decreases s.len(),
{
    if s.len() == 0 {
        Map::empty()
    } else {
        amap_of(s.drop_last()).insert(s.last().0, s.last().1)
    }
}

proof fn lemma_amap_dom<K, V>(s: Seq<(K, V)>)
    ensures
        forall|k: K| amap_of(s).contains_key(k) == akey_in(s, k),
        amap_of(s).dom().finite(),
    decreases s.len(),
{
    broadcast use vstd::seq_lib::group_seq_properties;

    if s.len() > 0 {
        lemma_amap_dom(s.drop_last());
        assert forall|k: K| amap_of(s).contains_key(k) == akey_in(s, k) by {
            if amap_of(s).contains_key(k) {
                if k == s.last().0 {
                    assert(s[s.len() - 1].0 == k);
                    assert(akey_in(s, k));
                } else {
                    assert(akey_in(s.drop_last(), k));
                    let i = choose|i: int|
                        0 <= i < s.drop_last().len() && s.drop_last()[i].0 == k;
                    assert(s.drop_last()[i] == s[i]);
                    assert(s[i].0 == k);
                    assert(akey_in(s, k));
                }
            }
            if akey_in(s, k) {
                let i = choose|i: int| 0 <= i < s.len() && s[i].0 == k;
                if i < s.len() - 1 {
                    assert(s.drop_last()[i] == s[i]);
                    assert(s.drop_last()[i].0 == k);
                    assert(akey_in(s.drop_last(), k));
                    assert(amap_of(s).contains_key(k));
                } else {
                    assert(k == s.last().0);
                    assert(amap_of(s).contains_key(k));
                }
            }
        }
    }
}

proof fn lemma_amap_get<K, V>(s: Seq<(K, V)>, i: int)
    requires
        unique_akeys(s),
        0 <= i < s.len(),
    ensures
        amap_of(s).contains_key(s[i].0),
        amap_of(s)[s[i].0] == s[i].1,
    decreases s.len(),
{
    broadcast use vstd::seq_lib::group_seq_properties;

    lemma_amap_dom(s);
    if i < s.len() - 1 {
        assert(s.drop_last()[i] == s[i]);
        lemma_amap_get(s.drop_last(), i);
        assert(s[i].0 != s.last().0);
    }
}

proof fn lemma_amap_push<K, V>(s: Seq<(K, V)>, k: K, v: V)
    ensures
        amap_of(s.push((k, v))) == amap_of(s).insert(k, v),
        !akey_in(s, k) && unique_akeys(s) ==> unique_akeys(s.push((k, v))),
    decreases s.len(),
{
    broadcast use vstd::seq_lib::group_seq_properties;

    let t = s.push((k, v));
    assert(t.drop_last() =~= s);
    assert(t.last() == (k, v));
    if !akey_in(s, k) && unique_akeys(s) {
        assert forall|i: int, j: int| 0 <= i < j < t.len() implies t[i].0 != t[j].0 by {
            if j == t.len() - 1 {
                assert(s[i].0 == t[i].0);
            }
        }
    }
}

proof fn lemma_amap_remove<K, V>(s: Seq<(K, V)>, i: int)
    requires
        unique_akeys(s),
        0 <= i < s.len(),
    ensures
        amap_of(s.remove(i)) == amap_of(s).remove(s[i].0),
        unique_akeys(s.remove(i)),
        !akey_in(s.remove(i), s[i].0),
    decreases s.len(),
{
    broadcast use vstd::seq_lib::group_seq_properties;

    lemma_amap_dom(s);
    lemma_amap_dom(s.remove(i));
    let k = s[i].0;
    s.remove_ensures(i);
    assert forall|a: int, b: int| 0 <= a < b < s.remove(i).len() implies s.remove(i)[a].0
        != s.remove(i)[b].0 by {
        assert(s.remove(i)[a] == (if a < i { s[a] } else { s[a + 1] }));
        assert(s.remove(i)[b] == (if b < i { s[b] } else { s[b + 1] }));
    }
    assert forall|a: int| 0 <= a < s.remove(i).len() implies s.remove(i)[a].0 != k by {
        assert(s.remove(i)[a] == (if a < i { s[a] } else { s[a + 1] }));
    }
    if i == s.len() - 1 {
        assert(s.remove(i) =~= s.drop_last());
        lemma_amap_dom(s.drop_last());
        assert(!akey_in(s.drop_last(), k)) by {
            if akey_in(s.drop_last(), k) {
                let a = choose|a: int| 0 <= a < s.drop_last().len() && s.drop_last()[a].0 == k;
                assert(s.drop_last()[a] == s[a]);
            }
        }
        assert(!amap_of(s.drop_last()).contains_key(k));
        assert(amap_of(s.drop_last()) =~= amap_of(s).remove(k));
    } else {
        assert(s.remove(i).drop_last() =~= s.drop_last().remove(i));
        assert(s.remove(i).last() == s.last());
        assert(s.drop_last()[i] == s[i]);
        assert forall|a: int, b: int| 0 <= a < b < s.drop_last().len() implies s.drop_last()[a].0
            != s.drop_last()[b].0 by {
            assert(s.drop_last()[a] == s[a] && s.drop_last()[b] == s[b]);
        }
        lemma_amap_remove(s.drop_last(), i);
        assert(amap_of(s.remove(i)) == amap_of(s.drop_last()).remove(k).insert(
            s.last().0,
            s.last().1,
        ));
        assert(k != s.last().0);
        assert(amap_of(s.drop_last()).remove(k).insert(s.last().0, s.last().1)
            =~= amap_of(s).remove(k));
    }
}

proof fn lemma_amap_len<K, V>(s: Seq<(K, V)>)
    requires
        unique_akeys(s),
    ensures
        amap_of(s).dom().len() == s.len(),
    decreases s.len(),
{
    broadcast use vstd::seq_lib::group_seq_properties;

    lemma_amap_dom(s);
    if s.len() > 0 {
        assert forall|i: int, j: int| 0 <= i < j < s.drop_last().len() implies
            s.drop_last()[i].0 != s.drop_last()[j].0 by {
            assert(s.drop_last()[i] == s[i] && s.drop_last()[j] == s[j]);
        }
        lemma_amap_len(s.drop_last());
        lemma_amap_dom(s.drop_last());
        assert(!akey_in(s.drop_last(), s.last().0)) by {
            if akey_in(s.drop_last(), s.last().0) {
                let a = choose|a: int|
                    0 <= a < s.drop_last().len() && s.drop_last()[a].0 == s.last().0;
                assert(s.drop_last()[a] == s[a]);
            }
        }
        assert(!amap_of(s.drop_last()).dom().contains(s.last().0));
    }
}

/// The table of declared byte sizes for hashes announced with `Eth68`.
/// Unbounded; a hash absent from this table counts as `Eth66`.
#[derive(Debug)]
pub struct MetaMap {
    entries: Vec<(TxHash, usize)>,
}

impl View for MetaMap {
    type V = Map<TxHash, usize>;

    closed spec fn view(&self) -> Map<TxHash, usize> {
        amap_of(self.entries@)
    }
}

impl MetaMap {
    /// The table is well formed when its keys are distinct.
    pub closed spec fn wf(self) -> bool {
        unique_akeys(self.entries@)
    }

    /// An empty table.
    pub fn new() -> (r: MetaMap)
        ensures
            r@ == Map::<TxHash, usize>::empty(),
            r.wf(),
    {
        MetaMap { entries: Vec::new() }
    }

    fn find(&self, h: &TxHash) -> (r: Option<usize>)
        ensures
            match r {
                Some(i) => i < self.entries@.len() && self.entries@[i as int].0 == *h
                    && self@.contains_key(*h),
                None => !self@.contains_key(*h),
            },
    {
        proof {
            lemma_amap_dom(self.entries@);
        }
        let n = self.entries.len();
        let mut i: usize = 0;
        while i < n
            invariant
                n == self.entries@.len(),
                0 <= i <= n,
                forall|j: int| 0 <= j < i ==> self.entries@[j].0 != *h,
            decreases n - i,
        {
            if self.entries[i].0 == *h {
                proof {
                    assert(akey_in(self.entries@, *h));
                }
                return Some(i);
            }
            i += 1;
        }
        proof {
            assert(!akey_in(self.entries@, *h)) by {
                if akey_in(self.entries@, *h) {
                    let j = choose|j: int|
                        0 <= j < self.entries@.len() && self.entries@[j].0 == *h;
                }
            }
        }
        None
    }

    /// Whether a size is recorded for `h`.
    pub fn contains(&self, h: &TxHash) -> (r: bool)
        ensures
            r == self@.contains_key(*h),
    {
        self.find(h).is_some()
    }

    /// The declared size of `h`, if one is recorded.
    pub fn get(&self, h: &TxHash) -> (r: Option<usize>)
        requires
            self.wf(),
        ensures
            match r {
                Some(size) => self@.contains_key(*h) && size == self@[*h],
                None => !self@.contains_key(*h),
            },
    {
        match self.find(h) {
            Some(i) => {
                proof {
                    lemma_amap_get(self.entries@, i as int);
                }
                Some(self.entries[i].1)
            },
            None => None,
        }
    }

    /// Records the declared size of `h`, replacing an earlier record.
    pub fn insert(&mut self, h: TxHash, size: usize)
        requires
            old(self).wf(),
        ensures
            final(self)@ == old(self)@.insert(h, size),
            final(self).wf(),
    {
        proof {
            lemma_amap_dom(self.entries@);
        }
        match self.find(&h) {
            Some(i) => {
                proof {
                    lemma_amap_remove(self.entries@, i as int);
                }
                self.entries.remove(i);
                proof {
                    lemma_amap_dom(self.entries@);
                    lemma_amap_push(self.entries@, h, size);
                }
                self.entries.push((h, size));
                proof {
                    assert(final(self)@ =~= old(self)@.insert(h, size));
                }
            },
            None => {
                proof {
                    lemma_amap_push(self.entries@, h, size);
                }
                self.entries.push((h, size));
            },
        }
    }

    /// Forgets the size of `h`; a no-op if none is recorded.
    pub fn remove(&mut self, h: &TxHash)
        requires
            old(self).wf(),
        ensures
            final(self)@ == old(self)@.remove(*h),
            final(self).wf(),
    {
        proof {
            lemma_amap_dom(self.entries@);
        }
        match self.find(h) {
            Some(i) => {
                proof {
                    lemma_amap_remove(self.entries@, i as int);
                }
                self.entries.remove(i);
            },
            None => {
                proof {
                    assert(final(self)@ =~= old(self)@.remove(*h));
                }
            },
        }
    }
}

/// The table of peers with at least one inflight request, mapping each to
/// its inflight-request count.
#[derive(Debug)]
pub struct ActivePeers {
    entries: Vec<(PeerId, u8)>,
}

impl View for ActivePeers {
    type V = Map<PeerId, u8>;

    closed spec fn view(&self) -> Map<PeerId, u8> {
        amap_of(self.entries@)
    }
}

impl ActivePeers {
    /// The table is well formed when its keys are distinct.
    pub closed spec fn wf(self) -> bool {
        unique_akeys(self.entries@)
    }

    /// An empty table.
    pub fn new() -> (r: ActivePeers)
        ensures
            r@ == Map::<PeerId, u8>::empty(),
            r.wf(),
    {
        ActivePeers { entries: Vec::new() }
    }

    fn find(&self, p: &PeerId) -> (r: Option<usize>)
        ensures
            match r {
                Some(i) => i < self.entries@.len() && self.entries@[i as int].0 == *p
                    && self@.contains_key(*p),
                None => !self@.contains_key(*p),
            },
    {
        proof {
            lemma_amap_dom(self.entries@);
        }
        let n = self.entries.len();
        let mut i: usize = 0;
        while i < n
            invariant
                n == self.entries@.len(),
                0 <= i <= n,
                forall|j: int| 0 <= j < i ==> self.entries@[j].0 != *p,
            decreases n - i,
        {
            if self.entries[i].0 == *p {
                proof {
                    assert(akey_in(self.entries@, *p));
                }
                return Some(i);
            }
            i += 1;
        }
        proof {
            assert(!akey_in(self.entries@, *p)) by {
                if akey_in(self.entries@, *p) {
                    let j = choose|j: int|
                        0 <= j < self.entries@.len() && self.entries@[j].0 == *p;
                }
            }
        }
        None
    }

    /// The domain of the table is finite.
    pub proof fn lemma_dom_finite(self)
        ensures
            self@.dom().finite(),
    {
        lemma_amap_dom(self.entries@);
    }

    /// The number of peers with an inflight request.
    pub fn len(&self) -> (n: usize)
        requires
            self.wf(),
        ensures
            n == self@.dom().len(),
    {
        proof {
            lemma_amap_len(self.entries@);
        }
        self.entries.len()
    }

    /// Whether `p` has an inflight request.
    pub fn contains(&self, p: &PeerId) -> (r: bool)
        ensures
            r == self@.contains_key(*p),
    {
        self.find(p).is_some()
    }

    /// The inflight-request count of `p`, if `p` is active.
    pub fn get(&self, p: &PeerId) -> (r: Option<u8>)
        requires
            self.wf(),
        ensures
            match r {
                Some(n) => self@.contains_key(*p) && n == self@[*p],
                None => !self@.contains_key(*p),
            },
    {
        match self.find(p) {
            Some(i) => {
                proof {
                    lemma_amap_get(self.entries@, i as int);
                }
                Some(self.entries[i].1)
            },
            None => None,
        }
    }

    /// Sets the inflight-request count of `p`, replacing an earlier count.
    pub fn set(&mut self, p: PeerId, n: u8)
        requires
            old(self).wf(),
        ensures
            final(self)@ == old(self)@.insert(p, n),
            final(self).wf(),
    {
        proof {
            lemma_amap_dom(self.entries@);
        }
        match self.find(&p) {
            Some(i) => {
                proof {
                    lemma_amap_remove(self.entries@, i as int);
                }
                self.entries.remove(i);
                proof {
                    lemma_amap_dom(self.entries@);
                    lemma_amap_push(self.entries@, p, n);
                }
                self.entries.push((p, n));
                proof {
                    assert(final(self)@ =~= old(self)@.insert(p, n));
                }
            },
            None => {
                proof {
                    lemma_amap_push(self.entries@, p, n);
                }
                self.entries.push((p, n));
            },
        }
    }

    /// Drops `p` from the table; a no-op if `p` is not active.
    pub fn remove(&mut self, p: &PeerId)
        requires
            old(self).wf(),
        ensures
            final(self)@ == old(self)@.remove(*p),
            final(self).wf(),
    {
        proof {
            lemma_amap_dom(self.entries@);
        }
        match self.find(p) {
            Some(i) => {
                proof {
                    lemma_amap_remove(self.entries@, i as int);
                }
                self.entries.remove(i);
            },
            None => {
                proof {
                    assert(final(self)@ =~= old(self)@.remove(*p));
                }
            },
        }
    }
}

} // verus!
