//! Buffering of hashes that wait for an idle peer: retry accounting,
//! fallback-peer registration and the eviction cascade of the bounded
//! buffered-hash cache.

use vstd::prelude::*;
use vstd::map::*;

use crate::fetcher::TransactionFetcher;
use crate::flight::flights_contain_hash;
use crate::maps::EntryView;
use crate::seqs::{lru_evicted, lru_inserted, seq_without_all};
use crate::types::{PeerId, TxHash, ValidTxHashes, MAX_ALTERNATIVE_PEERS_PER_TX,
    MAX_REQUEST_RETRIES_PER_TX_HASH};

verus! {

/// The part of the fetcher state that buffering touches: the unknown-hash
/// table, the buffered-hash sequence, and the hashes collected for removal
/// once the pass is over.
pub struct BufferState {
    pub unknown: Map<TxHash, EntryView>,
    pub buffered: Seq<TxHash>,
    pub drops: Seq<TxHash>,
}

/// What buffering a single hash does.  With a fallback peer the peer is
/// recorded for the hash and no retry is counted; without one the hash is
/// dropped once it has exhausted its retries, and otherwise its retry count
/// grows.  A hash that is kept is inserted into the buffered cache; a hash
/// the insertion evicts joins the hashes to drop.
pub open spec fn buffer_step(
    st: BufferState,
    h: TxHash,
    fallback_peer: Option<PeerId>,
    cap: int,
) -> BufferState {
    if !st.unknown.contains_key(h) {
        st
    } else {
        match fallback_peer {
            Some(p) => BufferState {
                unknown: st.unknown.insert(
                    h,
                    EntryView {
                        retries: st.unknown[h].retries,
                        peers: lru_inserted(
                            st.unknown[h].peers,
                            MAX_ALTERNATIVE_PEERS_PER_TX as int,
                            p,
                        ),
                    },
                ),
                buffered: lru_inserted(st.buffered, cap, h),
                drops: match lru_evicted(st.buffered, cap, h) {
                    Some(ev) => st.drops.push(ev),
                    None => st.drops,
                },
            },
            None => {
                if st.unknown[h].retries >= MAX_REQUEST_RETRIES_PER_TX_HASH {
                    BufferState { unknown: st.unknown, buffered: st.buffered, drops: st.drops.push(h) }
                } else {
                    BufferState {
                        unknown: st.unknown.insert(
                            h,
                            EntryView {
                                retries: (st.unknown[h].retries + 1) as u8,
                                peers: st.unknown[h].peers,
                            },
                        ),
                        buffered: lru_inserted(st.buffered, cap, h),
                        drops: match lru_evicted(st.buffered, cap, h) {
                            Some(ev) => st.drops.push(ev),
                            None => st.drops,
                        },
                    }
                }
            },
        }
    }
}

/// Buffering a list of hashes, one at a time, starting at position `i`.
pub open spec fn buffer_fold(
    st: BufferState,
    hs: Seq<TxHash>,
    i: int,
    fallback_peer: Option<PeerId>,
    cap: int,
) -> BufferState
    decreases hs.len() - i,
{
    if i < 0 || i >= hs.len() {
        st
    } else {
        buffer_fold(buffer_step(st, hs[i], fallback_peer, cap), hs, i + 1, fallback_peer, cap)
    }
}

/// The hashes of `hs` that are tracked in `u`, in order.
pub open spec fn known_retained(hs: Seq<TxHash>, u: Map<TxHash, EntryView>) -> Seq<TxHash>
    decreases hs.len(),
{
    if hs.len() == 0 {
        Seq::empty()
    } else if u.contains_key(hs[0]) {
        seq![hs[0]] + known_retained(hs.drop_first(), u)
    } else {
        known_retained(hs.drop_first(), u)
    }
}

/// What retaining the tracked hashes means for membership and duplicates.
pub proof fn lemma_known_retained_props(hs: Seq<TxHash>, u: Map<TxHash, EntryView>)
    ensures
        forall|x: TxHash|
            #[trigger] known_retained(hs, u).contains(x) == (hs.contains(x) && u.contains_key(
                x,
            )),
        hs.no_duplicates() ==> known_retained(hs, u).no_duplicates(),
    decreases hs.len(),
{
    broadcast use vstd::seq_lib::group_seq_properties;

    let k = known_retained(hs, u);
    if hs.len() == 0 {
        assert forall|x: TxHash| #[trigger] k.contains(x) == (hs.contains(x) && u.contains_key(
            x,
        )) by {
            assert(!k.contains(x));
            assert(!hs.contains(x));
        }
    } else {
        let rest = hs.drop_first();
        lemma_known_retained_props(rest, u);
        let kr = known_retained(rest, u);
        assert forall|x: TxHash| #[trigger] k.contains(x) == (hs.contains(x) && u.contains_key(
            x,
        )) by {
            assert(kr.contains(x) == (rest.contains(x) && u.contains_key(x)));
            assert(hs.contains(x) == (x == hs[0] || rest.contains(x))) by {
                if hs.contains(x) {
                    let j = choose|j: int| #![trigger hs[j]] 0 <= j < hs.len() && hs[j] == x;
                    if j > 0 {
                        assert(rest[j - 1] == x);
                        assert(rest.contains(rest[j - 1]));
                    }
                }
                if rest.contains(x) {
                    let j = choose|j: int| #![trigger rest[j]] 0 <= j < rest.len() && rest[j]
                        == x;
                    assert(hs[j + 1] == x);
                    assert(hs.contains(hs[j + 1]));
                }
            }
            if u.contains_key(hs[0]) {
                assert(k == seq![hs[0]] + kr);
                assert(k.contains(x) == (x == hs[0] || kr.contains(x))) by {
                    if k.contains(x) {
                        let j = choose|j: int| #![trigger k[j]] 0 <= j < k.len() && k[j] == x;
                        if j > 0 {
                            assert(kr[j - 1] == x);
                            assert(kr.contains(kr[j - 1]));
                        }
                    }
                    assert(k[0] == hs[0]);
                    assert(k.contains(k[0]));
                    if kr.contains(x) {
                        let j = choose|j: int| #![trigger kr[j]] 0 <= j < kr.len() && kr[j]
                            == x;
                        assert(k[j + 1] == x);
                        assert(k.contains(k[j + 1]));
                    }
                }
            } else {
                assert(k == kr);
            }
        }
        if hs.no_duplicates() {
            assert(rest.no_duplicates());
            assert(!rest.contains(hs[0]));
            if u.contains_key(hs[0]) {
                assert(k == seq![hs[0]] + kr);
                assert forall|a: int, b: int| 0 <= a < b < k.len() implies k[a] != k[b] by {
                    assert(k[b] == kr[b - 1]);
                    assert(kr.contains(kr[b - 1]));
                    if a > 0 {
                        assert(k[a] == kr[a - 1]);
                    } else {
                        assert(k[a] == hs[0]);
                        assert(rest.contains(kr[b - 1]));
                    }
                }
                assert(k.no_duplicates());
            }
        }
    }
}

/// Buffering never adds or removes unknown-table keys before the final
/// removal pass, and only hashes from the buffered cache or the list being
/// buffered can appear in its outputs.
pub proof fn lemma_buffer_fold_frame(
    st: BufferState,
    hs: Seq<TxHash>,
    i: int,
    fallback_peer: Option<PeerId>,
    cap: int,
)
    requires
        cap >= 1,
    ensures
        forall|k: TxHash|
            buffer_fold(st, hs, i, fallback_peer, cap).unknown.contains_key(k)
                == st.unknown.contains_key(k),
        forall|x: TxHash|
            buffer_fold(st, hs, i, fallback_peer, cap).buffered.contains(x) ==> (
            st.buffered.contains(x) || hs.contains(x)),
        forall|x: TxHash|
            buffer_fold(st, hs, i, fallback_peer, cap).drops.contains(x) ==> (st.drops.contains(
                x,
            ) || st.buffered.contains(x) || hs.contains(x)),
    decreases hs.len() - i,
{
    broadcast use vstd::seq_lib::group_seq_properties;

    if 0 <= i < hs.len() {
        let h = hs[i];
        let st2 = buffer_step(st, h, fallback_peer, cap);
        lemma_buffer_fold_frame(st2, hs, i + 1, fallback_peer, cap);
        assert(hs.contains(hs[i]));
        assert(forall|k: TxHash| st2.unknown.contains_key(k) == st.unknown.contains_key(k));
        assert forall|x: TxHash| st2.buffered.contains(x) implies (st.buffered.contains(x)
            || hs.contains(x)) by {
            if st2.buffered != st.buffered {
                assert(st2.buffered == lru_inserted(st.buffered, cap, h));
                if !st.buffered.contains(x) {
                    if st.buffered.contains(h) {
                    } else if st.buffered.len() + 1 > cap {
                        assert(st2.buffered == st.buffered.push(h).drop_first());
                        let j = choose|j: int|
                            #![trigger st2.buffered[j]]
                            0 <= j < st2.buffered.len() && st2.buffered[j] == x;
                        assert(st.buffered.push(h)[j + 1] == x);
                        assert(x == h);
                    } else {
                        assert(st2.buffered == st.buffered.push(h));
                        assert(x == h);
                    }
                }
            }
        }
        assert forall|x: TxHash| st2.drops.contains(x) implies (st.drops.contains(x)
            || st.buffered.contains(x) || hs.contains(x)) by {
            if st2.drops != st.drops {
                if !st.drops.contains(x) {
                    assert(st2.drops.last() == x || st.drops.contains(x)) by {
                        let j = choose|j: int|
                            #![trigger st2.drops[j]]
                            0 <= j < st2.drops.len() && st2.drops[j] == x;
                        if j < st2.drops.len() - 1 {
                            assert(st.drops[j] == x);
                        }
                    }
                    if st2.drops.last() == x {
                        if st.unknown.contains_key(h) && !(fallback_peer is None
                            && st.unknown[h].retries >= MAX_REQUEST_RETRIES_PER_TX_HASH) {
                            assert(lru_evicted(st.buffered, cap, h) == Some(x));
                            assert(st.buffered.contains(st.buffered[0]));
                        }
                    }
                }
            }
        }
    }
}

impl TransactionFetcher {
    /// Buffers hashes so a later request to an idle peer can pick them up.
    ///
    /// Only a peer that has not yet tried to request the hashes may be
    /// passed as `fallback_peer`; it is then recorded for each hash and no
    /// retry is counted.  Without a fallback peer the caller has just tried
    /// and failed, so each hash's retry count grows, and a hash that has
    /// been re-requested `MAX_REQUEST_RETRIES_PER_TX_HASH` times is dropped
    /// from all tracking instead of being buffered.  A hash whose buffering
    /// evicts another hash from the bounded cache drops the evicted hash
    /// from all tracking as well.
    pub fn buffer_hashes(&mut self, hashes: &ValidTxHashes, fallback_peer: Option<PeerId>)
        requires
            old(self).inv(),
            hashes.wf(),
            forall|h: TxHash|
                hashes.hashes@.contains(h) ==> old(self).unknown_hashes@.contains_key(h),
            forall|h: TxHash|
                hashes.hashes@.contains(h) ==> !flights_contain_hash(
                    old(self).inflight_requests@,
                    h,
                ),
        ensures
            final(self).inv(),
            ({
                let r = buffer_fold(
                    BufferState {
                        unknown: old(self).unknown_hashes@,
                        buffered: old(self).buffered_hashes@,
                        drops: Seq::empty(),
                    },
                    hashes.hashes@,
                    0,
                    fallback_peer,
                    old(self).buffered_hashes.cap(),
                );
                &&& final(self).unknown_hashes@ == r.unknown.remove_keys(r.drops.to_set())
                &&& final(self).eth68_meta@ == old(self).eth68_meta@.remove_keys(
                    r.drops.to_set(),
                )
                &&& final(self).buffered_hashes@ == seq_without_all(r.buffered, r.drops)
            }),
            final(self).buffered_hashes.cap() == old(self).buffered_hashes.cap(),
            final(self).active_peers == old(self).active_peers,
            final(self).inflight_requests == old(self).inflight_requests,
    {
        let ghost st0 = BufferState {
            unknown: old(self).unknown_hashes@,
            buffered: old(self).buffered_hashes@,
            drops: Seq::empty(),
        };
        let ghost hs = hashes.hashes@;
        let ghost cap = old(self).buffered_hashes.cap();
        let mut evicted: Vec<TxHash> = Vec::new();
        let n = hashes.hashes.len();
        let mut i: usize = 0;
        while i < n
            invariant
                n == hs.len(),
                0 <= i <= n,
                self.inv(),
                buffer_fold(st0, hs, 0, fallback_peer, cap) == buffer_fold(
                    BufferState {
                        unknown: self.unknown_hashes@,
                        buffered: self.buffered_hashes@,
                        drops: evicted@,
                    },
                    hs,
                    i as int,
                    fallback_peer,
                    cap,
                ),
                forall|k: TxHash|
                    self.unknown_hashes@.contains_key(k) == old(
                        self,
                    ).unknown_hashes@.contains_key(k),
                self.buffered_hashes.cap() == cap,
                self.eth68_meta == old(self).eth68_meta,
                self.active_peers == old(self).active_peers,
                self.inflight_requests == old(self).inflight_requests,
            decreases n - i,
        {
            let h = hashes.hashes[i];
            proof {
                assert(hs.contains(hs[i as int]));
            }
            let ghost cur = BufferState {
                unknown: self.unknown_hashes@,
                buffered: self.buffered_hashes@,
                drops: evicted@,
            };
            match fallback_peer {
                Some(p) => {
                    self.unknown_hashes.add_fallback(&h, p);
                    let (_, ev) = self.buffered_hashes.insert_and_get_evicted(h);
                    match ev {
                        Some(e) => evicted.push(e),
                        None => {},
                    }
                },
                None => {
                    let retries = self.unknown_hashes.retries(&h);
                    if retries >= MAX_REQUEST_RETRIES_PER_TX_HASH {
                        evicted.push(h);
                    } else {
                        self.unknown_hashes.increment_retries(&h);
                        let (_, ev) = self.buffered_hashes.insert_and_get_evicted(h);
                        match ev {
                            Some(e) => evicted.push(e),
                            None => {},
                        }
                    }
                },
            }
            proof {
                let next = BufferState {
                    unknown: self.unknown_hashes@,
                    buffered: self.buffered_hashes@,
                    drops: evicted@,
                };
                assert(next.unknown =~= buffer_step(cur, hs[i as int], fallback_peer, cap)
                    .unknown);
                assert(next == buffer_step(cur, hs[i as int], fallback_peer, cap));
                assert forall|k: TxHash| self.unknown_hashes@.contains_key(k) == old(
                    self,
                ).unknown_hashes@.contains_key(k) by {
                    assert(cur.unknown.contains_key(k) == old(
                        self,
                    ).unknown_hashes@.contains_key(k));
                }
                assert(self.inv()) by {
                    assert forall|k: TxHash| self.buffered_hashes@.contains(k) implies self
                        .unknown_hashes@.contains_key(k) by {
                        if cur.buffered.contains(k) {
                            assert(cur.unknown.contains_key(k));
                        } else {
                            assert(k == hs[i as int]);
                        }
                    }
                    assert forall|k: TxHash| self.buffered_hashes@.contains(k)
                        implies !flights_contain_hash(self.inflight_requests@, k) by {
                        if cur.buffered.contains(k) {
                        } else {
                            assert(k == hs[i as int]);
                            assert(hs.contains(k));
                        }
                    }
                }
            }
            i += 1;
        }
        proof {
            assert(buffer_fold(st0, hs, 0, fallback_peer, cap) == BufferState {
                unknown: self.unknown_hashes@,
                buffered: self.buffered_hashes@,
                drops: evicted@,
            });
        }
        self.remove_from_unknown_hashes(&evicted);
    }

    /// Buffers the hashes of a failed or partially answered request for a
    /// later retry.  Hashes that are no longer tracked are discarded first:
    /// their transactions may have arrived over broadcast in the meantime.
    pub fn buffer_hashes_for_retry(&mut self, hashes: &ValidTxHashes)
        requires
            old(self).inv(),
            hashes.wf(),
            forall|h: TxHash|
                hashes.hashes@.contains(h) ==> !flights_contain_hash(
                    old(self).inflight_requests@,
                    h,
                ),
        ensures
            final(self).inv(),
            ({
                let r = buffer_fold(
                    BufferState {
                        unknown: old(self).unknown_hashes@,
                        buffered: old(self).buffered_hashes@,
                        drops: Seq::empty(),
                    },
                    known_retained(hashes.hashes@, old(self).unknown_hashes@),
                    0,
                    None,
                    old(self).buffered_hashes.cap(),
                );
                &&& final(self).unknown_hashes@ == r.unknown.remove_keys(r.drops.to_set())
                &&& final(self).eth68_meta@ == old(self).eth68_meta@.remove_keys(
                    r.drops.to_set(),
                )
                &&& final(self).buffered_hashes@ == seq_without_all(r.buffered, r.drops)
            }),
            final(self).buffered_hashes.cap() == old(self).buffered_hashes.cap(),
            final(self).active_peers == old(self).active_peers,
            final(self).inflight_requests == old(self).inflight_requests,
    {
        proof {
            lemma_known_retained_props(hashes.hashes@, self.unknown_hashes@);
            assert(hashes.hashes@.skip(0) =~= hashes.hashes@);
            assert(Seq::<TxHash>::empty() + known_retained(hashes.hashes@, self.unknown_hashes@)
                =~= known_retained(hashes.hashes@, self.unknown_hashes@));
        }
        let ghost hs = hashes.hashes@;
        let ghost u = old(self).unknown_hashes@;
        let mut keep: Vec<TxHash> = Vec::new();
        let n = hashes.hashes.len();
        let mut i: usize = 0;
        while i < n
            invariant
                n == hs.len(),
                0 <= i <= n,
                self == old(self),
                known_retained(hs, u) == keep@ + known_retained(hs.skip(i as int), u),
            decreases n - i,
        {
            proof {
                assert(hs.skip(i as int)[0] == hs[i as int]);
                assert(hs.skip(i as int).drop_first() =~= hs.skip(i + 1));
            }
            let h = hashes.hashes[i];
            if self.unknown_hashes.contains(&h) {
                keep.push(h);
                proof {
                    assert(known_retained(hs.skip(i as int), u) == seq![hs[i as int]]
                        + known_retained(hs.skip(i + 1), u));
                    assert(keep@ + known_retained(hs.skip(i + 1), u) =~= keep@.drop_last()
                        + known_retained(hs.skip(i as int), u));
                }
            }
            i += 1;
        }
        proof {
            assert(hs.skip(n as int) =~= Seq::<TxHash>::empty());
            assert(keep@ + known_retained(hs.skip(n as int), u) =~= keep@);
            assert(keep@ == known_retained(hs, u));
        }
        let retained = ValidTxHashes { hashes: keep, version: hashes.version };
        proof {
            lemma_known_retained_props(hs, u);
            assert(retained.hashes@ == known_retained(hs, u));
            assert(self.unknown_hashes@ == u);
            assert forall|h: TxHash| retained.hashes@.contains(h) implies self
                .unknown_hashes@.contains_key(h) by {
                assert(known_retained(hs, u).contains(h));
                assert(u.contains_key(h));
            }
            assert forall|h: TxHash| retained.hashes@.contains(h)
                implies !flights_contain_hash(self.inflight_requests@, h) by {
                assert(known_retained(hs, u).contains(h));
                assert(hs.contains(h));
            }
        }
        self.buffer_hashes(&retained, None);
    }
}

} // verus!
