//! The transaction fetcher: five coordinated tables and the operations that
//! the announcement intake, request dispatch and completion paths perform on
//! them.  The consistency of the tables is captured by [`TransactionFetcher::inv`],
//! which every operation preserves.

use vstd::prelude::*;
use vstd::map::*;

use crate::caches::LruCache;
use crate::flight::{flight_count, flights_contain_hash, FlightView, InflightRequest, InflightSet};
use crate::maps::{ActivePeers, MetaMap, UnknownMap};
use crate::seqs::{lemma_seq_without_all_props, lemma_seq_without_all_push, lemma_seq_without_props,
    seq_without, seq_without_all};
use crate::types::{PeerId, TxHash, ValidTxHashes, MAX_CAPACITY_BUFFERED_HASHES, MAX_CONCURRENT_TX_REQUESTS,
    MAX_CONCURRENT_TX_REQUESTS_PER_PEER, MAX_REQUEST_RETRIES_PER_TX_HASH};

verus! {

/// The type responsible for fetching missing transactions from peers.
///
/// It keeps track of the unique transaction hashes that are currently being
/// fetched or are waiting for an idle peer, and decides which announced
/// hashes to request from which peer.
#[derive(Debug)]
pub struct TransactionFetcher {
    /// All peers to which a request for pooled transactions is currently
    /// active, mapped to their inflight-request count.
    pub active_peers: ActivePeers,
    /// All currently active requests for pooled transactions.
    pub inflight_requests: InflightSet,
    /// Hashes that are awaiting an idle peer so they can be fetched.
    pub buffered_hashes: LruCache,
    /// Tracks all hashes that are currently being fetched or are buffered,
    /// mapping them to request retries and last recently seen fallback peers.
    pub unknown_hashes: UnknownMap,
    /// Size metadata for unknown `Eth68` hashes.
    pub eth68_meta: MetaMap,
}

impl TransactionFetcher {
    /// Every buffered hash is tracked in the unknown-hash table.
    pub open spec fn buffered_subset_unknown(self) -> bool {
        forall|h: TxHash|
            self.buffered_hashes@.contains(h) ==> self.unknown_hashes@.contains_key(h)
    }

    /// Every hash with recorded size metadata is tracked in the unknown-hash
    /// table.
    pub open spec fn meta_subset_unknown(self) -> bool {
        forall|h: TxHash|
            self.eth68_meta@.contains_key(h) ==> self.unknown_hashes@.contains_key(h)
    }

    /// No tracked hash has been retried beyond the retry bound.
    pub open spec fn retries_bounded(self) -> bool {
        forall|h: TxHash|
            self.unknown_hashes@.contains_key(h)
                ==> self.unknown_hashes@[h].retries <= MAX_REQUEST_RETRIES_PER_TX_HASH
    }

    /// At most the global concurrency limit of peers is active, and each
    /// active peer has between one and the per-peer limit of inflight
    /// requests.
    pub open spec fn active_peers_bounded(self) -> bool {
        &&& self.active_peers@.dom().len() <= MAX_CONCURRENT_TX_REQUESTS as int
        &&& forall|p: PeerId|
            self.active_peers@.contains_key(p) ==> (0 < self.active_peers@[p]
                && self.active_peers@[p] <= MAX_CONCURRENT_TX_REQUESTS_PER_PEER)
    }

    /// No peer has more pending requests than its recorded inflight count,
    /// and each pending request asks for a duplicate-free list of hashes
    /// that no other pending request asks for.
    pub open spec fn inflight_consistent(self) -> bool {
        &&& forall|p: PeerId|
            #[trigger] flight_count(self.inflight_requests@, p) <= (
            if self.active_peers@.contains_key(p) {
                self.active_peers@[p] as int
            } else {
                0
            })
        &&& forall|i: int|
            0 <= i < self.inflight_requests@.len()
                ==> (#[trigger] self.inflight_requests@[i].hashes).no_duplicates()
        &&& forall|i: int, j: int, h: TxHash|
            0 <= i < self.inflight_requests@.len() && 0 <= j < self.inflight_requests@.len()
                && i != j && #[trigger] self.inflight_requests@[i].hashes.contains(h)
                ==> !(#[trigger] self.inflight_requests@[j].hashes.contains(h))
    }

    /// No hash is simultaneously buffered and asked for by a pending
    /// request.
    pub open spec fn no_buffered_inflight_overlap(self) -> bool {
        forall|h: TxHash|
            self.buffered_hashes@.contains(h) ==> !flights_contain_hash(
                self.inflight_requests@,
                h,
            )
    }

    /// The tables themselves are well formed.
    pub open spec fn tables_wf(self) -> bool {
        &&& self.active_peers.wf()
        &&& self.unknown_hashes.wf()
        &&& self.eth68_meta.wf()
        &&& self.buffered_hashes.wf()
    }

    /// The invariant that couples the five tables.  It holds after
    /// construction and is preserved by every operation.
    pub open spec fn inv(self) -> bool {
        &&& self.tables_wf()
        &&& self.buffered_subset_unknown()
        &&& self.meta_subset_unknown()
        &&& self.retries_bounded()
        &&& self.active_peers_bounded()
        &&& self.inflight_consistent()
        &&& self.no_buffered_inflight_overlap()
    }

    /// A fetcher whose buffered-hash cache holds at most `limit` hashes.
    pub fn with_buffered_limit(limit: usize) -> (r: TransactionFetcher)
        requires
            limit >= 1,
        ensures
            r.inv(),
            r.unknown_hashes@ == Map::<TxHash, crate::maps::EntryView>::empty(),
            r.eth68_meta@ == Map::<TxHash, usize>::empty(),
            r.active_peers@ == Map::<PeerId, u8>::empty(),
            r.buffered_hashes@ == Seq::<TxHash>::empty(),
            r.inflight_requests@ == Seq::<FlightView>::empty(),
            r.active_peers@.dom().len() == 0,
            r.buffered_hashes.cap() == limit,
    {
        let r = TransactionFetcher {
            active_peers: ActivePeers::new(),
            inflight_requests: InflightSet::new(),
            buffered_hashes: LruCache::new(limit),
            unknown_hashes: UnknownMap::new(),
            eth68_meta: MetaMap::new(),
        };
        proof {
            assert forall|p: PeerId| #[trigger] flight_count(r.inflight_requests@, p) <= 0 by {
                assert(flight_count(Seq::<FlightView>::empty(), p) == 0);
            }
            assert(r.active_peers@.dom() =~= Set::<PeerId>::empty());
        }
        r
    }

    /// Removes the specified hashes from all three hash tables.
    pub fn remove_from_unknown_hashes(&mut self, hashes: &Vec<TxHash>)
        requires
            old(self).inv(),
        ensures
            final(self).inv(),
            final(self).unknown_hashes@ == old(self).unknown_hashes@.remove_keys(
                hashes@.to_set(),
            ),
            final(self).eth68_meta@ == old(self).eth68_meta@.remove_keys(hashes@.to_set()),
            final(self).buffered_hashes@ == seq_without_all(old(self).buffered_hashes@, hashes@),
            final(self).buffered_hashes.cap() == old(self).buffered_hashes.cap(),
            final(self).active_peers == old(self).active_peers,
            final(self).inflight_requests == old(self).inflight_requests,
    {
        proof {
            assert(hashes@.take(0) =~= Seq::<TxHash>::empty());
            assert(self.unknown_hashes@.remove_keys(Seq::<TxHash>::empty().to_set())
                =~= self.unknown_hashes@);
            assert(self.eth68_meta@.remove_keys(Seq::<TxHash>::empty().to_set())
                =~= self.eth68_meta@);
        }
        let n = hashes.len();
        let mut i: usize = 0;
        while i < n
            invariant
                n == hashes@.len(),
                0 <= i <= n,
                self.unknown_hashes@ == old(self).unknown_hashes@.remove_keys(
                    hashes@.take(i as int).to_set(),
                ),
                self.eth68_meta@ == old(self).eth68_meta@.remove_keys(
                    hashes@.take(i as int).to_set(),
                ),
                self.buffered_hashes@ == seq_without_all(
                    old(self).buffered_hashes@,
                    hashes@.take(i as int),
                ),
                self.buffered_hashes.cap() == old(self).buffered_hashes.cap(),
                self.unknown_hashes.wf(),
                self.eth68_meta.wf(),
                self.buffered_hashes.wf(),
                self.active_peers == old(self).active_peers,
                self.inflight_requests == old(self).inflight_requests,
            decreases n - i,
        {
            let h = hashes[i];
            proof {
                lemma_seq_without_all_props(old(self).buffered_hashes@, hashes@.take(i as int));
                lemma_seq_without_all_push(old(self).buffered_hashes@, hashes@.take(i as int), h);
                assert(hashes@.take(i + 1) =~= hashes@.take(i as int).push(h)) by {
                    assert forall|j: int| 0 <= j < i + 1 implies hashes@.take(i + 1)[j]
                        == hashes@.take(i as int).push(h)[j] by {
                        assert(hashes@.take(i + 1)[j] == hashes@[j]);
                        if j < i as int {
                            assert(hashes@.take(i as int)[j] == hashes@[j]);
                        } else {
                            assert(h == hashes@[i as int]);
                        }
                    }
                }
                assert(hashes@.take(i + 1).to_set() =~= hashes@.take(i as int).to_set().insert(h))
                    by {
                    broadcast use vstd::seq_lib::group_seq_properties;

                    assert forall|x: TxHash| hashes@.take(i + 1).to_set().contains(x)
                        == hashes@.take(i as int).to_set().insert(h).contains(x) by {
                        assert(hashes@.take(i + 1).to_set().contains(x)
                            == hashes@.take(i + 1).contains(x));
                        assert(hashes@.take(i as int).to_set().contains(x)
                            == hashes@.take(i as int).contains(x));
                        assert(hashes@.take(i + 1) == hashes@.take(i as int).push(h));
                        assert(hashes@.take(i + 1).contains(x)
                            == (hashes@.take(i as int).contains(x) || x == h));
                    }
                }
                assert(old(self).unknown_hashes@.remove_keys(hashes@.take(i as int).to_set())
                    .remove(h) =~= old(self).unknown_hashes@.remove_keys(
                    hashes@.take(i + 1).to_set(),
                ));
                assert(old(self).eth68_meta@.remove_keys(hashes@.take(i as int).to_set()).remove(h)
                    =~= old(self).eth68_meta@.remove_keys(hashes@.take(i + 1).to_set()));
            }
            self.unknown_hashes.remove(&h);
            self.eth68_meta.remove(&h);
            self.buffered_hashes.remove(&h);
            i += 1;
        }
        proof {
            assert(hashes@.take(n as int) =~= hashes@);
            lemma_seq_without_all_props(old(self).buffered_hashes@, hashes@);
            assert(forall|x: TxHash|
                hashes@.to_set().contains(x) == hashes@.contains(x));
            assert forall|h: TxHash|
                final(self).buffered_hashes@.contains(h)
                implies final(self).unknown_hashes@.contains_key(h) by {
                assert(old(self).buffered_hashes@.contains(h) && !hashes@.contains(h));
                assert(old(self).unknown_hashes@.contains_key(h));
            }
            assert forall|h: TxHash|
                final(self).eth68_meta@.contains_key(h)
                implies final(self).unknown_hashes@.contains_key(h) by {
                assert(old(self).eth68_meta@.contains_key(h) && !hashes@.contains(h));
                assert(old(self).unknown_hashes@.contains_key(h));
            }
            assert forall|h: TxHash|
                final(self).unknown_hashes@.contains_key(h)
                implies final(self).unknown_hashes@[h].retries
                    <= MAX_REQUEST_RETRIES_PER_TX_HASH by {
                assert(old(self).unknown_hashes@.contains_key(h));
                assert(final(self).unknown_hashes@[h] == old(self).unknown_hashes@[h]);
            }
            assert forall|h: TxHash| final(self).buffered_hashes@.contains(h)
                implies !flights_contain_hash(final(self).inflight_requests@, h) by {
                assert(old(self).buffered_hashes@.contains(h));
            }
            assert(final(self).inv());
        }
    }

    /// Removes the provided transaction hashes from all tracking.
    ///
    /// This is called when full transactions that are currently scheduled
    /// for fetching arrive over broadcast.  Afterwards none of the hashes is
    /// tracked, whatever state it was in before.
    pub fn on_received_full_transactions_broadcast(&mut self, hashes: &Vec<TxHash>)
        requires
            old(self).inv(),
        ensures
            final(self).inv(),
            forall|h: TxHash|
                hashes@.contains(h) ==> (!final(self).unknown_hashes@.contains_key(h)
                    && !final(self).eth68_meta@.contains_key(h)
                    && !final(self).buffered_hashes@.contains(h)),
            forall|h: TxHash|
                !hashes@.contains(h) ==> (final(self).unknown_hashes@.contains_key(h)
                    == old(self).unknown_hashes@.contains_key(h)
                    && final(self).eth68_meta@.contains_key(h) == old(
                    self,
                ).eth68_meta@.contains_key(h) && final(self).buffered_hashes@.contains(h) == old(
                    self,
                ).buffered_hashes@.contains(h)),
            final(self).unknown_hashes@ == old(self).unknown_hashes@.remove_keys(
                hashes@.to_set(),
            ),
            final(self).eth68_meta@ == old(self).eth68_meta@.remove_keys(hashes@.to_set()),
            final(self).buffered_hashes@ == seq_without_all(old(self).buffered_hashes@, hashes@),
            final(self).buffered_hashes.cap() == old(self).buffered_hashes.cap(),
            final(self).active_peers == old(self).active_peers,
            final(self).inflight_requests == old(self).inflight_requests,
    {
        self.remove_from_unknown_hashes(hashes);
        proof {
            lemma_seq_without_all_props(old(self).buffered_hashes@, hashes@);
        }
    }

    /// Updates a peer's activity status once one of its requests resolved:
    /// the peer's entry is dropped when its count is at most the per-peer
    /// limit, and decremented otherwise.
    pub(crate) fn decrement_inflight_request_count_for(&mut self, peer_id: &PeerId)
        requires
            old(self).active_peers.wf(),
        ensures
            final(self).active_peers.wf(),
            final(self).active_peers@ == (if old(self).active_peers@.contains_key(*peer_id) {
                if old(self).active_peers@[*peer_id] <= MAX_CONCURRENT_TX_REQUESTS_PER_PEER {
                    old(self).active_peers@.remove(*peer_id)
                } else {
                    old(self).active_peers@.insert(
                        *peer_id,
                        (old(self).active_peers@[*peer_id] - 1) as u8,
                    )
                }
            } else {
                old(self).active_peers@
            }),
            final(self).inflight_requests == old(self).inflight_requests,
            final(self).buffered_hashes == old(self).buffered_hashes,
            final(self).unknown_hashes == old(self).unknown_hashes,
            final(self).eth68_meta == old(self).eth68_meta,
    {
        match self.active_peers.get(peer_id) {
            Some(count) => {
                if count <= MAX_CONCURRENT_TX_REQUESTS_PER_PEER {
                    self.active_peers.remove(peer_id);
                } else {
                    self.active_peers.set(*peer_id, count - 1);
                }
            },
            None => {},
        }
    }

    /// Returns `true` if the peer is idle: it has capacity for one more
    /// inflight request.
    pub fn is_idle(&self, peer_id: &PeerId) -> (r: bool)
        requires
            self.active_peers.wf(),
        ensures
            r == (!self.active_peers@.contains_key(*peer_id)
                || self.active_peers@[*peer_id] < MAX_CONCURRENT_TX_REQUESTS_PER_PEER),
    {
        match self.active_peers.get(peer_id) {
            Some(count) => count < MAX_CONCURRENT_TX_REQUESTS_PER_PEER,
            None => true,
        }
    }
}

impl Default for TransactionFetcher {
    /// A fetcher with empty tables and the default buffered-hash capacity.
    fn default() -> (r: TransactionFetcher)
        ensures
            r.inv(),
            r.unknown_hashes@ == Map::<TxHash, crate::maps::EntryView>::empty(),
            r.eth68_meta@ == Map::<TxHash, usize>::empty(),
            r.active_peers@ == Map::<PeerId, u8>::empty(),
            r.buffered_hashes@ == Seq::<TxHash>::empty(),
            r.inflight_requests@ == Seq::<FlightView>::empty(),
            r.active_peers@.dom().len() == 0,
            r.buffered_hashes.cap() == MAX_CAPACITY_BUFFERED_HASHES as int,
    {
        TransactionFetcher::with_buffered_limit(MAX_CAPACITY_BUFFERED_HASHES)
    }
}

impl TransactionFetcher {
    /// Decides whether a request for the given hashes may be sent to the
    /// peer.  Approval is denied, leaving the state unchanged, when the
    /// global concurrency limit is reached or the peer is already at its
    /// per-peer limit; the caller then keeps the hashes as surplus.  On
    /// approval the peer's inflight count is raised and the caller must
    /// send the request, reporting the outcome with [`Self::on_request_sent`]
    /// if the channel accepted it.
    pub fn request_transactions_from_peer(
        &mut self,
        new_announced_hashes: &ValidTxHashes,
        peer_id: &PeerId,
    ) -> (approved: bool)
        requires
            old(self).inv(),
        ensures
            final(self).inv(),
            approved == (old(self).active_peers@.dom().len() < MAX_CONCURRENT_TX_REQUESTS as int
                && (!old(self).active_peers@.contains_key(*peer_id)
                || old(self).active_peers@[*peer_id] < MAX_CONCURRENT_TX_REQUESTS_PER_PEER)),
            !approved ==> *final(self) == *old(self),
            approved ==> final(self).active_peers@ == old(self).active_peers@.insert(
                *peer_id,
                if old(self).active_peers@.contains_key(*peer_id) {
                    (old(self).active_peers@[*peer_id] + 1) as u8
                } else {
                    1u8
                },
            ),
            approved ==> old(self).active_peers@.contains_key(*peer_id) == false
                || old(self).active_peers@[*peer_id] < MAX_CONCURRENT_TX_REQUESTS_PER_PEER,
            final(self).active_peers@.contains_key(*peer_id)
                == (approved || old(self).active_peers@.contains_key(*peer_id)),
            approved ==> flight_count(final(self).inflight_requests@, *peer_id)
                < final(self).active_peers@[*peer_id],
            final(self).inflight_requests == old(self).inflight_requests,
            final(self).buffered_hashes == old(self).buffered_hashes,
            final(self).unknown_hashes == old(self).unknown_hashes,
            final(self).eth68_meta == old(self).eth68_meta,
    {
        let _ = new_announced_hashes;
        if self.active_peers.len() >= MAX_CONCURRENT_TX_REQUESTS as usize {
            return false;
        }
        let count: u8 = match self.active_peers.get(peer_id) {
            Some(count) => {
                if count >= MAX_CONCURRENT_TX_REQUESTS_PER_PEER {
                    return false;
                }
                count
            },
            None => 0,
        };
        self.active_peers.set(*peer_id, count + 1);
        proof {
            let p = *peer_id;
            let pre = old(self).active_peers@;
            let post = final(self).active_peers@;
            old(self).active_peers.lemma_dom_finite();
            assert(post.dom() =~= pre.dom().insert(p));
            assert(pre.dom().insert(p).len() <= pre.dom().len() + 1);
            assert forall|q: PeerId| #[trigger] flight_count(final(self).inflight_requests@, q)
                <= (if post.contains_key(q) {
                post[q] as int
            } else {
                0
            }) by {
                assert(flight_count(old(self).inflight_requests@, q) <= (
                if pre.contains_key(q) {
                    pre[q] as int
                } else {
                    0
                }));
            }
        }
        true
    }

    /// Registers a pending request after the peer's channel accepted it.
    /// The request must have been approved for the peer, its hashes must
    /// not be buffered, and no other pending request may ask for them.
    pub fn on_request_sent(&mut self, peer_id: PeerId, requested_hashes: ValidTxHashes)
        requires
            old(self).inv(),
            requested_hashes.wf(),
            forall|h: TxHash|
                requested_hashes.hashes@.contains(h) ==> !old(self).buffered_hashes@.contains(h),
            forall|h: TxHash|
                requested_hashes.hashes@.contains(h) ==> !flights_contain_hash(
                    old(self).inflight_requests@,
                    h,
                ),
            old(self).active_peers@.contains_key(peer_id),
            flight_count(old(self).inflight_requests@, peer_id) < old(
                self,
            ).active_peers@[peer_id],
        ensures
            final(self).inv(),
            final(self).inflight_requests@ == old(self).inflight_requests@.push(
                FlightView {
                    peer: peer_id,
                    hashes: requested_hashes.hashes@,
                    version: requested_hashes.version,
                },
            ),
            final(self).active_peers == old(self).active_peers,
            final(self).buffered_hashes == old(self).buffered_hashes,
            final(self).unknown_hashes == old(self).unknown_hashes,
            final(self).eth68_meta == old(self).eth68_meta,
    {
        let ghost fv0 = self.inflight_requests@;
        let ghost x = FlightView {
            peer: peer_id,
            hashes: requested_hashes.hashes@,
            version: requested_hashes.version,
        };
        let req = InflightRequest {
            peer_id,
            hashes: requested_hashes.hashes,
            version: requested_hashes.version,
        };
        self.inflight_requests.push(req);
        proof {
            broadcast use vstd::seq_lib::group_seq_properties;

            let fv = final(self).inflight_requests@;
            assert(fv == fv0.push(x));
            assert forall|q: PeerId| #[trigger] flight_count(fv, q) <= (
            if final(self).active_peers@.contains_key(q) {
                final(self).active_peers@[q] as int
            } else {
                0
            }) by {
                crate::flight::lemma_flight_count_push(fv0, x, q);
            }
            assert forall|i: int, j: int, h: TxHash|
                0 <= i < fv.len() && 0 <= j < fv.len() && i != j && #[trigger] fv[i].hashes
                    .contains(h) implies !(#[trigger] fv[j].hashes.contains(h)) by {
                if i < fv0.len() && j < fv0.len() {
                    assert(fv[i] == fv0[i] && fv[j] == fv0[j]);
                } else if i == fv0.len() {
                    assert(fv[i] == x);
                    assert(requested_hashes.hashes@.contains(h));
                    assert(fv[j] == fv0[j]);
                    assert(!flights_contain_hash(fv0, h));
                } else {
                    assert(fv[j] == x);
                    assert(fv[i] == fv0[i]);
                    assert(flights_contain_hash(fv0, h)) by {
                        assert(0 <= i < fv0.len() && fv0[i].hashes.contains(h));
                    }
                }
            }
            assert forall|h: TxHash| final(self).buffered_hashes@.contains(h)
                implies !flights_contain_hash(fv, h) by {
                assert(!flights_contain_hash(fv0, h));
                if flights_contain_hash(fv, h) {
                    let i = choose|i: int| 0 <= i < fv.len() && #[trigger] fv[i].hashes.contains(
                        h,
                    );
                    if i < fv0.len() {
                        assert(fv0[i].hashes.contains(h));
                    } else {
                        assert(fv[i] == x);
                    }
                }
            }
            assert(final(self).inv());
        }
    }
}

/// Whether a peer has capacity for one more inflight request.
pub open spec fn idle_spec(active: Map<PeerId, u8>, p: PeerId) -> bool {
    !active.contains_key(p) || active[p] < MAX_CONCURRENT_TX_REQUESTS_PER_PEER
}

/// The scan of a hash's fallback peers for an idle one with a live
/// session, starting at position `i`: the first such peer if any, together
/// with the idle peers met before it whose sessions have ended.
pub open spec fn idle_scan(
    peers: Seq<PeerId>,
    i: int,
    active: Map<PeerId, u8>,
    sessions: Seq<PeerId>,
) -> (Option<PeerId>, Seq<PeerId>)
    decreases peers.len() - i,
{
    if i < 0 || i >= peers.len() {
        (None, Seq::empty())
    } else {
        let p = peers[i];
        if idle_spec(active, p) {
            if sessions.contains(p) {
                (Some(p), Seq::empty())
            } else {
                let r = idle_scan(peers, i + 1, active, sessions);
                (r.0, seq![p] + r.1)
            }
        } else {
            idle_scan(peers, i + 1, active, sessions)
        }
    }
}

impl TransactionFetcher {
    /// Returns an idle fallback peer with a live session for the given
    /// hash, scanning the hash's fallback peers from the least recently
    /// inserted end.  Idle peers whose sessions have ended are appended to
    /// `ended_sessions_buf` for the caller to unregister.
    pub fn get_idle_peer_for(
        &self,
        hash: &TxHash,
        ended_sessions_buf: &mut Vec<PeerId>,
        active_sessions: &Vec<PeerId>,
    ) -> (r: Option<PeerId>)
        requires
            self.inv(),
        ensures
            !self.unknown_hashes@.contains_key(*hash)
                ==> (r is None && *final(ended_sessions_buf) == *old(ended_sessions_buf)),
            self.unknown_hashes@.contains_key(*hash) ==> ({
                let s = idle_scan(
                    self.unknown_hashes@[*hash].peers,
                    0,
                    self.active_peers@,
                    active_sessions@,
                );
                r == s.0 && final(ended_sessions_buf)@ == old(ended_sessions_buf)@ + s.1
            }),
    {
        if !self.unknown_hashes.contains(hash) {
            return None;
        }
        let ghost peers = self.unknown_hashes@[*hash].peers;
        let ghost active = self.active_peers@;
        let ghost sessions = active_sessions@;
        let n = self.unknown_hashes.fallback_len(hash);
        let ghost added = Seq::<PeerId>::empty();
        proof {
            assert(old(ended_sessions_buf)@ + added =~= old(ended_sessions_buf)@);
        }
        let mut i: usize = 0;
        while i < n
            invariant
                n == peers.len(),
                0 <= i <= n,
                ended_sessions_buf@ == old(ended_sessions_buf)@ + added,
                idle_scan(peers, 0, active, sessions) == ({
                    let t = idle_scan(peers, i as int, active, sessions);
                    (t.0, added + t.1)
                }),
            decreases n - i,
        {
            let p = self.unknown_hashes.fallback_at(hash, i);
            if self.is_idle(&p) {
                if crate::caches::peers_contain(active_sessions, &p) {
                    proof {
                        assert(added + Seq::<PeerId>::empty() =~= added);
                    }
                    return Some(p);
                } else {
                    ended_sessions_buf.push(p);
                    proof {
                        let t2 = idle_scan(peers, i + 1, active, sessions);
                        added = added.push(peers[i as int]);
                        assert(ended_sessions_buf@ =~= old(ended_sessions_buf)@ + added);
                        assert(added.drop_last() + (seq![peers[i as int]] + t2.1) =~= added
                            + t2.1);
                    }
                }
            }
            i += 1;
        }
        proof {
            assert(added + Seq::<PeerId>::empty() =~= added);
        }
        None
    }
}

} // verus!
