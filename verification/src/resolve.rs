//! Reconciling a resolved request: the peer's activity is decremented, the
//! pending entry retired, fetched hashes leave all tracking, and hashes the
//! peer did not return are buffered for a bounded retry.

use vstd::prelude::*;
use vstd::map::*;

use crate::buffer::{buffer_fold, known_retained, lemma_buffer_fold_frame,
    lemma_known_retained_props, BufferState};
use crate::fetcher::TransactionFetcher;
use crate::flight::{flight_count, flight_index_of, flights_contain_hash, lemma_flight_at_most_one,
    lemma_flight_count_remove, lemma_flight_count_zero, lemma_flight_index_of};
use crate::seqs::{lemma_seq_without_all_props, seq_without_all};
use crate::types::{FetchEvent, PeerId, RequestError, RequestOutcome, TxHash, ValidTxHashes};

verus! {

/// The requested hashes that the peer's response covers, in request order.
pub open spec fn fetched_of(requested: Seq<TxHash>, returned: Seq<TxHash>) -> Seq<TxHash>
    decreases requested.len(),
{
    if requested.len() == 0 {
        Seq::empty()
    } else if returned.contains(requested[0]) {
        seq![requested[0]] + fetched_of(requested.drop_first(), returned)
    } else {
        fetched_of(requested.drop_first(), returned)
    }
}

/// The requested hashes the peer did not return, in request order.
pub open spec fn leftover_of(requested: Seq<TxHash>, returned: Seq<TxHash>) -> Seq<TxHash>
    decreases requested.len(),
{
    if requested.len() == 0 {
        Seq::empty()
    } else if returned.contains(requested[0]) {
        leftover_of(requested.drop_first(), returned)
    } else {
        seq![requested[0]] + leftover_of(requested.drop_first(), returned)
    }
}

/// What the partition of a request by a response means for membership and
/// duplicates.
pub proof fn lemma_partition_props(requested: Seq<TxHash>, returned: Seq<TxHash>)
    ensures
        forall|x: TxHash|
            #[trigger] fetched_of(requested, returned).contains(x) == (requested.contains(x)
                && returned.contains(x)),
        forall|x: TxHash|
            #[trigger] leftover_of(requested, returned).contains(x) == (requested.contains(x)
                && !returned.contains(x)),
        requested.no_duplicates() ==> fetched_of(requested, returned).no_duplicates(),
        requested.no_duplicates() ==> leftover_of(requested, returned).no_duplicates(),
    decreases requested.len(),
{
    broadcast use vstd::seq_lib::group_seq_properties;

    let f = fetched_of(requested, returned);
    let l = leftover_of(requested, returned);
    if requested.len() > 0 {
        let rest = requested.drop_first();
        lemma_partition_props(rest, returned);
        let fr = fetched_of(rest, returned);
        let lr = leftover_of(rest, returned);
        assert forall|x: TxHash| requested.contains(x) == (x == requested[0] || rest.contains(
            x,
        )) by {
            if requested.contains(x) {
                let j = choose|j: int|
                    #![trigger requested[j]]
                    0 <= j < requested.len() && requested[j] == x;
                if j > 0 {
                    assert(rest[j - 1] == x);
                    assert(rest.contains(rest[j - 1]));
                }
            }
            if rest.contains(x) {
                let j = choose|j: int| #![trigger rest[j]] 0 <= j < rest.len() && rest[j] == x;
                assert(requested[j + 1] == x);
                assert(requested.contains(requested[j + 1]));
            }
        }
        assert forall|x: TxHash| #[trigger] f.contains(x) == (requested.contains(x)
            && returned.contains(x)) by {
            if returned.contains(requested[0]) {
                assert(f == seq![requested[0]] + fr);
                assert(f.contains(x) == (x == requested[0] || fr.contains(x))) by {
                    if f.contains(x) {
                        let j = choose|j: int| #![trigger f[j]] 0 <= j < f.len() && f[j] == x;
                        if j > 0 {
                            assert(fr[j - 1] == x);
                            assert(fr.contains(fr[j - 1]));
                        }
                    }
                    assert(f[0] == requested[0]);
                    assert(f.contains(f[0]));
                    if fr.contains(x) {
                        let j = choose|j: int| #![trigger fr[j]] 0 <= j < fr.len() && fr[j]
                            == x;
                        assert(f[j + 1] == x);
                        assert(f.contains(f[j + 1]));
                    }
                }
            } else {
                assert(f == fr);
            }
        }
        assert forall|x: TxHash| #[trigger] l.contains(x) == (requested.contains(x)
            && !returned.contains(x)) by {
            if !returned.contains(requested[0]) {
                assert(l == seq![requested[0]] + lr);
                assert(l.contains(x) == (x == requested[0] || lr.contains(x))) by {
                    if l.contains(x) {
                        let j = choose|j: int| #![trigger l[j]] 0 <= j < l.len() && l[j] == x;
                        if j > 0 {
                            assert(lr[j - 1] == x);
                            assert(lr.contains(lr[j - 1]));
                        }
                    }
                    assert(l[0] == requested[0]);
                    assert(l.contains(l[0]));
                    if lr.contains(x) {
                        let j = choose|j: int| #![trigger lr[j]] 0 <= j < lr.len() && lr[j]
                            == x;
                        assert(l[j + 1] == x);
                        assert(l.contains(l[j + 1]));
                    }
                }
            } else {
                assert(l == lr);
            }
        }
        if requested.no_duplicates() {
            assert(rest.no_duplicates());
            assert(!rest.contains(requested[0]));
            if returned.contains(requested[0]) {
                assert(f == seq![requested[0]] + fr);
                assert forall|a: int, b: int| 0 <= a < b < f.len() implies f[a] != f[b] by {
                    assert(f[b] == fr[b - 1]);
                    assert(fr.contains(fr[b - 1]));
                    if a > 0 {
                        assert(f[a] == fr[a - 1]);
                    } else {
                        assert(f[a] == requested[0]);
                        assert(rest.contains(fr[b - 1]));
                    }
                }
                assert(f.no_duplicates());
            } else {
                assert(l == seq![requested[0]] + lr);
                assert forall|a: int, b: int| 0 <= a < b < l.len() implies l[a] != l[b] by {
                    assert(l[b] == lr[b - 1]);
                    assert(lr.contains(lr[b - 1]));
                    if a > 0 {
                        assert(l[a] == lr[a - 1]);
                    } else {
                        assert(l[a] == requested[0]);
                        assert(rest.contains(lr[b - 1]));
                    }
                }
                assert(l.no_duplicates());
            }
        }
    }
}

impl TransactionFetcher {
    /// Reconciles the resolved request of `peer_id` with its outcome.
    ///
    /// The peer becomes idle again and its pending request is retired.  If
    /// the peer answered with transactions, the requested hashes it covered
    /// leave all tracking and the event reports them fetched; the hashes it
    /// did not return are buffered for a bounded retry.  On a protocol
    /// error, or when the response channel was dropped, all requested
    /// hashes are buffered for retry and the event reports the error.
    /// Hashes that left the unknown-hash table in the meantime — their
    /// transactions may have arrived over broadcast — are not re-buffered.
    pub fn on_resolved_request(&mut self, peer_id: PeerId, result: RequestOutcome) -> (event:
        FetchEvent)
        requires
            old(self).inv(),
            flight_count(old(self).inflight_requests@, peer_id) > 0,
        ensures
            final(self).inv(),
            ({
                let fv0 = old(self).inflight_requests@;
                let gi = flight_index_of(fv0, peer_id);
                let requested = fv0[gi].hashes;
                let cap = old(self).buffered_hashes.cap();
                &&& 0 <= gi < fv0.len() && fv0[gi].peer == peer_id
                &&& final(self).inflight_requests@ == fv0.remove(gi)
                &&& final(self).active_peers@ == old(self).active_peers@.remove(peer_id)
                &&& final(self).buffered_hashes.cap() == cap
                &&& (match result {
                    RequestOutcome::Transactions(returned) => {
                        let fetched = fetched_of(requested, returned@);
                        let leftover = leftover_of(requested, returned@);
                        let u1 = old(self).unknown_hashes@.remove_keys(fetched.to_set());
                        let b1 = seq_without_all(old(self).buffered_hashes@, fetched);
                        let r = buffer_fold(
                            BufferState { unknown: u1, buffered: b1, drops: Seq::empty() },
                            known_retained(leftover, u1),
                            0,
                            None,
                            cap,
                        );
                        &&& (event matches FetchEvent::TransactionsFetched {
                            peer_id: ep,
                            fetched: ef,
                        } && ep == peer_id && ef@ == fetched)
                        &&& final(self).unknown_hashes@ == r.unknown.remove_keys(
                            r.drops.to_set(),
                        )
                        &&& final(self).eth68_meta@ == old(self).eth68_meta@.remove_keys(
                            fetched.to_set(),
                        ).remove_keys(r.drops.to_set())
                        &&& final(self).buffered_hashes@ == seq_without_all(r.buffered, r.drops)
                        &&& forall|h: TxHash|
                            requested.contains(h) && returned@.contains(h)
                                ==> (!final(self).unknown_hashes@.contains_key(h)
                                && !final(self).eth68_meta@.contains_key(h)
                                && !final(self).buffered_hashes@.contains(h))
                    },
                    RequestOutcome::Error(err) => {
                        let r = buffer_fold(
                            BufferState {
                                unknown: old(self).unknown_hashes@,
                                buffered: old(self).buffered_hashes@,
                                drops: Seq::empty(),
                            },
                            known_retained(requested, old(self).unknown_hashes@),
                            0,
                            None,
                            cap,
                        );
                        &&& (event matches FetchEvent::FetchError { peer_id: ep, error: ee }
                            && ep == peer_id && ee == err)
                        &&& final(self).unknown_hashes@ == r.unknown.remove_keys(
                            r.drops.to_set(),
                        )
                        &&& final(self).eth68_meta@ == old(self).eth68_meta@.remove_keys(
                            r.drops.to_set(),
                        )
                        &&& final(self).buffered_hashes@ == seq_without_all(r.buffered, r.drops)
                    },
                    RequestOutcome::ChannelClosed => {
                        let r = buffer_fold(
                            BufferState {
                                unknown: old(self).unknown_hashes@,
                                buffered: old(self).buffered_hashes@,
                                drops: Seq::empty(),
                            },
                            known_retained(requested, old(self).unknown_hashes@),
                            0,
                            None,
                            cap,
                        );
                        &&& (event matches FetchEvent::FetchError { peer_id: ep, error: ee }
                            && ep == peer_id && ee == RequestError::ChannelClosed)
                        &&& final(self).unknown_hashes@ == r.unknown.remove_keys(
                            r.drops.to_set(),
                        )
                        &&& final(self).eth68_meta@ == old(self).eth68_meta@.remove_keys(
                            r.drops.to_set(),
                        )
                        &&& final(self).buffered_hashes@ == seq_without_all(r.buffered, r.drops)
                    },
                })
            }),
    {
        let ghost fv0 = old(self).inflight_requests@;
        proof {
            lemma_flight_index_of(fv0, peer_id);
            lemma_flight_count_zero(fv0, peer_id);
        }
        self.decrement_inflight_request_count_for(&peer_id);
        let req = match self.inflight_requests.pop_for_peer(&peer_id) {
            Some(req) => req,
            None => {
                proof {
                    assert(fv0[flight_index_of(fv0, peer_id)].peer == peer_id);
                    assert(false);
                }
                vstd::pervasive::unreached()
            },
        };
        let ghost gi = flight_index_of(fv0, peer_id);
        proof {
            assert(exists|i: int|
                0 <= i < fv0.len() && fv0[i] == crate::flight::flight_view(req)
                    && self.inflight_requests@ == fv0.remove(i));
            let wi = choose|i: int|
                0 <= i < fv0.len() && fv0[i] == crate::flight::flight_view(req)
                    && self.inflight_requests@ == fv0.remove(i);
            assert(flight_count(old(self).inflight_requests@, peer_id) <= (
            if old(self).active_peers@.contains_key(peer_id) {
                old(self).active_peers@[peer_id] as int
            } else {
                0
            }));
            assert(old(self).active_peers@.contains_key(peer_id));
            assert(flight_count(fv0, peer_id) <= old(self).active_peers@[peer_id]);
            assert(fv0[wi].peer == peer_id);
            lemma_flight_at_most_one(fv0, peer_id, wi, gi);
            assert(crate::flight::flight_view(req) == fv0[gi]);
            assert(self.inflight_requests@ == fv0.remove(gi));
            lemma_flight_count_remove(fv0, gi, peer_id);
            assert(old(self).active_peers@[peer_id] <= 1);
            assert(self.active_peers@ == old(self).active_peers@.remove(peer_id));
            old(self).active_peers.lemma_dom_finite();
            assert(self.active_peers@.dom() =~= old(self).active_peers@.dom().remove(peer_id));
            assert forall|q: PeerId| #[trigger] flight_count(self.inflight_requests@, q) <= (
            if self.active_peers@.contains_key(q) {
                self.active_peers@[q] as int
            } else {
                0
            }) by {
                lemma_flight_count_remove(fv0, gi, q);
            }
            assert forall|i: int| 0 <= i < self.inflight_requests@.len() implies (
            #[trigger] self.inflight_requests@[i].hashes).no_duplicates() by {
                fv0.remove_ensures(gi);
                assert(self.inflight_requests@[i] == (if i < gi {
                    fv0[i]
                } else {
                    fv0[i + 1]
                }));
            }
            assert forall|i: int, j: int, h: TxHash|
                0 <= i < self.inflight_requests@.len() && 0 <= j
                    < self.inflight_requests@.len() && i != j
                    && #[trigger] self.inflight_requests@[i].hashes.contains(h) implies !(
            #[trigger] self.inflight_requests@[j].hashes.contains(h)) by {
                fv0.remove_ensures(gi);
                let i0 = if i < gi { i } else { i + 1 };
                let j0 = if j < gi { j } else { j + 1 };
                assert(self.inflight_requests@[i] == fv0[i0]);
                assert(self.inflight_requests@[j] == fv0[j0]);
            }
            assert forall|h: TxHash| self.buffered_hashes@.contains(h)
                implies !flights_contain_hash(self.inflight_requests@, h) by {
                if flights_contain_hash(self.inflight_requests@, h) {
                    let i = choose|i: int|
                        0 <= i < self.inflight_requests@.len()
                            && #[trigger] self.inflight_requests@[i].hashes.contains(h);
                    fv0.remove_ensures(gi);
                    let i0 = if i < gi { i } else { i + 1 };
                    assert(self.inflight_requests@[i] == fv0[i0]);
                    assert(flights_contain_hash(fv0, h)) by {
                        assert(fv0[i0].hashes.contains(h));
                    }
                }
            }
            assert(self.inv());
            assert(fv0[gi].hashes.no_duplicates());
            assert forall|h: TxHash| #[trigger] req.hashes@.contains(h)
                implies !flights_contain_hash(self.inflight_requests@, h) by {
                if flights_contain_hash(self.inflight_requests@, h) {
                    let i = choose|i: int|
                        0 <= i < self.inflight_requests@.len()
                            && #[trigger] self.inflight_requests@[i].hashes.contains(h);
                    fv0.remove_ensures(gi);
                    let i0 = if i < gi { i } else { i + 1 };
                    assert(self.inflight_requests@[i] == fv0[i0]);
                    assert(i0 != gi);
                    assert(fv0[gi].hashes.contains(h));
                }
            }
        }
        match result {
            RequestOutcome::Transactions(returned) => {
                let ghost requested = req.hashes@;
                let ghost ret = returned@;
                proof {
                    lemma_partition_props(requested, ret);
                    assert(requested.skip(0) =~= requested);
                    assert(Seq::<TxHash>::empty() + fetched_of(requested, ret) =~= fetched_of(
                        requested,
                        ret,
                    ));
                    assert(Seq::<TxHash>::empty() + leftover_of(requested, ret) =~= leftover_of(
                        requested,
                        ret,
                    ));
                }
                let mut fetched: Vec<TxHash> = Vec::new();
                let mut leftover: Vec<TxHash> = Vec::new();
                let n = req.hashes.len();
                let mut i: usize = 0;
                while i < n
                    invariant
                        n == requested.len(),
                        0 <= i <= n,
                        req.hashes@ == requested,
                        returned@ == ret,
                        fetched_of(requested, ret) == fetched@ + fetched_of(
                            requested.skip(i as int),
                            ret,
                        ),
                        leftover_of(requested, ret) == leftover@ + leftover_of(
                            requested.skip(i as int),
                            ret,
                        ),
                    decreases n - i,
                {
                    proof {
                        assert(requested.skip(i as int)[0] == requested[i as int]);
                        assert(requested.skip(i as int).drop_first() =~= requested.skip(i + 1));
                    }
                    let h = req.hashes[i];
                    if crate::caches::hashes_contain(&returned, &h) {
                        fetched.push(h);
                        proof {
                            assert(fetched_of(requested.skip(i as int), ret)
                                == seq![requested[i as int]] + fetched_of(
                                requested.skip(i + 1),
                                ret,
                            ));
                            assert(fetched@ + fetched_of(requested.skip(i + 1), ret)
                                =~= fetched@.drop_last() + fetched_of(
                                requested.skip(i as int),
                                ret,
                            ));
                        }
                    } else {
                        leftover.push(h);
                        proof {
                            assert(leftover_of(requested.skip(i as int), ret)
                                == seq![requested[i as int]] + leftover_of(
                                requested.skip(i + 1),
                                ret,
                            ));
                            assert(leftover@ + leftover_of(requested.skip(i + 1), ret)
                                =~= leftover@.drop_last() + leftover_of(
                                requested.skip(i as int),
                                ret,
                            ));
                        }
                    }
                    i += 1;
                }
                proof {
                    assert(requested.skip(n as int) =~= Seq::<TxHash>::empty());
                    assert(fetched@ + fetched_of(requested.skip(n as int), ret) =~= fetched@);
                    assert(leftover@ + leftover_of(requested.skip(n as int), ret)
                        =~= leftover@);
                    assert(fetched@ == fetched_of(requested, ret));
                    assert(leftover@ == leftover_of(requested, ret));
                }
                self.remove_from_unknown_hashes(&fetched);
                let leftover_batch = ValidTxHashes { hashes: leftover, version: req.version };
                proof {
                    assert forall|h: TxHash| leftover_batch.hashes@.contains(h)
                        implies !flights_contain_hash(self.inflight_requests@, h) by {
                        assert(requested.contains(h));
                        assert(req.hashes@.contains(h));
                    }
                }
                self.buffer_hashes_for_retry(&leftover_batch);
                proof {
                    let u1 = old(self).unknown_hashes@.remove_keys(
                        fetched_of(requested, ret).to_set(),
                    );
                    let b1 = seq_without_all(
                        old(self).buffered_hashes@,
                        fetched_of(requested, ret),
                    );
                    let cap = old(self).buffered_hashes.cap();
                    let r = buffer_fold(
                        BufferState { unknown: u1, buffered: b1, drops: Seq::empty() },
                        known_retained(leftover_of(requested, ret), u1),
                        0,
                        None,
                        cap,
                    );
                    lemma_buffer_fold_frame(
                        BufferState { unknown: u1, buffered: b1, drops: Seq::empty() },
                        known_retained(leftover_of(requested, ret), u1),
                        0,
                        None,
                        cap,
                    );
                    lemma_known_retained_props(leftover_of(requested, ret), u1);
                    lemma_seq_without_all_props(r.buffered, r.drops);
                    lemma_seq_without_all_props(
                        old(self).buffered_hashes@,
                        fetched_of(requested, ret),
                    );
                    assert(forall|x: TxHash|
                        fetched_of(requested, ret).to_set().contains(x) == fetched_of(
                            requested,
                            ret,
                        ).contains(x));
                    assert forall|h: TxHash|
                        requested.contains(h) && ret.contains(h) implies (!final(self).unknown_hashes@.contains_key(h) && !final(self).eth68_meta@.contains_key(h) && !final(self).buffered_hashes@.contains(
                        h,
                    )) by {
                        assert(fetched_of(requested, ret).contains(h));
                        assert(!u1.contains_key(h));
                        assert(!r.unknown.contains_key(h));
                        assert(!b1.contains(h));
                        if final(self).buffered_hashes@.contains(h) {
                            assert(r.buffered.contains(h));
                            assert(known_retained(leftover_of(requested, ret), u1).contains(h));
                            assert(leftover_of(requested, ret).contains(h));
                        }
                    }
                }
                FetchEvent::TransactionsFetched { peer_id, fetched }
            },
            RequestOutcome::Error(error) => {
                let batch = ValidTxHashes { hashes: req.hashes, version: req.version };
                self.buffer_hashes_for_retry(&batch);
                FetchEvent::FetchError { peer_id, error }
            },
            RequestOutcome::ChannelClosed => {
                let batch = ValidTxHashes { hashes: req.hashes, version: req.version };
                self.buffer_hashes_for_retry(&batch);
                FetchEvent::FetchError { peer_id, error: RequestError::ChannelClosed }
            },
        }
    }
}

} // verus!
