//! Buffer augmentation: topping a request up with buffered hashes for which
//! the target peer is registered as a fallback, in least-recently-used
//! order, up to the count and byte soft limits.

use vstd::prelude::*;
use vstd::map::*;

use crate::fetcher::TransactionFetcher;
use crate::maps::EntryView;
use crate::seqs::{lemma_seq_without_all_props, lemma_seq_without_all_push, lemma_seq_without_props,
    seq_without, seq_without_all};
use crate::types::{PeerId, TxHash, GET_POOLED_TRANSACTION_SOFT_LIMIT_NUM_HASHES,
    SOFT_LIMIT_BYTE_SIZE_POOLED_TRANSACTIONS_RESPONSE_MESSAGE};

verus! {

/// The scan of the buffered hashes that tops up an `Eth68` request: picked
/// hashes, the unknown-hash table after the picked promotions, and the
/// final accumulated response size.  Starting from position `i` with `n`
/// hashes already in the request and `acc` bytes accounted, the scan stops
/// once the request exceeds the count soft limit or the response reaches
/// two thirds of the byte soft limit; it picks a buffered hash exactly when
/// a declared size is recorded that still fits and the peer is registered
/// as a fallback for it, unregistering the peer as it does.
pub open spec fn fill68_fold(
    u: Map<TxHash, EntryView>,
    buffered: Seq<TxHash>,
    i: int,
    n: int,
    acc: int,
    meta: Map<TxHash, usize>,
    peer: PeerId,
) -> (Map<TxHash, EntryView>, Seq<TxHash>, int)
    decreases buffered.len() - i,
{
    if i < 0 || i >= buffered.len() || n > GET_POOLED_TRANSACTION_SOFT_LIMIT_NUM_HASHES as int
        || acc >= 2 * SOFT_LIMIT_BYTE_SIZE_POOLED_TRANSACTIONS_RESPONSE_MESSAGE as int / 3 {
        (u, Seq::empty(), acc)
    } else {
        let h = buffered[i];
        if meta.contains_key(h) && acc + meta[h]
            <= SOFT_LIMIT_BYTE_SIZE_POOLED_TRANSACTIONS_RESPONSE_MESSAGE as int
            && u.contains_key(h) && u[h].peers.contains(peer) {
            let u2 = u.insert(
                h,
                EntryView { retries: u[h].retries, peers: seq_without(u[h].peers, peer) },
            );
            let r = fill68_fold(u2, buffered, i + 1, n + 1, acc + meta[h], meta, peer);
            (r.0, seq![h] + r.1, r.2)
        } else {
            fill68_fold(u, buffered, i + 1, n, acc, meta, peer)
        }
    }
}

/// The scan of the buffered hashes that tops up an `Eth66` request: picked
/// hashes and the unknown-hash table after the picked promotions.  The scan
/// stops at the count soft limit and picks a buffered hash exactly when no
/// declared size is recorded for it — such a hash is `Eth66` — and the
/// peer is registered as a fallback for it, unregistering the peer.
pub open spec fn fill66_fold(
    u: Map<TxHash, EntryView>,
    buffered: Seq<TxHash>,
    i: int,
    n: int,
    meta: Map<TxHash, usize>,
    peer: PeerId,
) -> (Map<TxHash, EntryView>, Seq<TxHash>)
    decreases buffered.len() - i,
{
    if i < 0 || i >= buffered.len() || n >= GET_POOLED_TRANSACTION_SOFT_LIMIT_NUM_HASHES as int {
        (u, Seq::empty())
    } else {
        let h = buffered[i];
        if !meta.contains_key(h) && u.contains_key(h) && u[h].peers.contains(peer) {
            let u2 = u.insert(
                h,
                EntryView { retries: u[h].retries, peers: seq_without(u[h].peers, peer) },
            );
            let r = fill66_fold(u2, buffered, i + 1, n + 1, meta, peer);
            (r.0, seq![h] + r.1)
        } else {
            fill66_fold(u, buffered, i + 1, n, meta, peer)
        }
    }
}

impl TransactionFetcher {
    /// Removes every hash of `hashes` from the buffered cache.
    fn unbuffer_request_hashes(&mut self, hashes: &Vec<TxHash>)
        requires
            old(self).inv(),
        ensures
            final(self).inv(),
            final(self).buffered_hashes@ == seq_without_all(old(self).buffered_hashes@, hashes@),
            final(self).buffered_hashes.cap() == old(self).buffered_hashes.cap(),
            final(self).unknown_hashes == old(self).unknown_hashes,
            final(self).eth68_meta == old(self).eth68_meta,
            final(self).active_peers == old(self).active_peers,
            final(self).inflight_requests == old(self).inflight_requests,
    {
        proof {
            assert(hashes@.take(0) =~= Seq::<TxHash>::empty());
        }
        let n = hashes.len();
        let mut i: usize = 0;
        while i < n
            invariant
                n == hashes@.len(),
                0 <= i <= n,
                self.buffered_hashes@ == seq_without_all(
                    old(self).buffered_hashes@,
                    hashes@.take(i as int),
                ),
                self.buffered_hashes.cap() == old(self).buffered_hashes.cap(),
                self.buffered_hashes.wf(),
                self.unknown_hashes == old(self).unknown_hashes,
                self.eth68_meta == old(self).eth68_meta,
                self.active_peers == old(self).active_peers,
                self.inflight_requests == old(self).inflight_requests,
            decreases n - i,
        {
            let h = hashes[i];
            proof {
                lemma_seq_without_all_push(old(self).buffered_hashes@, hashes@.take(i as int), h);
                assert(hashes@.take(i + 1) =~= hashes@.take(i as int).push(h));
            }
            self.buffered_hashes.remove(&h);
            i += 1;
        }
        proof {
            assert(hashes@.take(n as int) =~= hashes@);
            lemma_seq_without_all_props(old(self).buffered_hashes@, hashes@);
            assert forall|h: TxHash| final(self).buffered_hashes@.contains(h)
                implies final(self).unknown_hashes@.contains_key(h) by {
                assert(old(self).buffered_hashes@.contains(h));
            }
            assert forall|h: TxHash| final(self).buffered_hashes@.contains(h)
                implies !crate::flight::flights_contain_hash(
                final(self).inflight_requests@,
                h,
            ) by {
                assert(old(self).buffered_hashes@.contains(h));
            }
            assert(final(self).inv());
        }
    }

    /// Tops an `Eth68` request up with buffered hashes for which the peer
    /// is registered as a fallback, promoting the peer from fallback to
    /// active requester for each added hash and removing the added hashes
    /// from the buffer.  Returns at once if the accumulated response size
    /// has already reached half the byte soft limit.
    pub fn fill_eth68_request_for_peer(
        &mut self,
        hashes: &mut Vec<TxHash>,
        peer_id: &PeerId,
        acc_size_response: &mut usize,
    )
        requires
            old(self).inv(),
            old(hashes)@.no_duplicates(),
            forall|h: TxHash|
                old(hashes)@.contains(h) ==> !old(self).buffered_hashes@.contains(h),
            *old(acc_size_response) <= SOFT_LIMIT_BYTE_SIZE_POOLED_TRANSACTIONS_RESPONSE_MESSAGE,
        ensures
            final(self).inv(),
            *old(acc_size_response)
                >= SOFT_LIMIT_BYTE_SIZE_POOLED_TRANSACTIONS_RESPONSE_MESSAGE / 2
                ==> (*final(self) == *old(self) && *final(hashes) == *old(hashes)
                && *final(acc_size_response) == *old(acc_size_response)),
            *old(acc_size_response)
                < SOFT_LIMIT_BYTE_SIZE_POOLED_TRANSACTIONS_RESPONSE_MESSAGE / 2 ==> ({
                let r = fill68_fold(
                    old(self).unknown_hashes@,
                    old(self).buffered_hashes@,
                    0,
                    old(hashes)@.len() as int,
                    *old(acc_size_response) as int,
                    old(self).eth68_meta@,
                    *peer_id,
                );
                &&& final(hashes)@ == old(hashes)@ + r.1
                &&& final(self).unknown_hashes@ == r.0
                &&& *final(acc_size_response) == r.2
                &&& final(self).buffered_hashes@ == seq_without_all(
                    old(self).buffered_hashes@,
                    old(hashes)@ + r.1,
                )
            }),
            final(self).buffered_hashes.cap() == old(self).buffered_hashes.cap(),
            final(self).eth68_meta == old(self).eth68_meta,
            final(self).active_peers == old(self).active_peers,
            final(self).inflight_requests == old(self).inflight_requests,
    {
        if *acc_size_response >= SOFT_LIMIT_BYTE_SIZE_POOLED_TRANSACTIONS_RESPONSE_MESSAGE / 2 {
            return ;
        }
        let ghost u0 = old(self).unknown_hashes@;
        let ghost b0 = old(self).buffered_hashes@;
        let ghost meta = old(self).eth68_meta@;
        let ghost hs0 = old(hashes)@;
        let ghost acc0 = *old(acc_size_response) as int;
        proof {
            assert(hs0 + fill68_fold(u0, b0, 0, hs0.len() as int, acc0, meta, *peer_id).1
                =~= hs0 + fill68_fold(u0, b0, 0, hs0.len() as int, acc0, meta, *peer_id).1);
        }
        let nb = self.buffered_hashes.len();
        let mut i: usize = 0;
        while i < nb && hashes.len() <= GET_POOLED_TRANSACTION_SOFT_LIMIT_NUM_HASHES
            && *acc_size_response < 2 * SOFT_LIMIT_BYTE_SIZE_POOLED_TRANSACTIONS_RESPONSE_MESSAGE
            / 3
            invariant
                nb == self.buffered_hashes@.len(),
                0 <= i <= nb,
                self.inv(),
                *acc_size_response <= SOFT_LIMIT_BYTE_SIZE_POOLED_TRANSACTIONS_RESPONSE_MESSAGE,
                self.buffered_hashes == old(self).buffered_hashes,
                self.eth68_meta == old(self).eth68_meta,
                self.active_peers == old(self).active_peers,
                self.inflight_requests == old(self).inflight_requests,
                hashes@.len() >= hs0.len(),
                fill68_fold(u0, b0, 0, hs0.len() as int, acc0, meta, *peer_id) == ({
                    let r = fill68_fold(
                        self.unknown_hashes@,
                        b0,
                        i as int,
                        hashes@.len() as int,
                        *acc_size_response as int,
                        meta,
                        *peer_id,
                    );
                    (r.0, hashes@.skip(hs0.len() as int) + r.1, r.2)
                }),
                hashes@.take(hs0.len() as int) == hs0,
            decreases nb - i,
        {
            let h = self.buffered_hashes.get_at(i);
            let ghost u_cur = self.unknown_hashes@;
            let ghost n_cur = hashes@.len() as int;
            let ghost acc_cur = *acc_size_response as int;
            let mut next_acc: usize = *acc_size_response;
            let fits = self.include_eth68_hash(&mut next_acc, &h);
            if fits {
                proof {
                    assert(self.buffered_hashes@.contains(b0[i as int]));
                    assert(self.unknown_hashes@.contains_key(b0[i as int]));
                    lemma_seq_without_props(u_cur[b0[i as int]].peers, *peer_id);
                }
                let ghost hs_pre = hashes@;
                if self.unknown_hashes.remove_fallback(&h, peer_id) {
                    hashes.push(h);
                    *acc_size_response = next_acc;
                    proof {
                        assert(self.unknown_hashes@ =~= u_cur.insert(
                            b0[i as int],
                            EntryView {
                                retries: u_cur[b0[i as int]].retries,
                                peers: seq_without(u_cur[b0[i as int]].peers, *peer_id),
                            },
                        ));
                        let r_next = fill68_fold(
                            self.unknown_hashes@,
                            b0,
                            i + 1,
                            n_cur + 1,
                            acc_cur + meta[b0[i as int]],
                            meta,
                            *peer_id,
                        );
                        assert(hashes@.skip(hs0.len() as int) =~= hs_pre.skip(
                            hs0.len() as int,
                        ).push(b0[i as int]));
                        assert(hashes@.take(hs0.len() as int) =~= hs0);
                        assert(hs_pre.skip(hs0.len() as int) + (seq![b0[i as int]] + r_next.1)
                            =~= hashes@.skip(hs0.len() as int) + r_next.1);
                    }
                } else {
                    proof {
                        assert(self.unknown_hashes@ =~= u_cur.insert(
                            b0[i as int],
                            EntryView {
                                retries: u_cur[b0[i as int]].retries,
                                peers: u_cur[b0[i as int]].peers,
                            },
                        ));
                        assert(self.unknown_hashes@ =~= u_cur);
                    }
                }
            }
            i += 1;
        }
        proof {
            let r_end = fill68_fold(
                self.unknown_hashes@,
                b0,
                i as int,
                hashes@.len() as int,
                *acc_size_response as int,
                meta,
                *peer_id,
            );
            assert(r_end.1 =~= Seq::<TxHash>::empty());
            assert(hashes@.skip(hs0.len() as int) + Seq::<TxHash>::empty() =~= hashes@.skip(
                hs0.len() as int,
            ));
            assert(hashes@ =~= hashes@.take(hs0.len() as int) + hashes@.skip(hs0.len() as int));
        }
        self.unbuffer_request_hashes(hashes);
    }

    /// Tops an `Eth66` request up with buffered hashes for which the peer
    /// is registered as a fallback, promoting the peer from fallback to
    /// active requester for each added hash and removing the added hashes
    /// from the buffer.
    pub fn fill_eth66_request_for_peer(&mut self, hashes: &mut Vec<TxHash>, peer_id: &PeerId)
        requires
            old(self).inv(),
            old(hashes)@.no_duplicates(),
            forall|h: TxHash|
                old(hashes)@.contains(h) ==> !old(self).buffered_hashes@.contains(h),
        ensures
            final(self).inv(),
            ({
                let r = fill66_fold(
                    old(self).unknown_hashes@,
                    old(self).buffered_hashes@,
                    0,
                    old(hashes)@.len() as int,
                    old(self).eth68_meta@,
                    *peer_id,
                );
                &&& final(hashes)@ == old(hashes)@ + r.1
                &&& final(self).unknown_hashes@ == r.0
                &&& final(self).buffered_hashes@ == seq_without_all(
                    old(self).buffered_hashes@,
                    old(hashes)@ + r.1,
                )
            }),
            final(self).buffered_hashes.cap() == old(self).buffered_hashes.cap(),
            final(self).eth68_meta == old(self).eth68_meta,
            final(self).active_peers == old(self).active_peers,
            final(self).inflight_requests == old(self).inflight_requests,
    {
        let ghost u0 = old(self).unknown_hashes@;
        let ghost b0 = old(self).buffered_hashes@;
        let ghost meta = old(self).eth68_meta@;
        let ghost hs0 = old(hashes)@;
        let nb = self.buffered_hashes.len();
        let mut i: usize = 0;
        while i < nb && hashes.len() < GET_POOLED_TRANSACTION_SOFT_LIMIT_NUM_HASHES
            invariant
                nb == self.buffered_hashes@.len(),
                0 <= i <= nb,
                self.inv(),
                self.buffered_hashes == old(self).buffered_hashes,
                self.eth68_meta == old(self).eth68_meta,
                self.active_peers == old(self).active_peers,
                self.inflight_requests == old(self).inflight_requests,
                hashes@.len() >= hs0.len(),
                fill66_fold(u0, b0, 0, hs0.len() as int, meta, *peer_id) == ({
                    let r = fill66_fold(
                        self.unknown_hashes@,
                        b0,
                        i as int,
                        hashes@.len() as int,
                        meta,
                        *peer_id,
                    );
                    (r.0, hashes@.skip(hs0.len() as int) + r.1)
                }),
                hashes@.take(hs0.len() as int) == hs0,
            decreases nb - i,
        {
            let h = self.buffered_hashes.get_at(i);
            let ghost u_cur = self.unknown_hashes@;
            let is_eth68 = self.eth68_meta.contains(&h);
            if !is_eth68 {
                proof {
                    assert(self.buffered_hashes@.contains(b0[i as int]));
                    assert(self.unknown_hashes@.contains_key(b0[i as int]));
                    lemma_seq_without_props(u_cur[b0[i as int]].peers, *peer_id);
                }
                let ghost hs_pre = hashes@;
                let ghost n_cur = hashes@.len() as int;
                if self.unknown_hashes.remove_fallback(&h, peer_id) {
                    hashes.push(h);
                    proof {
                        assert(self.unknown_hashes@ =~= u_cur.insert(
                            b0[i as int],
                            EntryView {
                                retries: u_cur[b0[i as int]].retries,
                                peers: seq_without(u_cur[b0[i as int]].peers, *peer_id),
                            },
                        ));
                        let r_next = fill66_fold(
                            self.unknown_hashes@,
                            b0,
                            i + 1,
                            n_cur + 1,
                            meta,
                            *peer_id,
                        );
                        assert(hashes@.skip(hs0.len() as int) =~= hs_pre.skip(
                            hs0.len() as int,
                        ).push(b0[i as int]));
                        assert(hashes@.take(hs0.len() as int) =~= hs0);
                        assert(hs_pre.skip(hs0.len() as int) + (seq![b0[i as int]] + r_next.1)
                            =~= hashes@.skip(hs0.len() as int) + r_next.1);
                    }
                } else {
                    proof {
                        assert(self.unknown_hashes@ =~= u_cur.insert(
                            b0[i as int],
                            EntryView {
                                retries: u_cur[b0[i as int]].retries,
                                peers: u_cur[b0[i as int]].peers,
                            },
                        ));
                        assert(self.unknown_hashes@ =~= u_cur);
                    }
                }
            }
            i += 1;
        }
        proof {
            let r_end = fill66_fold(
                self.unknown_hashes@,
                b0,
                i as int,
                hashes@.len() as int,
                meta,
                *peer_id,
            );
            assert(r_end.1 =~= Seq::<TxHash>::empty());
            assert(hashes@.skip(hs0.len() as int) + Seq::<TxHash>::empty() =~= hashes@.skip(
                hs0.len() as int,
            ));
            assert(hashes@ =~= hashes@.take(hs0.len() as int) + hashes@.skip(hs0.len() as int));
        }
        self.unbuffer_request_hashes(hashes);
    }
}

} // verus!
