//! Announcement intake: deciding, hash by hash, whether an announced hash
//! should be requested from the announcing peer now, handed to it later as a
//! fallback, or freshly tracked.

use vstd::prelude::*;
use vstd::map::*;

use crate::fetcher::TransactionFetcher;
use crate::maps::EntryView;
use crate::seqs::{lru_inserted, seq_retain, seq_without};
use crate::types::{PeerId, TxHash, ValidTxHashes, MAX_ALTERNATIVE_PEERS_PER_TX};

verus! {

/// The part of the fetcher state that intake touches.
pub struct IntakeState {
    pub unknown: Map<TxHash, EntryView>,
    pub buffered: Seq<TxHash>,
}

/// What intake does for a single announced hash.  A buffered hash leaves
/// the buffer and is retained for the request now being assembled; an
/// inflight hash records the announcing peer as a fallback and is dropped
/// from the announcement; an unseen hash starts being tracked and is
/// retained.  Whenever a tracked hash is met, fallback peers whose sessions
/// have ended are pruned first, so that a full fallback cache does not
/// evict live peers in favour of dead ones.
pub open spec fn intake_step(
    st: IntakeState,
    h: TxHash,
    peer: PeerId,
    sessions: Seq<PeerId>,
) -> (IntakeState, bool) {
    if st.unknown.contains_key(h) {
        let pruned = seq_retain(st.unknown[h].peers, sessions);
        if st.buffered.contains(h) {
            (
                IntakeState {
                    unknown: st.unknown.insert(
                        h,
                        EntryView { retries: st.unknown[h].retries, peers: pruned },
                    ),
                    buffered: seq_without(st.buffered, h),
                },
                true,
            )
        } else {
            (
                IntakeState {
                    unknown: st.unknown.insert(
                        h,
                        EntryView {
                            retries: st.unknown[h].retries,
                            peers: lru_inserted(pruned, MAX_ALTERNATIVE_PEERS_PER_TX as int, peer),
                        },
                    ),
                    buffered: st.buffered,
                },
                false,
            )
        }
    } else {
        (
            IntakeState {
                unknown: st.unknown.insert(h, EntryView { retries: 0, peers: Seq::empty() }),
                buffered: st.buffered,
            },
            true,
        )
    }
}

/// Intake of a list of announced hashes, one at a time, starting at `i`.
pub open spec fn intake_fold(
    st: IntakeState,
    hs: Seq<TxHash>,
    i: int,
    peer: PeerId,
    sessions: Seq<PeerId>,
) -> IntakeState
    decreases hs.len() - i,
{
    if i < 0 || i >= hs.len() {
        st
    } else {
        intake_fold(intake_step(st, hs[i], peer, sessions).0, hs, i + 1, peer, sessions)
    }
}

/// The announced hashes from position `i` on that intake retains, in order.
pub open spec fn intake_retained(
    st: IntakeState,
    hs: Seq<TxHash>,
    i: int,
    peer: PeerId,
    sessions: Seq<PeerId>,
) -> Seq<TxHash>
    decreases hs.len() - i,
{
    if i < 0 || i >= hs.len() {
        Seq::empty()
    } else {
        let (st2, keep) = intake_step(st, hs[i], peer, sessions);
        if keep {
            seq![hs[i]] + intake_retained(st2, hs, i + 1, peer, sessions)
        } else {
            intake_retained(st2, hs, i + 1, peer, sessions)
        }
    }
}

impl TransactionFetcher {
    /// Filters an announcement down to the hashes the caller should request
    /// from the announcing peer now.
    ///
    /// A hash that is waiting in the buffer is taken out of it and
    /// retained; a hash that is inflight records the peer as a fallback and
    /// is dropped; a previously unseen hash starts being tracked with no
    /// retries and no fallback peers, and is retained.  `active_sessions`
    /// lists the peers whose sessions are live; tracked hashes met along
    /// the way have their dead fallback peers pruned.
    pub fn filter_unseen_and_pending_hashes(
        &mut self,
        new_announced_hashes: &mut ValidTxHashes,
        peer_id: &PeerId,
        active_sessions: &Vec<PeerId>,
    )
        requires
            old(self).inv(),
            old(new_announced_hashes).wf(),
        ensures
            final(self).inv(),
            ({
                let st0 = IntakeState {
                    unknown: old(self).unknown_hashes@,
                    buffered: old(self).buffered_hashes@,
                };
                let hs = old(new_announced_hashes).hashes@;
                let stf = intake_fold(st0, hs, 0, *peer_id, active_sessions@);
                &&& final(new_announced_hashes).hashes@ == intake_retained(
                    st0,
                    hs,
                    0,
                    *peer_id,
                    active_sessions@,
                )
                &&& final(self).unknown_hashes@ == stf.unknown
                &&& final(self).buffered_hashes@ == stf.buffered
            }),
            final(new_announced_hashes).version == old(new_announced_hashes).version,
            final(new_announced_hashes).wf(),
            forall|h: TxHash|
                final(new_announced_hashes).hashes@.contains(h)
                    ==> (final(self).unknown_hashes@.contains_key(h)
                    && !final(self).buffered_hashes@.contains(h)),
            final(self).buffered_hashes.cap() == old(self).buffered_hashes.cap(),
            final(self).eth68_meta == old(self).eth68_meta,
            final(self).active_peers == old(self).active_peers,
            final(self).inflight_requests == old(self).inflight_requests,
    {
        let ghost st0 = IntakeState {
            unknown: old(self).unknown_hashes@,
            buffered: old(self).buffered_hashes@,
        };
        let ghost hs = old(new_announced_hashes).hashes@;
        let ghost sessions = active_sessions@;
        let mut retained: Vec<TxHash> = Vec::new();
        let n = new_announced_hashes.hashes.len();
        proof {
            assert(Seq::<TxHash>::empty() + intake_retained(st0, hs, 0, *peer_id, sessions)
                =~= intake_retained(st0, hs, 0, *peer_id, sessions));
        }
        let mut i: usize = 0;
        while i < n
            invariant
                n == hs.len(),
                0 <= i <= n,
                new_announced_hashes == old(new_announced_hashes),
                self.inv(),
                intake_fold(st0, hs, 0, *peer_id, sessions) == intake_fold(
                    IntakeState {
                        unknown: self.unknown_hashes@,
                        buffered: self.buffered_hashes@,
                    },
                    hs,
                    i as int,
                    *peer_id,
                    sessions,
                ),
                intake_retained(st0, hs, 0, *peer_id, sessions) == retained@ + intake_retained(
                    IntakeState {
                        unknown: self.unknown_hashes@,
                        buffered: self.buffered_hashes@,
                    },
                    hs,
                    i as int,
                    *peer_id,
                    sessions,
                ),
                retained@.no_duplicates(),
                forall|x: TxHash| retained@.contains(x) ==> hs.take(i as int).contains(x),
                forall|h: TxHash|
                    retained@.contains(h) ==> (self.unknown_hashes@.contains_key(h)
                        && !self.buffered_hashes@.contains(h)),
                forall|k: TxHash|
                    old(self).unknown_hashes@.contains_key(k)
                        ==> self.unknown_hashes@.contains_key(k),
                forall|x: TxHash|
                    self.buffered_hashes@.contains(x) ==> old(self).buffered_hashes@.contains(
                        x,
                    ),
                self.buffered_hashes.cap() == old(self).buffered_hashes.cap(),
                self.eth68_meta == old(self).eth68_meta,
                self.active_peers == old(self).active_peers,
                self.inflight_requests == old(self).inflight_requests,
            decreases n - i,
        {
            let h = new_announced_hashes.hashes[i];
            let ghost cur = IntakeState {
                unknown: self.unknown_hashes@,
                buffered: self.buffered_hashes@,
            };
            let mut keep: bool = false;
            if self.unknown_hashes.contains(&h) {
                self.unknown_hashes.prune_fallback(&h, active_sessions);
                if self.buffered_hashes.remove(&h) {
                    keep = true;
                } else {
                    self.unknown_hashes.add_fallback(&h, *peer_id);
                    proof {
                        assert(self.unknown_hashes@ =~= cur.unknown.insert(
                            hs[i as int],
                            EntryView {
                                retries: cur.unknown[hs[i as int]].retries,
                                peers: lru_inserted(
                                    seq_retain(cur.unknown[hs[i as int]].peers, sessions),
                                    MAX_ALTERNATIVE_PEERS_PER_TX as int,
                                    *peer_id,
                                ),
                            },
                        ));
                    }
                }
            } else {
                let _ = self.unknown_hashes.insert_new(h);
                keep = true;
            }
            let ghost ret_pre = retained@;
            if keep {
                proof {
                    assert(!hs.take(i as int).contains(hs[i as int])) by {
                        if hs.take(i as int).contains(hs[i as int]) {
                            let j = choose|j: int|
                                #![trigger hs.take(i as int)[j]]
                                0 <= j < i && hs.take(i as int)[j] == hs[i as int];
                            assert(hs[j] == hs[i as int]);
                        }
                    }
                    assert(!ret_pre.contains(hs[i as int]));
                }
                retained.push(h);
            }
            proof {
                let next = IntakeState {
                    unknown: self.unknown_hashes@,
                    buffered: self.buffered_hashes@,
                };
                crate::seqs::lemma_seq_retain_props(cur.unknown[hs[i as int]].peers, sessions);
                crate::seqs::lemma_seq_without_props(cur.buffered, hs[i as int]);
                let (st2, k2) = intake_step(cur, hs[i as int], *peer_id, sessions);
                assert(next.unknown =~= st2.unknown);
                assert(next.buffered =~= st2.buffered);
                assert(next == st2);
                assert(keep == k2);
                if keep {
                    assert(intake_retained(cur, hs, i as int, *peer_id, sessions)
                        == seq![hs[i as int]] + intake_retained(
                        st2,
                        hs,
                        i + 1,
                        *peer_id,
                        sessions,
                    ));
                    assert(retained@ + intake_retained(st2, hs, i + 1, *peer_id, sessions)
                        =~= retained@.drop_last() + intake_retained(
                        cur,
                        hs,
                        i as int,
                        *peer_id,
                        sessions,
                    ));
                }
                assert(self.inv()) by {
                    assert forall|x: TxHash| self.buffered_hashes@.contains(x) implies self
                        .unknown_hashes@.contains_key(x) by {
                        assert(cur.buffered.contains(x));
                        assert(cur.unknown.contains_key(x));
                    }
                    assert forall|x: TxHash| self.buffered_hashes@.contains(x)
                        implies !crate::flight::flights_contain_hash(
                        self.inflight_requests@,
                        x,
                    ) by {
                        assert(cur.buffered.contains(x));
                        assert(old(self).buffered_hashes@.contains(x));
                    }
                }
                assert(retained@ == ret_pre || retained@ == ret_pre.push(hs[i as int]));
                assert forall|x: TxHash| #[trigger] retained@.contains(x) implies (x
                    == hs[i as int] && keep) || ret_pre.contains(x) by {
                    let j = choose|j: int|
                        #![trigger retained@[j]]
                        0 <= j < retained@.len() && retained@[j] == x;
                    if j < ret_pre.len() {
                        assert(ret_pre[j] == x);
                        assert(ret_pre.contains(ret_pre[j]));
                    }
                }
                assert forall|x: TxHash| retained@.contains(x) implies (self
                    .unknown_hashes@.contains_key(x) && !self.buffered_hashes@.contains(x)) by {
                    if x == hs[i as int] && keep {
                        assert(self.unknown_hashes@.contains_key(x));
                        assert(!self.buffered_hashes@.contains(x));
                    } else {
                        assert(ret_pre.contains(x));
                        assert(cur.unknown.contains_key(x) && !cur.buffered.contains(x));
                        assert(self.unknown_hashes@.contains_key(x));
                        assert(!self.buffered_hashes@.contains(x));
                    }
                }
                assert(retained@.no_duplicates()) by {
                    if keep {
                        assert forall|a: int, b: int| 0 <= a < b < retained@.len()
                            implies retained@[a] != retained@[b] by {
                            if b < ret_pre.len() {
                                assert(retained@[a] == ret_pre[a] && retained@[b] == ret_pre[b]);
                            } else {
                                assert(retained@[a] == ret_pre[a]);
                                assert(ret_pre.contains(ret_pre[a]));
                                assert(retained@[b] == hs[i as int]);
                            }
                        }
                    }
                }
                assert forall|x: TxHash| retained@.contains(x) implies hs.take(i + 1).contains(
                    x,
                ) by {
                    if x == hs[i as int] && keep {
                        assert(hs.take(i + 1)[i as int] == hs[i as int]);
                        assert(hs.take(i + 1).contains(hs.take(i + 1)[i as int]));
                    } else {
                        assert(ret_pre.contains(x));
                        assert(hs.take(i as int).contains(x));
                        let j = choose|j: int|
                            #![trigger hs.take(i as int)[j]]
                            0 <= j < i && hs.take(i as int)[j] == x;
                        assert(hs.take(i + 1)[j] == x);
                        assert(hs.take(i + 1).contains(hs.take(i + 1)[j]));
                    }
                }
            }
            i += 1;
        }
        proof {
            assert(retained@ + intake_retained(
                IntakeState { unknown: self.unknown_hashes@, buffered: self.buffered_hashes@ },
                hs,
                n as int,
                *peer_id,
                sessions,
            ) =~= retained@);
        }
        new_announced_hashes.hashes = retained;
    }
}

} // verus!
