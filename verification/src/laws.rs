//! The laws of the fetcher, stated on their own.  Construction establishes
//! [`TransactionFetcher::inv`] and every operation's contract carries it,
//! so by induction the laws below hold in every reachable state.

use vstd::prelude::*;
use vstd::map::*;

use crate::buffer::{buffer_fold, known_retained, lemma_buffer_fold_frame,
    lemma_known_retained_props, BufferState};
use crate::fetcher::TransactionFetcher;
use crate::flight::flights_contain_hash;
use crate::maps::EntryView;
use crate::packing::{eth68_kept, lemma_eth68_scan_size, sum_sizes};
use crate::resolve::{fetched_of, leftover_of, lemma_partition_props};
use crate::seqs::{lemma_seq_without_all_props, seq_without_all};
use crate::types::{PeerId, TxHash, MAX_CONCURRENT_TX_REQUESTS,
    MAX_CONCURRENT_TX_REQUESTS_PER_PEER, MAX_REQUEST_RETRIES_PER_TX_HASH,
    SOFT_LIMIT_BYTE_SIZE_POOLED_TRANSACTIONS_RESPONSE_MESSAGE};

verus! {

/// Law: every buffered hash is tracked in the unknown-hash table.
pub proof fn lemma_buffered_subset_of_unknown(f: TransactionFetcher)
    requires
        f.inv(),
    ensures
        forall|h: TxHash|
            f.buffered_hashes@.contains(h) ==> f.unknown_hashes@.contains_key(h),
{
}

/// Law: no hash is simultaneously buffered and asked for by any pending
/// request.
pub proof fn lemma_no_buffered_hash_inflight(f: TransactionFetcher)
    requires
        f.inv(),
    ensures
        forall|h: TxHash|
            f.buffered_hashes@.contains(h) ==> !flights_contain_hash(f.inflight_requests@, h),
{
}

/// Law: each active peer has at most `MAX_CONCURRENT_TX_REQUESTS_PER_PEER`
/// inflight requests, and at most `MAX_CONCURRENT_TX_REQUESTS` peers are
/// active at once.
pub proof fn lemma_active_peers_bounded(f: TransactionFetcher)
    requires
        f.inv(),
    ensures
        forall|p: PeerId|
            f.active_peers@.contains_key(p) ==> f.active_peers@[p]
                <= MAX_CONCURRENT_TX_REQUESTS_PER_PEER,
        f.active_peers@.dom().len() <= MAX_CONCURRENT_TX_REQUESTS as int,
{
}

/// Law: no tracked hash is ever retried more than
/// `MAX_REQUEST_RETRIES_PER_TX_HASH` times.
pub proof fn lemma_retries_bounded(f: TransactionFetcher)
    requires
        f.inv(),
    ensures
        forall|h: TxHash|
            f.unknown_hashes@.contains_key(h) ==> f.unknown_hashes@[h].retries
                <= MAX_REQUEST_RETRIES_PER_TX_HASH,
{
}

/// Law: `Eth68` packaging is size-monotone.  Whatever the announced sizes
/// and the order of the hashes, the hashes the greedy scan keeps in the
/// request add up to at most the response-byte soft limit.
pub proof fn lemma_eth68_packaging_size_bounded(meta: Map<TxHash, usize>, hs: Seq<TxHash>)
    ensures
        sum_sizes(meta, eth68_kept(meta, hs, 0, 0))
            <= SOFT_LIMIT_BYTE_SIZE_POOLED_TRANSACTIONS_RESPONSE_MESSAGE as int,
{
    lemma_eth68_scan_size(meta, hs, 0, 0);
}

/// Law: the round trip of a hash removes it from all three hash tables.
/// When a request that asked for `h` resolves with a response covering `h`,
/// the completion path — fetched hashes leave all tracking, the rest are
/// re-buffered — leaves `h` in neither the unknown-hash table, nor the size
/// table, nor the buffered cache, whatever else it re-buffers or evicts.
/// This is the removal clause of
/// [`TransactionFetcher::on_resolved_request`]'s contract, stated on its
/// own over the tables.
pub proof fn lemma_round_trip_removes_hash(
    unknown: Map<TxHash, EntryView>,
    meta: Map<TxHash, usize>,
    buffered: Seq<TxHash>,
    cap: int,
    requested: Seq<TxHash>,
    returned: Seq<TxHash>,
    h: TxHash,
)
    requires
        cap >= 1,
        requested.contains(h),
        returned.contains(h),
    ensures
        ({
            let fetched = fetched_of(requested, returned);
            let leftover = leftover_of(requested, returned);
            let u1 = unknown.remove_keys(fetched.to_set());
            let b1 = seq_without_all(buffered, fetched);
            let m1 = meta.remove_keys(fetched.to_set());
            let r = buffer_fold(
                BufferState { unknown: u1, buffered: b1, drops: Seq::empty() },
                known_retained(leftover, u1),
                0,
                None,
                cap,
            );
            &&& !r.unknown.remove_keys(r.drops.to_set()).contains_key(h)
            &&& !m1.remove_keys(r.drops.to_set()).contains_key(h)
            &&& !seq_without_all(r.buffered, r.drops).contains(h)
        }),
{
    lemma_partition_props(requested, returned);
    let fetched = fetched_of(requested, returned);
    let leftover = leftover_of(requested, returned);
    let u1 = unknown.remove_keys(fetched.to_set());
    let b1 = seq_without_all(buffered, fetched);
    let st1 = BufferState { unknown: u1, buffered: b1, drops: Seq::empty() };
    let hs1 = known_retained(leftover, u1);
    let r = buffer_fold(st1, hs1, 0, None, cap);
    assert(fetched.contains(h));
    assert(fetched.to_set().contains(h));
    assert(!u1.contains_key(h));
    lemma_buffer_fold_frame(st1, hs1, 0, None, cap);
    assert(!r.unknown.contains_key(h));
    lemma_seq_without_all_props(buffered, fetched);
    assert(!b1.contains(h));
    lemma_known_retained_props(leftover, u1);
    assert(!leftover.contains(h));
    assert(!hs1.contains(h));
    assert(!r.buffered.contains(h));
    lemma_seq_without_all_props(r.buffered, r.drops);
}

} // verus!
