//! Request packaging: composing a size- and count-bounded
//! `GetPooledTransactions` request out of an ordered batch of announced
//! hashes, per protocol version.

use vstd::prelude::*;

use crate::fetcher::TransactionFetcher;
use crate::types::{EthVersion, TxHash, ValidTxHashes,
    GET_POOLED_TRANSACTION_SOFT_LIMIT_NUM_HASHES,
    SOFT_LIMIT_BYTE_SIZE_POOLED_TRANSACTIONS_RESPONSE_MESSAGE};

verus! {

/// The hashes of `hs[i..]` that a greedy `Eth68` scan starting with
/// accumulated response size `acc` accepts: a hash is accepted exactly when
/// its declared size still fits under the response-byte soft limit, and a
/// rejected hash does not stop later, smaller hashes from being accepted.
pub open spec fn eth68_kept(meta: Map<TxHash, usize>, hs: Seq<TxHash>, i: int, acc: int) -> Seq<
    TxHash,
>
    decreases hs.len() - i,
{
    if i < 0 || i >= hs.len() {
        Seq::empty()
    } else if acc + meta[hs[i]] <= SOFT_LIMIT_BYTE_SIZE_POOLED_TRANSACTIONS_RESPONSE_MESSAGE as int {
        seq![hs[i]] + eth68_kept(meta, hs, i + 1, acc + meta[hs[i]])
    } else {
        eth68_kept(meta, hs, i + 1, acc)
    }
}

/// The hashes of `hs[i..]` that the same scan rejects, in order.
pub open spec fn eth68_surplus(meta: Map<TxHash, usize>, hs: Seq<TxHash>, i: int, acc: int) -> Seq<
    TxHash,
>
    decreases hs.len() - i,
{
    if i < 0 || i >= hs.len() {
        Seq::empty()
    } else if acc + meta[hs[i]] <= SOFT_LIMIT_BYTE_SIZE_POOLED_TRANSACTIONS_RESPONSE_MESSAGE as int {
        eth68_surplus(meta, hs, i + 1, acc + meta[hs[i]])
    } else {
        seq![hs[i]] + eth68_surplus(meta, hs, i + 1, acc)
    }
}

/// The accumulated response size once the scan of `hs[i..]` is done.
pub open spec fn eth68_acc(meta: Map<TxHash, usize>, hs: Seq<TxHash>, i: int, acc: int) -> int
    decreases hs.len() - i,
{
    if i < 0 || i >= hs.len() {
        acc
    } else if acc + meta[hs[i]] <= SOFT_LIMIT_BYTE_SIZE_POOLED_TRANSACTIONS_RESPONSE_MESSAGE as int {
        eth68_acc(meta, hs, i + 1, acc + meta[hs[i]])
    } else {
        eth68_acc(meta, hs, i + 1, acc)
    }
}

/// The declared sizes of the given hashes, added up.
pub open spec fn sum_sizes(meta: Map<TxHash, usize>, hs: Seq<TxHash>) -> int
    decreases hs.len(),
{
    if hs.len() == 0 {
        0
    } else {
        meta[hs[0]] + sum_sizes(meta, hs.drop_first())
    }
}

/// The scan keeps the accumulated size under the soft limit, and the size
/// it reports is the total declared size of what it accepted.
pub proof fn lemma_eth68_scan_size(meta: Map<TxHash, usize>, hs: Seq<TxHash>, i: int, acc: int)
    requires
        0 <= acc <= SOFT_LIMIT_BYTE_SIZE_POOLED_TRANSACTIONS_RESPONSE_MESSAGE as int,
    ensures
        acc <= eth68_acc(meta, hs, i, acc)
            <= SOFT_LIMIT_BYTE_SIZE_POOLED_TRANSACTIONS_RESPONSE_MESSAGE as int,
        sum_sizes(meta, eth68_kept(meta, hs, i, acc)) == eth68_acc(meta, hs, i, acc) - acc,
    decreases hs.len() - i,
{
    if i < 0 || i >= hs.len() {
    } else {
        let s = meta[hs[i]] as int;
        if acc + s <= SOFT_LIMIT_BYTE_SIZE_POOLED_TRANSACTIONS_RESPONSE_MESSAGE as int {
            lemma_eth68_scan_size(meta, hs, i + 1, acc + s);
            let rest = eth68_kept(meta, hs, i + 1, acc + s);
            assert((seq![hs[i]] + rest)[0] == hs[i]);
            assert((seq![hs[i]] + rest).drop_first() =~= rest);
        } else {
            lemma_eth68_scan_size(meta, hs, i + 1, acc);
        }
    }
}

/// Both outputs of the scan are drawn from `hs[i..]`, without duplicates
/// when `hs` has none.
pub proof fn lemma_eth68_scan_membership(
    meta: Map<TxHash, usize>,
    hs: Seq<TxHash>,
    i: int,
    acc: int,
)
    requires
        0 <= i <= hs.len(),
    ensures
        forall|x: TxHash|
            eth68_kept(meta, hs, i, acc).contains(x) ==> hs.skip(i).contains(x),
        forall|x: TxHash|
            eth68_surplus(meta, hs, i, acc).contains(x) ==> hs.skip(i).contains(x),
        hs.no_duplicates() ==> eth68_kept(meta, hs, i, acc).no_duplicates(),
        hs.no_duplicates() ==> eth68_surplus(meta, hs, i, acc).no_duplicates(),
    decreases hs.len() - i,
{
    broadcast use vstd::seq_lib::group_seq_properties;

    if i < hs.len() {
        let s = meta[hs[i]] as int;
        let acc2 = if acc + s
            <= SOFT_LIMIT_BYTE_SIZE_POOLED_TRANSACTIONS_RESPONSE_MESSAGE as int {
            acc + s
        } else {
            acc
        };
        lemma_eth68_scan_membership(meta, hs, i + 1, acc2);
        if acc2 == acc {
            lemma_eth68_scan_membership(meta, hs, i + 1, acc);
        }
        assert forall|x: TxHash| #[trigger] hs.skip(i + 1).contains(x) implies hs.skip(i).contains(x) by {
            let j = choose|j: int| #![trigger hs.skip(i + 1)[j]] 0 <= j < hs.skip(i + 1).len() && hs.skip(i + 1)[j] == x;
            assert(hs.skip(i)[j + 1] == x);
        }
        assert(hs.skip(i)[0] == hs[i]);
        if hs.no_duplicates() {
            assert forall|x: TxHash| #[trigger] hs.skip(i + 1).contains(x) implies x != hs[i] by {
                let j = choose|j: int| #![trigger hs.skip(i + 1)[j]] 0 <= j < hs.skip(i + 1).len() && hs.skip(i + 1)[j] == x;
                assert(hs[i + 1 + j] == x);
            }
            let keeps = eth68_kept(meta, hs, i + 1, acc2);
            let drops = eth68_surplus(meta, hs, i + 1, acc2);
            if acc + s <= SOFT_LIMIT_BYTE_SIZE_POOLED_TRANSACTIONS_RESPONSE_MESSAGE as int {
                let w = seq![hs[i]] + keeps;
                assert(w[0] == hs[i]);
                assert(w.drop_first() =~= keeps);
                assert(forall|x: TxHash| keeps.contains(x) ==> x != hs[i]);
                assert forall|a: int, b: int| 0 <= a < b < w.len() implies w[a] != w[b] by {
                    assert(w[b] == keeps[b - 1]);
                    assert(keeps.contains(keeps[b - 1]));
                    if a > 0 {
                        assert(w[a] == keeps[a - 1]);
                    }
                }
                assert(w.no_duplicates());
            } else {
                let w = seq![hs[i]] + drops;
                assert(w[0] == hs[i]);
                assert(w.drop_first() =~= drops);
                assert(forall|x: TxHash| drops.contains(x) ==> x != hs[i]);
                assert forall|a: int, b: int| 0 <= a < b < w.len() implies w[a] != w[b] by {
                    assert(w[b] == drops[b - 1]);
                    assert(drops.contains(drops[b - 1]));
                    if a > 0 {
                        assert(w[a] == drops[a - 1]);
                    }
                }
                assert(w.no_duplicates());
            }
        }
    }
}

impl TransactionFetcher {
    /// Packages hashes for a `GetPooledTransactions` request up to the
    /// count limit of protocol version `Eth66`: at most
    /// `GET_POOLED_TRANSACTION_SOFT_LIMIT_NUM_HASHES` minus one hashes stay
    /// in the request, the tail is returned as surplus.
    pub fn pack_hashes_eth66(&self, hashes: &mut ValidTxHashes) -> (surplus: ValidTxHashes)
        requires
            old(hashes).wf(),
        ensures
            old(hashes).hashes@.len() <= GET_POOLED_TRANSACTION_SOFT_LIMIT_NUM_HASHES
                ==> (*final(hashes) == *old(hashes) && surplus.hashes@ == Seq::<TxHash>::empty()),
            old(hashes).hashes@.len() > GET_POOLED_TRANSACTION_SOFT_LIMIT_NUM_HASHES ==> (
            final(hashes).hashes@ == old(hashes).hashes@.take(
                GET_POOLED_TRANSACTION_SOFT_LIMIT_NUM_HASHES - 1,
            ) && surplus.hashes@ == old(hashes).hashes@.skip(
                GET_POOLED_TRANSACTION_SOFT_LIMIT_NUM_HASHES - 1,
            ) && final(hashes).version == old(hashes).version),
            surplus.version == EthVersion::Eth66,
            final(hashes).wf(),
            surplus.wf(),
    {
        broadcast use vstd::seq_lib::group_seq_properties;

        if hashes.len() <= GET_POOLED_TRANSACTION_SOFT_LIMIT_NUM_HASHES {
            return ValidTxHashes::empty_eth66();
        }
        let surplus_hashes = hashes.hashes.split_off(
            GET_POOLED_TRANSACTION_SOFT_LIMIT_NUM_HASHES - 1,
        );
        proof {
            let pre = old(hashes).hashes@;
            let at = GET_POOLED_TRANSACTION_SOFT_LIMIT_NUM_HASHES - 1;
            assert forall|a: int, b: int| 0 <= a < b < pre.subrange(at as int, pre.len() as int)
                .len() implies pre.subrange(at as int, pre.len() as int)[a] != pre.subrange(
                at as int,
                pre.len() as int,
            )[b] by {
                assert(pre.subrange(at as int, pre.len() as int)[a] == pre[at + a]);
                assert(pre.subrange(at as int, pre.len() as int)[b] == pre[at + b]);
            }
        }
        ValidTxHashes::new_eth66(surplus_hashes)
    }

    /// Evaluates whether to include a hash in an `Eth68` request, based on
    /// the declared size of its transaction and the accumulated size of the
    /// corresponding response.  Accepts the hash, adding its size to the
    /// accumulator, exactly when size metadata is recorded for it and the
    /// grown response would stay under the byte soft limit.
    pub fn include_eth68_hash(&self, acc_size_response: &mut usize, hash: &TxHash) -> (r: bool)
        requires
            self.eth68_meta.wf(),
            *old(acc_size_response) <= SOFT_LIMIT_BYTE_SIZE_POOLED_TRANSACTIONS_RESPONSE_MESSAGE,
        ensures
            r == (self.eth68_meta@.contains_key(*hash) && *old(acc_size_response)
                + self.eth68_meta@[*hash]
                <= SOFT_LIMIT_BYTE_SIZE_POOLED_TRANSACTIONS_RESPONSE_MESSAGE),
            r ==> *final(acc_size_response) == *old(acc_size_response)
                + self.eth68_meta@[*hash],
            !r ==> *final(acc_size_response) == *old(acc_size_response),
            *final(acc_size_response)
                <= SOFT_LIMIT_BYTE_SIZE_POOLED_TRANSACTIONS_RESPONSE_MESSAGE,
    {
        match self.eth68_meta.get(hash) {
            Some(size) => {
                if size <= SOFT_LIMIT_BYTE_SIZE_POOLED_TRANSACTIONS_RESPONSE_MESSAGE
                    - *acc_size_response {
                    *acc_size_response = *acc_size_response + size;
                    true
                } else {
                    false
                }
            },
            None => false,
        }
    }

    /// Packages hashes for a `GetPooledTransactions` request up to the
    /// response-byte soft limit of protocol version `Eth68`, returning the
    /// hashes that did not fit as surplus.
    ///
    /// If the first hash alone reaches the soft limit it is fetched in a
    /// request of its own and every other hash is surplus.  Otherwise the
    /// batch is scanned in order, accepting each hash whose declared size
    /// still fits; a hash that does not fit is moved to the surplus and the
    /// scan continues, so that later, smaller hashes may still be accepted.
    pub fn pack_hashes_eth68(&self, hashes: &mut ValidTxHashes) -> (surplus: ValidTxHashes)
        requires
            self.eth68_meta.wf(),
            old(hashes).wf(),
            old(hashes).version == EthVersion::Eth68,
            forall|h: TxHash|
                old(hashes).hashes@.contains(h) ==> self.eth68_meta@.contains_key(h),
        ensures
            final(hashes).version == EthVersion::Eth68,
            surplus.version == EthVersion::Eth68,
            final(hashes).wf(),
            surplus.wf(),
            old(hashes).hashes@.len() > 0 && self.eth68_meta@[old(hashes).hashes@[0]]
                >= SOFT_LIMIT_BYTE_SIZE_POOLED_TRANSACTIONS_RESPONSE_MESSAGE ==> (
            final(hashes).hashes@ == old(hashes).hashes@.take(1) && surplus.hashes@ == old(
                hashes,
            ).hashes@.skip(1)),
            !(old(hashes).hashes@.len() > 0 && self.eth68_meta@[old(hashes).hashes@[0]]
                >= SOFT_LIMIT_BYTE_SIZE_POOLED_TRANSACTIONS_RESPONSE_MESSAGE) ==> (
            final(hashes).hashes@ == eth68_kept(self.eth68_meta@, old(hashes).hashes@, 0, 0)
                && surplus.hashes@ == eth68_surplus(self.eth68_meta@, old(hashes).hashes@, 0, 0)
                && sum_sizes(self.eth68_meta@, final(hashes).hashes@)
                <= SOFT_LIMIT_BYTE_SIZE_POOLED_TRANSACTIONS_RESPONSE_MESSAGE),
    {
        broadcast use vstd::seq_lib::group_seq_properties;

        let ghost meta = self.eth68_meta@;
        let ghost hs0 = old(hashes).hashes@;
        if hashes.hashes.len() > 0 {
            let first = hashes.hashes[0];
            proof {
                assert(hs0.contains(hs0[0]));
            }
            match self.eth68_meta.get(&first) {
                Some(size) => {
                    if size >= SOFT_LIMIT_BYTE_SIZE_POOLED_TRANSACTIONS_RESPONSE_MESSAGE {
                        let surplus_hashes = hashes.hashes.split_off(1);
                        proof {
                            assert forall|a: int, b: int|
                                0 <= a < b < hs0.subrange(1, hs0.len() as int).len() implies hs0
                                .subrange(1, hs0.len() as int)[a] != hs0.subrange(
                                1,
                                hs0.len() as int,
                            )[b] by {
                                assert(hs0.subrange(1, hs0.len() as int)[a] == hs0[1 + a]);
                                assert(hs0.subrange(1, hs0.len() as int)[b] == hs0[1 + b]);
                            }
                        }
                        return ValidTxHashes::new_eth68(surplus_hashes);
                    }
                },
                None => {},
            }
        }
        let mut acc_size_response: usize = 0;
        let mut kept: Vec<TxHash> = Vec::new();
        let mut surplus_hashes: Vec<TxHash> = Vec::new();
        let n = hashes.hashes.len();
        proof {
            lemma_eth68_scan_membership(meta, hs0, 0, 0);
            assert(Seq::<TxHash>::empty() + eth68_kept(meta, hs0, 0, 0)
                =~= eth68_kept(meta, hs0, 0, 0));
            assert(Seq::<TxHash>::empty() + eth68_surplus(meta, hs0, 0, 0)
                =~= eth68_surplus(meta, hs0, 0, 0));
        }
        let mut i: usize = 0;
        while i < n
            invariant
                hashes == old(hashes),
                n == hs0.len(),
                0 <= i <= n,
                acc_size_response <= SOFT_LIMIT_BYTE_SIZE_POOLED_TRANSACTIONS_RESPONSE_MESSAGE,
                eth68_kept(meta, hs0, 0, 0) == kept@ + eth68_kept(
                    meta,
                    hs0,
                    i as int,
                    acc_size_response as int,
                ),
                eth68_surplus(meta, hs0, 0, 0) == surplus_hashes@ + eth68_surplus(
                    meta,
                    hs0,
                    i as int,
                    acc_size_response as int,
                ),
            decreases n - i,
        {
            let h = hashes.hashes[i];
            proof {
                assert(hs0.contains(hs0[i as int]));
            }
            let ghost acc_pre = acc_size_response as int;
            let included = self.include_eth68_hash(&mut acc_size_response, &h);
            if included {
                kept.push(h);
                proof {
                    assert(eth68_kept(meta, hs0, i as int, acc_pre) == seq![hs0[i as int]]
                        + eth68_kept(meta, hs0, i + 1, acc_size_response as int));
                    assert(kept@ + eth68_kept(meta, hs0, i + 1, acc_size_response as int)
                        =~= kept@.drop_last() + eth68_kept(meta, hs0, i as int, acc_pre));
                }
            } else {
                surplus_hashes.push(h);
                proof {
                    assert(eth68_surplus(meta, hs0, i as int, acc_pre) == seq![hs0[i as int]]
                        + eth68_surplus(meta, hs0, i + 1, acc_size_response as int));
                    assert(surplus_hashes@ + eth68_surplus(
                        meta,
                        hs0,
                        i + 1,
                        acc_size_response as int,
                    ) =~= surplus_hashes@.drop_last() + eth68_surplus(
                        meta,
                        hs0,
                        i as int,
                        acc_pre,
                    ));
                }
            }
            i += 1;
        }
        proof {
            assert(eth68_kept(meta, hs0, n as int, acc_size_response as int)
                =~= Seq::<TxHash>::empty());
            assert(eth68_surplus(meta, hs0, n as int, acc_size_response as int)
                =~= Seq::<TxHash>::empty());
            assert(kept@ + Seq::<TxHash>::empty() =~= kept@);
            assert(surplus_hashes@ + Seq::<TxHash>::empty() =~= surplus_hashes@);
            lemma_eth68_scan_size(meta, hs0, 0, 0);
        }
        hashes.hashes = kept;
        ValidTxHashes::new_eth68(surplus_hashes)
    }

    /// Packages hashes for a `GetPooledTransactions` request up to the
    /// limit of the batch's protocol version, returning the left-over
    /// hashes.  An empty batch yields an empty surplus of the same version.
    pub fn pack_hashes(&self, hashes: &mut ValidTxHashes) -> (surplus: ValidTxHashes)
        requires
            self.eth68_meta.wf(),
            old(hashes).wf(),
            old(hashes).version is Eth68 ==> forall|h: TxHash|
                old(hashes).hashes@.contains(h) ==> self.eth68_meta@.contains_key(h),
        ensures
            final(hashes).wf(),
            surplus.wf(),
            old(hashes).hashes@.len() == 0 ==> (*final(hashes) == *old(hashes)
                && surplus.hashes@ == Seq::<TxHash>::empty() && surplus.version == old(
                hashes,
            ).version),
            old(hashes).hashes@.len() > 0 && old(hashes).version is Eth66 ==> (
            old(hashes).hashes@.len() <= GET_POOLED_TRANSACTION_SOFT_LIMIT_NUM_HASHES ==> (
            *final(hashes) == *old(hashes) && surplus.hashes@ == Seq::<TxHash>::empty())),
            old(hashes).hashes@.len() > 0 && old(hashes).version is Eth66 && old(
                hashes,
            ).hashes@.len() > GET_POOLED_TRANSACTION_SOFT_LIMIT_NUM_HASHES ==> (
            final(hashes).hashes@ == old(hashes).hashes@.take(
                GET_POOLED_TRANSACTION_SOFT_LIMIT_NUM_HASHES - 1,
            ) && surplus.hashes@ == old(hashes).hashes@.skip(
                GET_POOLED_TRANSACTION_SOFT_LIMIT_NUM_HASHES - 1,
            )),
            old(hashes).hashes@.len() > 0 && old(hashes).version is Eth68 ==> (
            surplus.version == EthVersion::Eth68 && final(hashes).version == EthVersion::Eth68
                && (self.eth68_meta@[old(hashes).hashes@[0]]
                >= SOFT_LIMIT_BYTE_SIZE_POOLED_TRANSACTIONS_RESPONSE_MESSAGE ==> (
            final(hashes).hashes@ == old(hashes).hashes@.take(1) && surplus.hashes@ == old(
                hashes,
            ).hashes@.skip(1))) && (self.eth68_meta@[old(hashes).hashes@[0]]
                < SOFT_LIMIT_BYTE_SIZE_POOLED_TRANSACTIONS_RESPONSE_MESSAGE ==> (
            final(hashes).hashes@ == eth68_kept(self.eth68_meta@, old(hashes).hashes@, 0, 0)
                && surplus.hashes@ == eth68_surplus(
                self.eth68_meta@,
                old(hashes).hashes@,
                0,
                0,
            )))),
    {
        if hashes.is_empty() {
            return ValidTxHashes::empty(hashes.msg_version());
        }
        if hashes.msg_version().is_eth68() {
            return self.pack_hashes_eth68(hashes);
        }
        self.pack_hashes_eth66(hashes)
    }
}

} // verus!
