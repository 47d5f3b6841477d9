use tx_fetcher::fetcher::TransactionFetcher;
use tx_fetcher::types::{EthVersion, PeerId, TxHash, ValidTxHashes,
    GET_POOLED_TRANSACTION_SOFT_LIMIT_NUM_HASHES,
    SOFT_LIMIT_BYTE_SIZE_POOLED_TRANSACTIONS_RESPONSE_MESSAGE};

fn h(n: u64) -> TxHash {
    TxHash::from_limbs(n, 0, 0, 0)
}

#[test]
fn pack_eth68_request_surplus_hashes() {
    let tx_fetcher = &mut TransactionFetcher::default();

    let _peer_id = PeerId::new(1);

    let eth68_hashes = [
        TxHash::repeat_byte(1),
        TxHash::repeat_byte(2),
        TxHash::repeat_byte(3),
        TxHash::repeat_byte(4),
        TxHash::repeat_byte(5),
        TxHash::repeat_byte(6),
    ];
    let eth68_hashes_sizes = [
        SOFT_LIMIT_BYTE_SIZE_POOLED_TRANSACTIONS_RESPONSE_MESSAGE - 4,
        SOFT_LIMIT_BYTE_SIZE_POOLED_TRANSACTIONS_RESPONSE_MESSAGE, // this one will not fit
        2,                                                         // this one will fit
        3,                                                         // but now this one won't
        2,                                                         /* this one will, no more
                                                                    * txns will fit after this */
        1,
    ];

    // load unseen hashes in reverse order so index 0 in eth68_hashes and
    // eth68_hashes_sizes is lru

    for i in (0..6).rev() {
        tx_fetcher.unknown_hashes.insert_new(eth68_hashes[i]);
        tx_fetcher.eth68_meta.insert(eth68_hashes[i], eth68_hashes_sizes[i]);
    }

    let mut eth68_hashes_to_request = ValidTxHashes::new_eth68(eth68_hashes.to_vec());
    let surplus_eth68_hashes = tx_fetcher.pack_hashes_eth68(&mut eth68_hashes_to_request);

    assert_eq!(
        surplus_eth68_hashes.into_hashes(),
        vec![eth68_hashes[1], eth68_hashes[3], eth68_hashes[5]]
    );
    assert_eq!(
        eth68_hashes_to_request.into_hashes(),
        vec![eth68_hashes[0], eth68_hashes[2], eth68_hashes[4]]
    );
}

#[test]
fn pack_eth68_single_oversize_hash_goes_alone() {
    let fetcher = &mut TransactionFetcher::default();
    let big = h(1);
    let small = h(2);
    fetcher.unknown_hashes.insert_new(big);
    fetcher.unknown_hashes.insert_new(small);
    fetcher
        .eth68_meta
        .insert(big, SOFT_LIMIT_BYTE_SIZE_POOLED_TRANSACTIONS_RESPONSE_MESSAGE + 7);
    fetcher.eth68_meta.insert(small, 10);

    let mut request = ValidTxHashes::new_eth68(vec![big, small]);
    let surplus = fetcher.pack_hashes_eth68(&mut request);

    assert_eq!(request.into_hashes(), vec![big]);
    assert_eq!(surplus.into_hashes(), vec![small]);
}

#[test]
fn pack_eth68_keeps_total_size_under_soft_limit() {
    let fetcher = &mut TransactionFetcher::default();
    let mut hashes = Vec::new();
    for i in 0..10u64 {
        let hash = h(i + 1);
        fetcher.unknown_hashes.insert_new(hash);
        fetcher
            .eth68_meta
            .insert(hash, SOFT_LIMIT_BYTE_SIZE_POOLED_TRANSACTIONS_RESPONSE_MESSAGE / 3 + 1);
        hashes.push(hash);
    }
    let mut request = ValidTxHashes::new_eth68(hashes.clone());
    let _surplus = fetcher.pack_hashes_eth68(&mut request);
    let kept = request.into_hashes();
    // the first two fit; a third of this size would cross the limit
    assert_eq!(kept, vec![hashes[0], hashes[1]]);
    let mut total: usize = 0;
    for hash in &kept {
        total += match fetcher.eth68_meta.get(hash) {
            Some(size) => size,
            None => 0,
        };
    }
    assert!(total <= SOFT_LIMIT_BYTE_SIZE_POOLED_TRANSACTIONS_RESPONSE_MESSAGE);
}

#[test]
fn pack_eth66_under_limit_has_no_surplus() {
    let fetcher = TransactionFetcher::default();
    let mut hashes = Vec::new();
    for i in 0..GET_POOLED_TRANSACTION_SOFT_LIMIT_NUM_HASHES as u64 {
        hashes.push(h(i + 1));
    }
    let mut request = ValidTxHashes::new_eth66(hashes.clone());
    let surplus = fetcher.pack_hashes_eth66(&mut request);
    assert_eq!(request.into_hashes(), hashes);
    assert!(surplus.into_hashes().is_empty());
}

#[test]
fn pack_eth66_splits_off_tail_over_limit() {
    let fetcher = TransactionFetcher::default();
    let n = GET_POOLED_TRANSACTION_SOFT_LIMIT_NUM_HASHES as u64 + 1;
    let mut hashes = Vec::new();
    for i in 0..n {
        hashes.push(h(i + 1));
    }
    let mut request = ValidTxHashes::new_eth66(hashes.clone());
    let surplus = fetcher.pack_hashes_eth66(&mut request);
    let kept = request.into_hashes();
    let rest = surplus.into_hashes();
    assert_eq!(kept.len(), GET_POOLED_TRANSACTION_SOFT_LIMIT_NUM_HASHES - 1);
    assert_eq!(rest.len(), 2);
    assert_eq!(kept[..], hashes[..GET_POOLED_TRANSACTION_SOFT_LIMIT_NUM_HASHES - 1]);
    assert_eq!(rest[..], hashes[GET_POOLED_TRANSACTION_SOFT_LIMIT_NUM_HASHES - 1..]);
}

#[test]
fn pack_hashes_empty_batch_keeps_version() {
    let fetcher = TransactionFetcher::default();
    let mut request = ValidTxHashes::empty(EthVersion::Eth68);
    let surplus = fetcher.pack_hashes(&mut request);
    assert!(matches!(surplus.msg_version(), EthVersion::Eth68));
    assert!(surplus.into_hashes().is_empty());
    assert!(request.into_hashes().is_empty());
}

#[test]
fn include_eth68_hash_accumulates_only_fitting_sizes() {
    let fetcher = &mut TransactionFetcher::default();
    let fitting = h(1);
    let huge = h(2);
    fetcher.unknown_hashes.insert_new(fitting);
    fetcher.unknown_hashes.insert_new(huge);
    fetcher.eth68_meta.insert(fitting, 100);
    fetcher
        .eth68_meta
        .insert(huge, SOFT_LIMIT_BYTE_SIZE_POOLED_TRANSACTIONS_RESPONSE_MESSAGE);

    let mut acc: usize = 0;
    assert!(fetcher.include_eth68_hash(&mut acc, &fitting));
    assert_eq!(acc, 100);
    assert!(!fetcher.include_eth68_hash(&mut acc, &huge));
    assert_eq!(acc, 100);
    let unknown = h(3);
    assert!(!fetcher.include_eth68_hash(&mut acc, &unknown));
    assert_eq!(acc, 100);
}

#[test]
fn pack_hashes_dispatches_on_version() {
    let fetcher = TransactionFetcher::default();
    let mut hashes = Vec::new();
    for i in 0..3u64 {
        hashes.push(h(i + 1));
    }
    let mut request = ValidTxHashes::new_eth66(hashes.clone());
    let surplus = fetcher.pack_hashes(&mut request);
    assert!(matches!(surplus.msg_version(), EthVersion::Eth66));
    assert!(surplus.into_hashes().is_empty());
    assert_eq!(request.into_hashes(), hashes);
}

#[test]
fn fill_eth68_returns_untouched_when_request_is_full_enough() {
    let fetcher = &mut TransactionFetcher::default();
    let peer = PeerId::new(2);
    let buffered = h(9);
    fetcher.unknown_hashes.insert_new(buffered);
    fetcher.unknown_hashes.add_fallback(&buffered, peer);
    fetcher.eth68_meta.insert(buffered, 4);
    fetcher.buffer_hashes(&ValidTxHashes::new_eth68(vec![buffered]), Some(peer));

    let mut request: Vec<TxHash> = Vec::new();
    let mut acc: usize = SOFT_LIMIT_BYTE_SIZE_POOLED_TRANSACTIONS_RESPONSE_MESSAGE / 2;
    fetcher.fill_eth68_request_for_peer(&mut request, &peer, &mut acc);
    assert!(request.is_empty());
    assert_eq!(acc, SOFT_LIMIT_BYTE_SIZE_POOLED_TRANSACTIONS_RESPONSE_MESSAGE / 2);
    assert!(fetcher.buffered_hashes.contains(&buffered));
}
