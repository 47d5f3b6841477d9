use tx_fetcher::fetcher::TransactionFetcher;
use tx_fetcher::types::{EthVersion, FetchEvent, PeerId, RequestError, RequestOutcome, TxHash,
    ValidTxHashes, MAX_REQUEST_RETRIES_PER_TX_HASH};

fn h(n: u64) -> TxHash {
    TxHash::from_limbs(n, 0, 0, 0)
}

fn announce(
    fetcher: &mut TransactionFetcher,
    peer: PeerId,
    hashes: Vec<TxHash>,
    version: EthVersion,
    sessions: &Vec<PeerId>,
) -> ValidTxHashes {
    let mut batch = ValidTxHashes::new(hashes, version);
    fetcher.filter_unseen_and_pending_hashes(&mut batch, &peer, sessions);
    batch
}

fn dispatch(fetcher: &mut TransactionFetcher, peer: PeerId, batch: ValidTxHashes) -> bool {
    if fetcher.request_transactions_from_peer(&batch, &peer) {
        fetcher.on_request_sent(peer, batch);
        true
    } else {
        false
    }
}

#[test]
fn per_peer_concurrency_cap_blocks_second_dispatch() {
    let fetcher = &mut TransactionFetcher::default();
    let peer = PeerId::new(7);
    let sessions = vec![peer];

    let first = announce(fetcher, peer, vec![h(1)], EthVersion::Eth66, &sessions);
    assert!(dispatch(fetcher, peer, first));
    assert_eq!(fetcher.active_peers.get(&peer), Some(1));

    let second = announce(fetcher, peer, vec![h(2)], EthVersion::Eth66, &sessions);
    assert_eq!(second.len(), 1);
    let approved = fetcher.request_transactions_from_peer(&second, &peer);
    assert!(!approved);
    assert_eq!(fetcher.active_peers.get(&peer), Some(1));
}

#[test]
fn retry_bound_drops_hash_after_exhaustion() {
    let fetcher = &mut TransactionFetcher::default();
    let peer = PeerId::new(9);
    let sessions = vec![peer];
    let hash = h(42);

    for attempt in 0..3u8 {
        let batch = announce(fetcher, peer, vec![hash], EthVersion::Eth66, &sessions);
        assert_eq!(batch.len(), 1, "hash should be requestable on attempt {}", attempt);
        assert!(dispatch(fetcher, peer, batch));
        let event = fetcher.on_resolved_request(peer, RequestOutcome::Transactions(vec![]));
        assert!(matches!(event, FetchEvent::TransactionsFetched { fetched, .. } if fetched.is_empty()));
        if attempt < MAX_REQUEST_RETRIES_PER_TX_HASH {
            assert!(fetcher.unknown_hashes.contains(&hash));
            assert_eq!(fetcher.unknown_hashes.retries(&hash), attempt + 1);
            assert!(fetcher.buffered_hashes.contains(&hash));
        }
    }

    // the third failed attempt exhausts the retries: the hash is dropped
    assert!(!fetcher.unknown_hashes.contains(&hash));
    assert!(!fetcher.buffered_hashes.contains(&hash));
    assert!(!fetcher.eth68_meta.contains(&hash));
}

#[test]
fn broadcast_preempts_inflight_request() {
    let fetcher = &mut TransactionFetcher::default();
    let peer = PeerId::new(3);
    let sessions = vec![peer];
    let hash = h(5);

    let batch = announce(fetcher, peer, vec![hash], EthVersion::Eth66, &sessions);
    assert!(dispatch(fetcher, peer, batch));
    assert!(fetcher.inflight_requests.contains_hash(&hash));

    fetcher.on_received_full_transactions_broadcast(&vec![hash]);
    assert!(!fetcher.unknown_hashes.contains(&hash));

    // the stale response completes later with nothing in it
    let event = fetcher.on_resolved_request(peer, RequestOutcome::Transactions(vec![]));
    assert!(matches!(event, FetchEvent::TransactionsFetched { fetched, .. } if fetched.is_empty()));
    assert!(!fetcher.unknown_hashes.contains(&hash));
    assert!(!fetcher.buffered_hashes.contains(&hash));
    assert_eq!(fetcher.inflight_requests.len(), 0);
}

#[test]
fn fallback_promotion_takes_buffered_hash_for_fallback_peer() {
    let fetcher = &mut TransactionFetcher::default();
    let peer_a = PeerId::new(1);
    let peer_b = PeerId::new(2);
    let sessions = vec![peer_a, peer_b];
    let hash = h(77);

    // announce to peer A and dispatch; record the declared size
    let batch = announce(fetcher, peer_a, vec![hash], EthVersion::Eth68, &sessions);
    assert_eq!(batch.len(), 1);
    fetcher.eth68_meta.insert(hash, 100);
    assert!(dispatch(fetcher, peer_a, batch));

    // announce the now-inflight hash to peer B: B becomes a fallback
    let batch_b = announce(fetcher, peer_b, vec![hash], EthVersion::Eth68, &sessions);
    assert_eq!(batch_b.len(), 0);
    assert!(fetcher.unknown_hashes.fallback_contains(&hash, &peer_b));

    // peer A fails: the hash is buffered with one retry counted
    let event = fetcher.on_resolved_request(peer_a, RequestOutcome::Error(RequestError::Timeout));
    assert!(matches!(
        event,
        FetchEvent::FetchError { error: RequestError::Timeout, .. }
    ));
    assert!(fetcher.buffered_hashes.contains(&hash));
    assert_eq!(fetcher.unknown_hashes.retries(&hash), 1);

    // packaging a fresh request to B picks the hash up from the buffer
    let mut request: Vec<TxHash> = Vec::new();
    let mut acc: usize = 0;
    fetcher.fill_eth68_request_for_peer(&mut request, &peer_b, &mut acc);
    assert_eq!(request, vec![hash]);
    assert_eq!(acc, 100);
    assert!(!fetcher.buffered_hashes.contains(&hash));
    assert!(!fetcher.unknown_hashes.fallback_contains(&hash, &peer_b));
}

#[test]
fn lru_eviction_cascades_to_all_hash_tables() {
    let fetcher = &mut TransactionFetcher::with_buffered_limit(3);
    let peer = PeerId::new(4);
    let oldest = h(1);
    let hashes = vec![oldest, h(2), h(3)];
    for hash in &hashes {
        fetcher.unknown_hashes.insert_new(*hash);
        fetcher.eth68_meta.insert(*hash, 10);
    }
    let batch = ValidTxHashes::new_eth68(hashes);
    fetcher.buffer_hashes(&batch, Some(peer));
    assert_eq!(fetcher.buffered_hashes.len(), 3);

    // one more buffered hash evicts the least recently used one, which
    // must also leave the unknown-hash and size tables
    let newcomer = h(4);
    fetcher.unknown_hashes.insert_new(newcomer);
    fetcher.eth68_meta.insert(newcomer, 10);
    fetcher.buffer_hashes(&ValidTxHashes::new_eth68(vec![newcomer]), Some(peer));

    assert_eq!(fetcher.buffered_hashes.len(), 3);
    assert!(!fetcher.buffered_hashes.contains(&oldest));
    assert!(!fetcher.unknown_hashes.contains(&oldest));
    assert!(!fetcher.eth68_meta.contains(&oldest));
    assert!(fetcher.buffered_hashes.contains(&newcomer));
}

#[test]
fn round_trip_removes_fetched_hash_everywhere() {
    let fetcher = &mut TransactionFetcher::default();
    let peer = PeerId::new(11);
    let sessions = vec![peer];
    let hash = h(6);

    let batch = announce(fetcher, peer, vec![hash], EthVersion::Eth68, &sessions);
    fetcher.eth68_meta.insert(hash, 321);
    assert!(dispatch(fetcher, peer, batch));

    let event = fetcher.on_resolved_request(peer, RequestOutcome::Transactions(vec![hash]));
    match event {
        FetchEvent::TransactionsFetched { peer_id, fetched } => {
            assert_eq!(peer_id, peer);
            assert_eq!(fetched, vec![hash]);
        },
        FetchEvent::FetchError { .. } => panic!("fetch should succeed"),
    }
    assert!(!fetcher.unknown_hashes.contains(&hash));
    assert!(!fetcher.eth68_meta.contains(&hash));
    assert!(!fetcher.buffered_hashes.contains(&hash));
    assert!(!fetcher.active_peers.contains(&peer));
}

#[test]
fn broadcast_is_idempotent_in_every_hash_state() {
    let fetcher = &mut TransactionFetcher::default();
    let peer = PeerId::new(2);
    let sessions = vec![peer];

    // unseen hash
    let unseen = h(100);
    fetcher.on_received_full_transactions_broadcast(&vec![unseen]);
    assert!(!fetcher.unknown_hashes.contains(&unseen));

    // inflight hash
    let inflight = h(101);
    let batch = announce(fetcher, peer, vec![inflight], EthVersion::Eth66, &sessions);
    assert!(dispatch(fetcher, peer, batch));
    fetcher.on_received_full_transactions_broadcast(&vec![inflight]);
    assert!(!fetcher.unknown_hashes.contains(&inflight));

    // buffered hash
    let buffered = h(102);
    fetcher.unknown_hashes.insert_new(buffered);
    fetcher.buffer_hashes(&ValidTxHashes::new_eth66(vec![buffered]), Some(peer));
    assert!(fetcher.buffered_hashes.contains(&buffered));
    fetcher.on_received_full_transactions_broadcast(&vec![buffered]);
    assert!(!fetcher.unknown_hashes.contains(&buffered));
    assert!(!fetcher.buffered_hashes.contains(&buffered));

    // and broadcasting again changes nothing
    fetcher.on_received_full_transactions_broadcast(&vec![unseen, inflight, buffered]);
    assert!(!fetcher.unknown_hashes.contains(&unseen));
    assert!(!fetcher.unknown_hashes.contains(&inflight));
    assert!(!fetcher.unknown_hashes.contains(&buffered));
}

#[test]
fn channel_closed_resolution_rebuffers_and_reports() {
    let fetcher = &mut TransactionFetcher::default();
    let peer = PeerId::new(8);
    let sessions = vec![peer];
    let hash = h(13);

    let batch = announce(fetcher, peer, vec![hash], EthVersion::Eth66, &sessions);
    assert!(dispatch(fetcher, peer, batch));
    let event = fetcher.on_resolved_request(peer, RequestOutcome::ChannelClosed);
    assert!(matches!(
        event,
        FetchEvent::FetchError { error: RequestError::ChannelClosed, .. }
    ));
    assert!(fetcher.buffered_hashes.contains(&hash));
    assert_eq!(fetcher.unknown_hashes.retries(&hash), 1);
    assert!(!fetcher.active_peers.contains(&peer));
}

#[test]
fn fill_eth66_skips_eth68_hashes_and_respects_fallback() {
    let fetcher = &mut TransactionFetcher::default();
    let peer = PeerId::new(21);
    let other = PeerId::new(22);
    let eth66_hash = h(1);
    let eth68_hash = h(2);
    let foreign = h(3);
    for hash in [eth66_hash, eth68_hash, foreign] {
        fetcher.unknown_hashes.insert_new(hash);
    }
    fetcher.eth68_meta.insert(eth68_hash, 50);
    fetcher.buffer_hashes(
        &ValidTxHashes::new_eth66(vec![eth66_hash, eth68_hash]),
        Some(peer),
    );
    fetcher.buffer_hashes(&ValidTxHashes::new_eth66(vec![foreign]), Some(other));

    let mut request: Vec<TxHash> = Vec::new();
    fetcher.fill_eth66_request_for_peer(&mut request, &peer);
    // only the eth66 hash with this peer as fallback is picked
    assert_eq!(request, vec![eth66_hash]);
    assert!(!fetcher.buffered_hashes.contains(&eth66_hash));
    assert!(fetcher.buffered_hashes.contains(&eth68_hash));
    assert!(fetcher.buffered_hashes.contains(&foreign));
}

#[test]
fn get_idle_peer_for_skips_busy_and_dead_peers() {
    let fetcher = &mut TransactionFetcher::default();
    let busy = PeerId::new(31);
    let dead = PeerId::new(32);
    let idle = PeerId::new(33);
    let sessions = vec![busy, idle];
    let hash = h(50);

    fetcher.unknown_hashes.insert_new(hash);
    for peer in [busy, dead, idle] {
        fetcher.unknown_hashes.add_fallback(&hash, peer);
    }
    // make `busy` active with an inflight request
    let batch = announce(fetcher, busy, vec![h(51)], EthVersion::Eth66, &sessions);
    assert!(dispatch(fetcher, busy, batch));
    assert!(!fetcher.is_idle(&busy));

    let mut ended: Vec<PeerId> = Vec::new();
    let found = fetcher.get_idle_peer_for(&hash, &mut ended, &sessions);
    assert_eq!(found, Some(idle));
    assert_eq!(ended, vec![dead]);

    let absent = h(60);
    let mut ended2: Vec<PeerId> = Vec::new();
    assert_eq!(fetcher.get_idle_peer_for(&absent, &mut ended2, &sessions), None);
    assert!(ended2.is_empty());
}

#[test]
fn invariants_hold_across_a_mixed_operation_sequence() {
    let fetcher = &mut TransactionFetcher::default();
    let peer_a = PeerId::new(41);
    let peer_b = PeerId::new(42);
    let sessions = vec![peer_a, peer_b];

    let batch_a = announce(fetcher, peer_a, vec![h(1), h(2)], EthVersion::Eth66, &sessions);
    assert!(dispatch(fetcher, peer_a, batch_a));
    let batch_b = announce(fetcher, peer_b, vec![h(2), h(3)], EthVersion::Eth66, &sessions);
    // h(2) is inflight with A, so B only retains h(3)
    assert_eq!(batch_b.len(), 1);
    assert!(dispatch(fetcher, peer_b, batch_b));

    let _ = fetcher.on_resolved_request(peer_a, RequestOutcome::Transactions(vec![h(1)]));

    // buffered hashes are a subset of the unknown-hash table
    for n in 1..4u64 {
        if fetcher.buffered_hashes.contains(&h(n)) {
            assert!(fetcher.unknown_hashes.contains(&h(n)));
            assert!(!fetcher.inflight_requests.contains_hash(&h(n)));
        }
        if fetcher.unknown_hashes.contains(&h(n)) {
            assert!(fetcher.unknown_hashes.retries(&h(n)) <= MAX_REQUEST_RETRIES_PER_TX_HASH);
        }
    }
    // per-peer counts never exceed the cap
    for peer in [peer_a, peer_b] {
        if let Some(count) = fetcher.active_peers.get(&peer) {
            assert!(count <= 1);
        }
    }
    assert!(fetcher.active_peers.len() <= 10000);
}
