//! Identifiers, protocol versions, announcement batches and tuning constants.

use vstd::prelude::*;

verus! {

/// Maximum concurrent `GetPooledTransactions` requests to allow per peer.
pub const MAX_CONCURRENT_TX_REQUESTS_PER_PEER: u8 = 1;

/// Maximum request retries per transaction hash.
pub const MAX_REQUEST_RETRIES_PER_TX_HASH: u8 = 2;

/// Marginal on fallback peers.  If all fallback peers are idle, at most
/// `MAX_REQUEST_RETRIES_PER_TX_HASH` of them can ever be needed.
pub const MARGINAL_FALLBACK_PEERS_PER_TX: u8 = 1;

/// How many peers we keep track of for each missing transaction.
pub const MAX_ALTERNATIVE_PEERS_PER_TX: u8 = MAX_REQUEST_RETRIES_PER_TX_HASH
    + MARGINAL_FALLBACK_PEERS_PER_TX;

/// Maximum concurrent `GetPooledTransactions` requests.
pub const MAX_CONCURRENT_TX_REQUESTS: u32 = 10000;

/// Recommended soft limit for the number of hashes in a
/// `GetPooledTransactions` message.
pub const GET_POOLED_TRANSACTION_SOFT_LIMIT_NUM_HASHES: usize = 256;

/// Cache limit of transactions waiting for an idle peer to be fetched.
pub const MAX_CAPACITY_BUFFERED_HASHES: usize = 100
    * GET_POOLED_TRANSACTION_SOFT_LIMIT_NUM_HASHES;

/// Soft limit on the byte size of a `PooledTransactions` response message.
pub const SOFT_LIMIT_BYTE_SIZE_POOLED_TRANSACTIONS_RESPONSE_MESSAGE: usize = 2 * 1024 * 1024;

/// A 32-byte transaction hash, stored as four 64-bit limbs.  Equality and
/// hashing are by value.
#[derive(Clone, Copy, PartialEq, Eq, Structural, Debug)]
pub struct TxHash {
    pub w0: u64,
    pub w1: u64,
    pub w2: u64,
    pub w3: u64,
}

impl TxHash {
    /// The hash whose four limbs are given directly.
    pub fn from_limbs(w0: u64, w1: u64, w2: u64, w3: u64) -> (r: TxHash)
        ensures
            r == (TxHash { w0, w1, w2, w3 }),
    {
        TxHash { w0, w1, w2, w3 }
    }

    /// The hash each of whose 32 bytes is `b`.
    pub fn repeat_byte(b: u8) -> (r: TxHash)
        ensures
            r.w0 == b * 0x0101010101010101u64,
            r.w1 == r.w0 && r.w2 == r.w0 && r.w3 == r.w0,
    {
        let w: u64 = (b as u64) * 0x0101010101010101u64;
        TxHash { w0: w, w1: w, w2: w, w3: w }
    }
}

/// An opaque peer identifier.
#[derive(Clone, Copy, PartialEq, Eq, Structural, Debug)]
pub struct PeerId {
    pub id: u64,
}

impl PeerId {
    /// The peer identifier with the given value.
    pub fn new(id: u64) -> (r: PeerId)
        ensures
            r == (PeerId { id }),
    {
        PeerId { id }
    }
}

/// The protocol version an announcement arrived with.  `Eth68` announcements
/// carry a declared byte size per hash; `Eth66` announcements do not.
#[derive(Clone, Copy, PartialEq, Eq, Structural, Debug)]
pub enum EthVersion {
    Eth66,
    Eth68,
}

impl EthVersion {
    /// Whether this is the `Eth68` version.
    pub fn is_eth68(&self) -> (r: bool)
        ensures
            r == (*self is Eth68),
    {
        match self {
            EthVersion::Eth68 => true,
            EthVersion::Eth66 => false,
        }
    }
}

/// An ordered batch of validated announced transaction hashes, together with
/// the protocol version of the announcement.  Validation upstream guarantees
/// that a batch contains no duplicate hashes.
#[derive(Debug)]
pub struct ValidTxHashes {
    pub hashes: Vec<TxHash>,
    pub version: EthVersion,
}

impl ValidTxHashes {
    /// A batch is well formed when it contains no duplicate hashes.
    pub open spec fn wf(self) -> bool {
        self.hashes@.no_duplicates()
    }

    /// Wraps an ordered list of distinct hashes with its protocol version.
    pub fn new(hashes: Vec<TxHash>, version: EthVersion) -> (r: ValidTxHashes)
        requires
            hashes@.no_duplicates(),
        ensures
            r.hashes == hashes,
            r.version == version,
            r.wf(),
    {
        ValidTxHashes { hashes, version }
    }

    /// An empty batch of the given version.
    pub fn empty(version: EthVersion) -> (r: ValidTxHashes)
        ensures
            r.hashes@ == Seq::<TxHash>::empty(),
            r.version == version,
            r.wf(),
    {
        ValidTxHashes { hashes: Vec::new(), version }
    }

    /// An empty `Eth66` batch.
    pub fn empty_eth66() -> (r: ValidTxHashes)
        ensures
            r.hashes@ == Seq::<TxHash>::empty(),
            r.version == EthVersion::Eth66,
            r.wf(),
    {
        ValidTxHashes { hashes: Vec::new(), version: EthVersion::Eth66 }
    }

    /// Wraps an ordered list of distinct hashes as an `Eth66` batch.
    pub fn new_eth66(hashes: Vec<TxHash>) -> (r: ValidTxHashes)
        requires
            hashes@.no_duplicates(),
        ensures
            r.hashes == hashes,
            r.version == EthVersion::Eth66,
            r.wf(),
    {
        ValidTxHashes { hashes, version: EthVersion::Eth66 }
    }

    /// Wraps an ordered list of distinct hashes as an `Eth68` batch.
    pub fn new_eth68(hashes: Vec<TxHash>) -> (r: ValidTxHashes)
        requires
            hashes@.no_duplicates(),
        ensures
            r.hashes == hashes,
            r.version == EthVersion::Eth68,
            r.wf(),
    {
        ValidTxHashes { hashes, version: EthVersion::Eth68 }
    }

    /// The protocol version of the batch.
    pub fn msg_version(&self) -> (v: EthVersion)
        ensures
            v == self.version,
    {
        self.version
    }

    /// The number of hashes in the batch.
    pub fn len(&self) -> (n: usize)
        ensures
            n == self.hashes@.len(),
    {
        self.hashes.len()
    }

    /// Whether the batch holds no hashes.
    pub fn is_empty(&self) -> (r: bool)
        ensures
            r == (self.hashes@.len() == 0),
    {
        self.hashes.len() == 0
    }

    /// Surrenders the hashes of the batch.
    pub fn into_hashes(self) -> (r: Vec<TxHash>)
        ensures
            r == self.hashes,
    {
        self.hashes
    }
}

/// The errors a request can resolve with: the response channel was closed
/// before an answer arrived, or the peer answered with a protocol-level
/// error.
#[derive(Clone, Copy, PartialEq, Eq, Structural, Debug)]
pub enum RequestError {
    ChannelClosed,
    ConnectionDropped,
    UnsupportedCapability,
    BadResponse,
    Timeout,
}

/// How a pending request resolved, as the driver observed it: the hashes of
/// the transactions the peer returned, a protocol-level error, or a dropped
/// response channel.
#[derive(Debug)]
pub enum RequestOutcome {
    Transactions(Vec<TxHash>),
    Error(RequestError),
    ChannelClosed,
}

/// An event from fetching transactions.
#[derive(Debug)]
pub enum FetchEvent {
    /// Transactions were successfully fetched from the peer; `fetched`
    /// holds the requested hashes the response covered, whose bodies the
    /// driver pairs with the event.
    TransactionsFetched { peer_id: PeerId, fetched: Vec<TxHash> },
    /// An attempt to fetch transactions from the peer failed.
    FetchError { peer_id: PeerId, error: RequestError },
}

} // verus!
