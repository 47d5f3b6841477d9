//! The set of pending `GetPooledTransactions` requests.  Each entry records
//! the peer a request was sent to and the hashes it asked for; the response
//! port itself lives with the driver that performs the channel traffic.

use vstd::prelude::*;

use crate::types::{EthVersion, PeerId, TxHash};

verus! {

/// One pending request: the peer it was sent to, the hashes it asked for
/// (kept for cleanup when the response arrives) and the protocol version of
/// the announcement it grew from.
#[derive(Debug)]
pub struct InflightRequest {
    pub peer_id: PeerId,
    pub hashes: Vec<TxHash>,
    pub version: EthVersion,
}

/// The abstract content of one pending request.
pub struct FlightView {
    pub peer: PeerId,
    pub hashes: Seq<TxHash>,
    pub version: EthVersion,
}

/// The abstract content of one pending request.
pub open spec fn flight_view(r: InflightRequest) -> FlightView {
    FlightView { peer: r.peer_id, hashes: r.hashes@, version: r.version }
}

/// The abstract contents of a list of pending requests.
pub open spec fn fviews_of(s: Seq<InflightRequest>) -> Seq<FlightView>
    decreases s.len(),
{
    if s.len() == 0 {
        Seq::empty()
    } else {
        fviews_of(s.drop_last()).push(flight_view(s.last()))
    }
}

/// The abstract contents correspond to the requests pointwise.
pub proof fn lemma_fviews_index(s: Seq<InflightRequest>)
    ensures
        fviews_of(s).len() == s.len(),
        forall|i: int| 0 <= i < s.len() ==> fviews_of(s)[i] == flight_view(s[i]),
    decreases s.len(),
{
    broadcast use vstd::seq_lib::group_seq_properties;

    if s.len() > 0 {
        lemma_fviews_index(s.drop_last());
        assert forall|i: int| 0 <= i < s.len() implies fviews_of(s)[i] == flight_view(s[i]) by {
            if i < s.len() - 1 {
                assert(s.drop_last()[i] == s[i]);
            }
        }
    }
}

/// Whether any pending request asks for `h`.
pub open spec fn flights_contain_hash(fv: Seq<FlightView>, h: TxHash) -> bool {
    exists|i: int| 0 <= i < fv.len() && fv[i].hashes.contains(h)
}

/// How many pending requests were sent to `p`.
pub open spec fn flight_count(fv: Seq<FlightView>, p: PeerId) -> int
    decreases fv.len(),
{
    if fv.len() == 0 {
        0
    } else {
        flight_count(fv.drop_last(), p) + if fv.last().peer == p {
            1int
        } else {
            0int
        }
    }
}

/// The request count of a peer is bounded by the number of requests, and is
/// zero exactly when no request was sent to the peer.
pub proof fn lemma_flight_count_zero(fv: Seq<FlightView>, p: PeerId)
    ensures
        0 <= flight_count(fv, p) <= fv.len(),
        (flight_count(fv, p) == 0) == (forall|i: int| 0 <= i < fv.len() ==> fv[i].peer != p),
    decreases fv.len(),
{
    broadcast use vstd::seq_lib::group_seq_properties;

    if fv.len() > 0 {
        lemma_flight_count_zero(fv.drop_last(), p);
        if flight_count(fv, p) == 0 {
            assert forall|i: int| 0 <= i < fv.len() implies fv[i].peer != p by {
                if i < fv.len() - 1 {
                    assert(fv.drop_last()[i] == fv[i]);
                }
            }
        } else {
            if fv.last().peer != p {
                assert(flight_count(fv.drop_last(), p) != 0);
                let i = choose|i: int| 0 <= i < fv.drop_last().len() && fv.drop_last()[i].peer == p;
                assert(fv[i].peer == p);
            }
        }
    }
}

/// Removing one request lowers the count of its peer by one and leaves the
/// counts of other peers unchanged.
pub proof fn lemma_flight_count_remove(fv: Seq<FlightView>, i: int, p: PeerId)
    requires
        0 <= i < fv.len(),
    ensures
        flight_count(fv.remove(i), p) == flight_count(fv, p) - if fv[i].peer == p {
            1int
        } else {
            0int
        },
    decreases fv.len(),
{
    broadcast use vstd::seq_lib::group_seq_properties;

    if i == fv.len() - 1 {
        assert(fv.remove(i) =~= fv.drop_last());
    } else {
        assert(fv.remove(i).drop_last() =~= fv.drop_last().remove(i));
        assert(fv.remove(i).last() == fv.last());
        assert(fv.drop_last()[i] == fv[i]);
        lemma_flight_count_remove(fv.drop_last(), i, p);
    }
}

/// Appending one request raises the count of its peer by one and leaves the
/// counts of other peers unchanged.
pub proof fn lemma_flight_count_push(fv: Seq<FlightView>, x: FlightView, p: PeerId)
    ensures
        flight_count(fv.push(x), p) == flight_count(fv, p) + if x.peer == p {
            1int
        } else {
            0int
        },
{
    broadcast use vstd::seq_lib::group_seq_properties;

    assert(fv.push(x).drop_last() =~= fv);
}

/// The position of a pending request sent to `p`; with at most one pending
/// request per peer it is the position of the only one.
pub open spec fn flight_index_of(fv: Seq<FlightView>, p: PeerId) -> int {
    choose|i: int| 0 <= i < fv.len() && fv[i].peer == p
}

/// With a request count of at most one, two pending requests to the same
/// peer are the same request.
pub proof fn lemma_flight_at_most_one(fv: Seq<FlightView>, p: PeerId, i: int, j: int)
    requires
        flight_count(fv, p) <= 1,
        0 <= i < fv.len() && fv[i].peer == p,
        0 <= j < fv.len() && fv[j].peer == p,
    ensures
        i == j,
{
    if i != j {
        lemma_flight_count_remove(fv, i, p);
        lemma_flight_count_zero(fv, p);
        lemma_flight_count_zero(fv.remove(i), p);
        fv.remove_ensures(i);
        if j < i {
            assert(fv.remove(i)[j].peer == p);
        } else {
            assert(fv.remove(i)[j - 1] == fv[j]);
            assert(fv.remove(i)[j - 1].peer == p);
        }
        assert(flight_count(fv.remove(i), p) >= 1);
    }
}

/// A pending request to `p` exists exactly when the count is positive.
pub proof fn lemma_flight_index_of(fv: Seq<FlightView>, p: PeerId)
    requires
        flight_count(fv, p) > 0,
    ensures
        0 <= flight_index_of(fv, p) < fv.len(),
        fv[flight_index_of(fv, p)].peer == p,
{
    lemma_flight_count_zero(fv, p);
    assert(!(forall|i: int| 0 <= i < fv.len() ==> fv[i].peer != p));
    let w = choose|i: int| 0 <= i < fv.len() && fv[i].peer == p;
    assert(fv[w].peer == p);
}

/// The set of pending requests, in the order they were sent.
#[derive(Debug)]
pub struct InflightSet {
    entries: Vec<InflightRequest>,
}

impl View for InflightSet {
    type V = Seq<FlightView>;

    closed spec fn view(&self) -> Seq<FlightView> {
        fviews_of(self.entries@)
    }
}

impl InflightSet {
    /// An empty set.
    pub fn new() -> (r: InflightSet)
        ensures
            r@ == Seq::<FlightView>::empty(),
    {
        InflightSet { entries: Vec::new() }
    }

    /// The number of pending requests.
    pub fn len(&self) -> (n: usize)
        ensures
            n == self@.len(),
    {
        proof {
            lemma_fviews_index(self.entries@);
        }
        self.entries.len()
    }

    /// Registers a pending request.
    pub fn push(&mut self, req: InflightRequest)
        ensures
            final(self)@ == old(self)@.push(flight_view(req)),
    {
        proof {
            assert(fviews_of(self.entries@.push(req)).drop_last() == fviews_of(
                self.entries@.push(req).drop_last(),
            ) && self.entries@.push(req).drop_last() =~= self.entries@);
        }
        self.entries.push(req);
        proof {
            assert(final(self)@ =~= old(self)@.push(flight_view(req)));
        }
    }

    /// Removes and returns the earliest pending request sent to `p`, if any.
    pub fn pop_for_peer(&mut self, p: &PeerId) -> (r: Option<InflightRequest>)
        ensures
            match r {
                None => *final(self) == *old(self) && forall|i: int|
                    0 <= i < old(self)@.len() ==> old(self)@[i].peer != *p,
                Some(req) => {
                    &&& flight_view(req).peer == *p
                    &&& exists|i: int|
                        0 <= i < old(self)@.len() && old(self)@[i] == flight_view(req)
                            && final(self)@ == old(self)@.remove(i) && (forall|j: int|
                            0 <= j < i ==> old(self)@[j].peer != *p)
                },
            },
    {
        proof {
            lemma_fviews_index(self.entries@);
        }
        let n = self.entries.len();
        let mut i: usize = 0;
        while i < n
            invariant
                self == old(self),
                n == self.entries@.len(),
                0 <= i <= n,
                forall|j: int| 0 <= j < i ==> self@[j].peer != *p,
            decreases n - i,
        {
            if self.entries[i].peer_id == *p {
                let ghost pre = self.entries@;
                let ghost gi = i as int;
                let req = self.entries.remove(i);
                proof {
                    lemma_fviews_index(self.entries@);
                    assert(req == pre[gi]);
                    assert(final(self)@ =~= fviews_of(pre).remove(gi)) by {
                        pre.remove_ensures(gi);
                        fviews_of(pre).remove_ensures(gi);
                        lemma_fviews_index(pre);
                    }
                    assert(old(self)@[gi] == flight_view(req));
                }
                return Some(req);
            }
            i += 1;
        }
        None
    }

    /// Whether any pending request asks for `h`.
    pub fn contains_hash(&self, h: &TxHash) -> (r: bool)
        ensures
            r == flights_contain_hash(self@, *h),
    {
        proof {
            lemma_fviews_index(self.entries@);
        }
        let n = self.entries.len();
        let mut i: usize = 0;
        while i < n
            invariant
                n == self.entries@.len(),
                0 <= i <= n,
                forall|j: int| 0 <= j < i ==> !self@[j].hashes.contains(*h),
            decreases n - i,
        {
            let req = &self.entries[i];
            if crate::caches::hashes_contain(&req.hashes, h) {
                proof {
                    assert(self@[i as int].hashes.contains(*h));
                }
                return true;
            }
            i += 1;
        }
        false
    }

    /// Whether any pending request was sent to `p`.
    pub fn has_peer(&self, p: &PeerId) -> (r: bool)
        ensures
            r == (flight_count(self@, *p) > 0),
    {
        proof {
            lemma_fviews_index(self.entries@);
            lemma_flight_count_zero(self@, *p);
        }
        let n = self.entries.len();
        let mut i: usize = 0;
        while i < n
            invariant
                n == self.entries@.len(),
                0 <= i <= n,
                forall|j: int| 0 <= j < i ==> self@[j].peer != *p,
            decreases n - i,
        {
            if self.entries[i].peer_id == *p {
                proof {
                    assert(self@[i as int].peer == *p);
                }
                return true;
            }
            i += 1;
        }
        false
    }
}

} // verus!
