//! A request/response protocol engine.
//!
//! The engine is the decision core of the behaviour: it mints request ids,
//! tracks in-flight outbound requests and open inbound response channels,
//! and turns protocol happenings into events for the embedder. The swarm
//! task that owns the sockets drives it and performs the I/O it decides on.

use vstd::prelude::*;
use crate::peer_id::{PeerId, same_peer};
use crate::multiaddr::Multiaddr;

verus! {

/// Identifier correlating an outbound or inbound request with its terminal
/// event; minted from one monotonically increasing process-wide counter.
pub type RequestId = u64;

/// Why an outbound request failed.
#[derive(Debug, Clone, PartialEq, Eq, Structural)]
pub enum OutboundFailure {
    /// No connection could be established to the peer.
    DialFailure,
    /// The request timed out before a response arrived.
    Timeout,
    /// The connection closed while the request was in flight.
    ConnectionClosed,
    /// The peer supports none of the requested protocols.
    UnsupportedProtocols,
}

/// Why an inbound request failed.
#[derive(Debug, Clone, PartialEq, Eq, Structural)]
pub enum InboundFailure {
    /// Reading the request body timed out.
    Timeout,
    /// The connection closed before a response could be sent.
    ConnectionClosed,
    /// The request asked for a protocol this side does not support.
    UnsupportedProtocols,
    /// The channel was dropped without a response.
    ResponseOmission,
}

/// The write half of an inbound request: the embedder hands it back through
/// `send_response` to complete the exchange.
#[derive(Debug)]
pub struct ResponseChannel {
    /// The peer the response goes to.
    pub peer: PeerId,
    /// The inbound request this channel answers.
    pub request_id: RequestId,
}

/// A protocol-level message delivered to the embedder.
#[derive(Debug)]
pub enum RequestResponseMessage {
    /// An inbound request, with the channel to answer it on.
    Request { request_id: RequestId, request: Vec<u8>, channel: ResponseChannel },
    /// A response to an outbound request of ours.
    Response { request_id: RequestId, response: Vec<u8> },
}

/// An event delivered to the embedder.
#[derive(Debug)]
pub enum RequestResponseEvent {
    /// A message arrived.
    Message { peer: PeerId, message: RequestResponseMessage },
    /// A response of ours was fully written to the wire.
    ResponseSent { peer: PeerId, request_id: RequestId },
    /// An outbound request ended in failure.
    OutboundFailure { peer: PeerId, request_id: RequestId, error: OutboundFailure },
    /// An inbound request ended in failure.
    InboundFailure { peer: PeerId, request_id: RequestId, error: InboundFailure },
}

/// An outbound request awaiting its terminal event.
struct OutboundEntry {
    peer: PeerId,
    id: RequestId,
    request: Vec<u8>,
    /// Whether the request has been written to a live connection; false
    /// while it waits for a dial to finish.
    dispatched: bool,
}

/// An inbound request whose response channel is still open.
struct InboundEntry {
    peer: PeerId,
    id: RequestId,
}

/// The request/response behaviour state: tables keyed by request id, a
/// connection flag per peer, and the addresses fed to the dialer.
pub struct RequestResponse {
    next_request_id: u64,
    outbound: Vec<OutboundEntry>,
    inbound: Vec<InboundEntry>,
    connected: Vec<PeerId>,
    addresses: Vec<(PeerId, Multiaddr)>,
}

impl RequestResponse {
    /// The next id the engine will mint.
    pub closed spec fn spec_next_request_id(&self) -> u64 {
        self.next_request_id
    }

    /// Whether `id` is an outbound request of `peer` still awaiting its
    /// terminal event.
    pub closed spec fn spec_pending_outbound(&self, peer: PeerId, id: RequestId) -> bool {
        exists|k: int|
            0 <= k < self.outbound@.len() && self.outbound@[k].id == id && same_peer(
                self.outbound@[k].peer,
                peer,
            )
    }

    /// Whether `id` is pending outbound towards any peer.
    pub closed spec fn spec_pending_outbound_id(&self, id: RequestId) -> bool {
        exists|k: int| 0 <= k < self.outbound@.len() && self.outbound@[k].id == id
    }

    /// Whether the response channel of inbound request `id` from `peer` is
    /// still open.
    pub closed spec fn spec_open_inbound(&self, peer: PeerId, id: RequestId) -> bool {
        exists|k: int|
            0 <= k < self.inbound@.len() && self.inbound@[k].id == id && same_peer(
                self.inbound@[k].peer,
                peer,
            )
    }

    /// Whether `id` is an open inbound request from any peer.
    pub closed spec fn spec_open_inbound_id(&self, id: RequestId) -> bool {
        exists|k: int| 0 <= k < self.inbound@.len() && self.inbound@[k].id == id
    }

    /// Whether a connection to `peer` is up.
    pub closed spec fn spec_connected(&self, peer: PeerId) -> bool {
        exists|k: int| 0 <= k < self.connected@.len() && same_peer(self.connected@[k], peer)
    }

    /// Every tracked id was minted, and no id is tracked twice: each has at
    /// most one eventual terminal event.
    pub closed spec fn wf(&self) -> bool {
        &&& forall|k: int| 0 <= k < self.outbound@.len() ==> (#[trigger] self.outbound@[k].id)
            < self.next_request_id
        &&& forall|k: int| 0 <= k < self.inbound@.len() ==> (#[trigger] self.inbound@[k].id)
            < self.next_request_id
        &&& forall|k1: int, k2: int|
            0 <= k1 < k2 < self.outbound@.len() ==> (#[trigger] self.outbound@[k1].id) != (
            #[trigger] self.outbound@[k2].id)
        &&& forall|k1: int, k2: int|
            0 <= k1 < k2 < self.inbound@.len() ==> (#[trigger] self.inbound@[k1].id) != (
            #[trigger] self.inbound@[k2].id)
        &&& forall|k1: int, k2: int|
            0 <= k1 < self.outbound@.len() && 0 <= k2 < self.inbound@.len() ==> (
            #[trigger] self.outbound@[k1].id) != (#[trigger] self.inbound@[k2].id)
    }

    /// Two states with the same outbound table agree on every pending
    /// outbound question.
    proof fn lemma_same_outbound(a: RequestResponse, b: RequestResponse)
        requires
            a.outbound@ == b.outbound@,
        ensures
            forall|p: PeerId, id: RequestId| a.spec_pending_outbound(p, id)
                == b.spec_pending_outbound(p, id),
            forall|id: RequestId| a.spec_pending_outbound_id(id) == b.spec_pending_outbound_id(id),
            forall|p: PeerId| a.spec_awaiting_dial(p) == b.spec_awaiting_dial(p),
            forall|p: PeerId| a.spec_in_flight(p) == b.spec_in_flight(p),
    {
        assert forall|p: PeerId|
            a.spec_awaiting_dial(p) == b.spec_awaiting_dial(p) && a.spec_in_flight(p)
                == b.spec_in_flight(p) by {
            if a.spec_awaiting_dial(p) {
                let k = choose|k: int|
                    0 <= k < a.outbound@.len() && same_peer(a.outbound@[k].peer, p) && !(
                    a.outbound@[k].dispatched);
                assert(0 <= k < b.outbound@.len() && same_peer(b.outbound@[k].peer, p) && !(
                b.outbound@[k].dispatched));
            }
            if b.spec_awaiting_dial(p) {
                let k = choose|k: int|
                    0 <= k < b.outbound@.len() && same_peer(b.outbound@[k].peer, p) && !(
                    b.outbound@[k].dispatched);
                assert(0 <= k < a.outbound@.len() && same_peer(a.outbound@[k].peer, p) && !(
                a.outbound@[k].dispatched));
            }
            if a.spec_in_flight(p) {
                let k = choose|k: int|
                    0 <= k < a.outbound@.len() && same_peer(a.outbound@[k].peer, p)
                        && a.outbound@[k].dispatched;
                assert(0 <= k < b.outbound@.len() && same_peer(b.outbound@[k].peer, p)
                    && b.outbound@[k].dispatched);
            }
            if b.spec_in_flight(p) {
                let k = choose|k: int|
                    0 <= k < b.outbound@.len() && same_peer(b.outbound@[k].peer, p)
                        && b.outbound@[k].dispatched;
                assert(0 <= k < a.outbound@.len() && same_peer(a.outbound@[k].peer, p)
                    && a.outbound@[k].dispatched);
            }
        }
        assert forall|p: PeerId, id: RequestId|
            a.spec_pending_outbound(p, id) == b.spec_pending_outbound(p, id) by {
            if a.spec_pending_outbound(p, id) {
                let k = choose|k: int|
                    0 <= k < a.outbound@.len() && a.outbound@[k].id == id && same_peer(
                        a.outbound@[k].peer,
                        p,
                    );
                assert(0 <= k < b.outbound@.len() && b.outbound@[k].id == id && same_peer(
                    b.outbound@[k].peer,
                    p,
                ));
            }
            if b.spec_pending_outbound(p, id) {
                let k = choose|k: int|
                    0 <= k < b.outbound@.len() && b.outbound@[k].id == id && same_peer(
                        b.outbound@[k].peer,
                        p,
                    );
                assert(0 <= k < a.outbound@.len() && a.outbound@[k].id == id && same_peer(
                    a.outbound@[k].peer,
                    p,
                ));
            }
        }
        assert forall|id: RequestId|
            a.spec_pending_outbound_id(id) == b.spec_pending_outbound_id(id) by {
            if a.spec_pending_outbound_id(id) {
                let k = choose|k: int| 0 <= k < a.outbound@.len() && a.outbound@[k].id == id;
                assert(0 <= k < b.outbound@.len() && b.outbound@[k].id == id);
            }
            if b.spec_pending_outbound_id(id) {
                let k = choose|k: int| 0 <= k < b.outbound@.len() && b.outbound@[k].id == id;
                assert(0 <= k < a.outbound@.len() && a.outbound@[k].id == id);
            }
        }
    }

    /// Two states with the same inbound table agree on every open inbound
    /// question.
    proof fn lemma_same_inbound(a: RequestResponse, b: RequestResponse)
        requires
            a.inbound@ == b.inbound@,
        ensures
            forall|p: PeerId, id: RequestId| a.spec_open_inbound(p, id) == b.spec_open_inbound(
                p,
                id,
            ),
            forall|id: RequestId| a.spec_open_inbound_id(id) == b.spec_open_inbound_id(id),
    {
        assert forall|p: PeerId, id: RequestId|
            a.spec_open_inbound(p, id) == b.spec_open_inbound(p, id) by {
            if a.spec_open_inbound(p, id) {
                let k = choose|k: int|
                    0 <= k < a.inbound@.len() && a.inbound@[k].id == id && same_peer(
                        a.inbound@[k].peer,
                        p,
                    );
                assert(0 <= k < b.inbound@.len() && b.inbound@[k].id == id && same_peer(
                    b.inbound@[k].peer,
                    p,
                ));
            }
            if b.spec_open_inbound(p, id) {
                let k = choose|k: int|
                    0 <= k < b.inbound@.len() && b.inbound@[k].id == id && same_peer(
                        b.inbound@[k].peer,
                        p,
                    );
                assert(0 <= k < a.inbound@.len() && a.inbound@[k].id == id && same_peer(
                    a.inbound@[k].peer,
                    p,
                ));
            }
        }
        assert forall|id: RequestId| a.spec_open_inbound_id(id) == b.spec_open_inbound_id(id) by {
            if a.spec_open_inbound_id(id) {
                let k = choose|k: int| 0 <= k < a.inbound@.len() && a.inbound@[k].id == id;
                assert(0 <= k < b.inbound@.len() && b.inbound@[k].id == id);
            }
            if b.spec_open_inbound_id(id) {
                let k = choose|k: int| 0 <= k < b.inbound@.len() && b.inbound@[k].id == id;
                assert(0 <= k < a.inbound@.len() && a.inbound@[k].id == id);
            }
        }
    }

    /// Two states with the same connection list agree on who is connected.
    proof fn lemma_same_connected(a: RequestResponse, b: RequestResponse)
        requires
            a.connected@ == b.connected@,
        ensures
            forall|p: PeerId| a.spec_connected(p) == b.spec_connected(p),
    {
        assert forall|p: PeerId| a.spec_connected(p) == b.spec_connected(p) by {
            if a.spec_connected(p) {
                let k = choose|k: int| 0 <= k < a.connected@.len() && same_peer(a.connected@[k], p);
                assert(0 <= k < b.connected@.len() && same_peer(b.connected@[k], p));
            }
            if b.spec_connected(p) {
                let k = choose|k: int| 0 <= k < b.connected@.len() && same_peer(b.connected@[k], p);
                assert(0 <= k < a.connected@.len() && same_peer(a.connected@[k], p));
            }
        }
    }

    /// A fresh engine: no peers, no requests, ids starting at 1.
    pub fn new() -> (r: RequestResponse)
        ensures
            r.wf(),
            r.spec_next_request_id() == 1,
            forall|peer: PeerId, id: RequestId| !r.spec_pending_outbound(peer, id),
            forall|peer: PeerId, id: RequestId| !r.spec_open_inbound(peer, id),
            forall|peer: PeerId| !r.spec_connected(peer),
    {
        RequestResponse {
            next_request_id: 1,
            outbound: Vec::new(),
            inbound: Vec::new(),
            connected: Vec::new(),
            addresses: Vec::new(),
        }
    }

    /// Feeds an address for `peer` to the dialer.
    pub fn add_address(&mut self, peer: &PeerId, address: Multiaddr)
        requires
            old(self).wf(),
        ensures
            final(self).wf(),
            final(self).spec_next_request_id() == old(self).spec_next_request_id(),
            forall|p: PeerId, id: RequestId| final(self).spec_pending_outbound(p, id) == old(
                self,
            ).spec_pending_outbound(p, id),
            forall|p: PeerId, id: RequestId| final(self).spec_open_inbound(p, id) == old(
                self,
            ).spec_open_inbound(p, id),
            forall|p: PeerId| final(self).spec_awaiting_dial(p) == old(self).spec_awaiting_dial(
                p,
            ),
            forall|p: PeerId| final(self).spec_in_flight(p) == old(self).spec_in_flight(p),
    {
        self.addresses.push((peer.duplicate(), address));
        proof {
            Self::lemma_same_outbound(*old(self), *self);
            Self::lemma_same_inbound(*old(self), *self);
        }
    }

    /// Finds the index of `peer` in the connected list.
    fn find_connected(&self, peer: &PeerId) -> (r: Option<usize>)
        ensures
            match r {
                Some(k) => k < self.connected@.len() && same_peer(self.connected@[k as int], *peer),
                None => !self.spec_connected(*peer),
            },
    {
        let n = self.connected.len();
        let mut k: usize = 0;
        while k < n
            invariant
                n == self.connected@.len(),
                k <= n,
                forall|j: int| 0 <= j < k ==> !same_peer(self.connected@[j], *peer),
            decreases n - k,
        {
            if self.connected[k].eq_peer(peer) {
                return Some(k);
            }
            k = k + 1;
        }
        None
    }

    /// Records that a connection to `peer` is up.
    pub fn on_connection_established(&mut self, peer: &PeerId)
        requires
            old(self).wf(),
        ensures
            final(self).wf(),
            final(self).spec_connected(*peer),
            final(self).spec_next_request_id() == old(self).spec_next_request_id(),
            forall|p: PeerId, id: RequestId| final(self).spec_pending_outbound(p, id) == old(
                self,
            ).spec_pending_outbound(p, id),
            forall|p: PeerId, id: RequestId| final(self).spec_open_inbound(p, id) == old(
                self,
            ).spec_open_inbound(p, id),
            forall|p: PeerId| final(self).spec_awaiting_dial(p) == old(self).spec_awaiting_dial(
                p,
            ),
            forall|p: PeerId| final(self).spec_in_flight(p) == old(self).spec_in_flight(p),
    {
        match self.find_connected(peer) {
            Some(k) => {
                assert(self.spec_connected(*peer));
            },
            None => {
                let dup = peer.duplicate();
                self.connected.push(dup);
                assert(self.spec_connected(*peer)) by {
                    let last = self.connected@.len() - 1;
                    assert(same_peer(self.connected@[last], *peer));
                }
            },
        }
        proof {
            Self::lemma_same_outbound(*old(self), *self);
            Self::lemma_same_inbound(*old(self), *self);
        }
    }

    /// Initiates a request to `peer`, minting a fresh id. If a connection is
    /// up the request is ready for dispatch at once; otherwise it waits for
    /// a dial. The id has never been used before.
    pub fn send_request(&mut self, peer: &PeerId, request: Vec<u8>) -> (r: RequestId)
        requires
            old(self).wf(),
            old(self).spec_next_request_id() < u64::MAX,
        ensures
            final(self).wf(),
            r == old(self).spec_next_request_id(),
            final(self).spec_next_request_id() == r + 1,
            !old(self).spec_pending_outbound_id(r),
            !old(self).spec_open_inbound_id(r),
            final(self).spec_pending_outbound(*peer, r),
            old(self).spec_connected(*peer) ==> final(self).spec_in_flight(*peer),
            !old(self).spec_connected(*peer) ==> final(self).spec_awaiting_dial(*peer),
            forall|p: PeerId, id: RequestId| id != r ==> final(self).spec_pending_outbound(p, id)
                == old(self).spec_pending_outbound(p, id),
            forall|p: PeerId| !same_peer(p, *peer) ==> final(self).spec_awaiting_dial(p) == old(
                self,
            ).spec_awaiting_dial(p) && final(self).spec_in_flight(p) == old(self).spec_in_flight(p),
            forall|p: PeerId, id: RequestId| final(self).spec_open_inbound(p, id) == old(
                self,
            ).spec_open_inbound(p, id),
            forall|p: PeerId| final(self).spec_connected(p) == old(self).spec_connected(p),
    {
        let id = self.next_request_id;
        self.next_request_id = self.next_request_id + 1;
        let dispatched = match self.find_connected(peer) {
            Some(_) => true,
            None => false,
        };
        let entry = OutboundEntry { peer: peer.duplicate(), id, request, dispatched };
        self.outbound.push(entry);
        proof {
            assert forall|p: PeerId, i: RequestId|
                i != id && self.spec_pending_outbound(p, i) implies old(
                self,
            ).spec_pending_outbound(p, i) by {
                let k = choose|k: int|
                    0 <= k < self.outbound@.len() && self.outbound@[k].id == i && same_peer(
                        self.outbound@[k].peer,
                        p,
                    );
                assert(0 <= k < old(self).outbound@.len());
                assert(old(self).outbound@[k].id == i && same_peer(old(self).outbound@[k].peer, p));
            }
            assert(self.spec_pending_outbound(*peer, id)) by {
                let last = self.outbound@.len() - 1;
                assert(self.outbound@[last].id == id && same_peer(self.outbound@[last].peer, *peer));
            }
            assert(dispatched ==> self.spec_in_flight(*peer)) by {
                let last = self.outbound@.len() - 1;
                assert(same_peer(self.outbound@[last].peer, *peer));
            }
            assert(!dispatched ==> self.spec_awaiting_dial(*peer)) by {
                let last = self.outbound@.len() - 1;
                assert(same_peer(self.outbound@[last].peer, *peer));
            }
            assert forall|p: PeerId|
                !same_peer(p, *peer) implies self.spec_awaiting_dial(p) == old(
                self,
            ).spec_awaiting_dial(p) && self.spec_in_flight(p) == old(self).spec_in_flight(p) by {
                let last = self.outbound@.len() - 1;
                if old(self).spec_awaiting_dial(p) {
                    let k = choose|k: int|
                        0 <= k < old(self).outbound@.len() && same_peer(
                            old(self).outbound@[k].peer,
                            p,
                        ) && !(old(self).outbound@[k].dispatched);
                    assert(same_peer(self.outbound@[k].peer, p) && !(self.outbound@[k].dispatched));
                }
                if self.spec_awaiting_dial(p) {
                    let k = choose|k: int|
                        0 <= k < self.outbound@.len() && same_peer(self.outbound@[k].peer, p) && !(
                        self.outbound@[k].dispatched);
                    assert(k != last);
                    assert(same_peer(old(self).outbound@[k].peer, p) && !(old(
                        self,
                    ).outbound@[k].dispatched));
                }
                if old(self).spec_in_flight(p) {
                    let k = choose|k: int|
                        0 <= k < old(self).outbound@.len() && same_peer(
                            old(self).outbound@[k].peer,
                            p,
                        ) && old(self).outbound@[k].dispatched;
                    assert(same_peer(self.outbound@[k].peer, p) && self.outbound@[k].dispatched);
                }
                if self.spec_in_flight(p) {
                    let k = choose|k: int|
                        0 <= k < self.outbound@.len() && same_peer(self.outbound@[k].peer, p)
                            && self.outbound@[k].dispatched;
                    assert(k != last);
                    assert(same_peer(old(self).outbound@[k].peer, p) && old(
                        self,
                    ).outbound@[k].dispatched);
                }
            }
            Self::lemma_same_inbound(*old(self), *self);
            Self::lemma_same_connected(*old(self), *self);
            assert forall|p: PeerId, i: RequestId|
                i != id && old(self).spec_pending_outbound(p, i) implies self.spec_pending_outbound(
                p,
                i,
            ) by {
                let k = choose|k: int|
                    0 <= k < old(self).outbound@.len() && old(self).outbound@[k].id == i
                        && same_peer(old(self).outbound@[k].peer, p);
                assert(0 <= k < self.outbound@.len() && self.outbound@[k].id == i && same_peer(
                    self.outbound@[k].peer,
                    p,
                ));
            }
        }
        id
    }

    /// Removing one outbound entry removes exactly its id from the pending
    /// outbound table and leaves every other question as it was.
    proof fn lemma_outbound_removed(a: RequestResponse, b: RequestResponse, k: int)
        requires
            a.wf(),
            0 <= k < a.outbound@.len(),
            b.outbound@ == a.outbound@.remove(k),
            b.inbound@ == a.inbound@,
            b.next_request_id == a.next_request_id,
        ensures
            b.wf(),
            !b.spec_pending_outbound_id(a.outbound@[k].id),
            forall|p: PeerId, i: RequestId| i != a.outbound@[k].id
                ==> b.spec_pending_outbound(p, i) == a.spec_pending_outbound(p, i),
            forall|p: PeerId, i: RequestId| b.spec_pending_outbound(p, i)
                ==> a.spec_pending_outbound(p, i),
            forall|p: PeerId| b.spec_awaiting_dial(p) ==> a.spec_awaiting_dial(p),
            forall|p: PeerId| b.spec_in_flight(p) ==> a.spec_in_flight(p),
    {
        a.outbound@.remove_ensures(k);
        assert forall|p: PeerId|
            (b.spec_awaiting_dial(p) ==> a.spec_awaiting_dial(p)) && (b.spec_in_flight(p)
                ==> a.spec_in_flight(p)) by {
            if b.spec_awaiting_dial(p) {
                let j = choose|j: int|
                    0 <= j < b.outbound@.len() && same_peer(b.outbound@[j].peer, p) && !(
                    b.outbound@[j].dispatched);
                if j < k {
                    assert(same_peer(a.outbound@[j].peer, p) && !(a.outbound@[j].dispatched));
                } else {
                    assert(same_peer(a.outbound@[j + 1].peer, p) && !(a.outbound@[j
                        + 1].dispatched));
                }
            }
            if b.spec_in_flight(p) {
                let j = choose|j: int|
                    0 <= j < b.outbound@.len() && same_peer(b.outbound@[j].peer, p)
                        && b.outbound@[j].dispatched;
                if j < k {
                    assert(same_peer(a.outbound@[j].peer, p) && a.outbound@[j].dispatched);
                } else {
                    assert(same_peer(a.outbound@[j + 1].peer, p) && a.outbound@[j + 1].dispatched);
                }
            }
        }
        let removed = a.outbound@[k].id;
        assert forall|j: int| 0 <= j < b.outbound@.len() implies (#[trigger] b.outbound@[j])
            == a.outbound@[if j < k {
            j
        } else {
            j + 1
        }] by {}
        assert(!b.spec_pending_outbound_id(removed)) by {
            if b.spec_pending_outbound_id(removed) {
                let j = choose|j: int|
                    0 <= j < b.outbound@.len() && b.outbound@[j].id == removed;
                if j < k {
                    assert(a.outbound@[j].id == removed);
                } else {
                    assert(a.outbound@[j + 1].id == removed);
                }
            }
        }
        assert forall|p: PeerId, i: RequestId|
            i != removed implies b.spec_pending_outbound(p, i) == a.spec_pending_outbound(
            p,
            i,
        ) by {
            if a.spec_pending_outbound(p, i) {
                let j = choose|j: int|
                    0 <= j < a.outbound@.len() && a.outbound@[j].id == i && same_peer(
                        a.outbound@[j].peer,
                        p,
                    );
                if j < k {
                    assert(b.outbound@[j].id == i && same_peer(b.outbound@[j].peer, p));
                } else {
                    assert(j != k);
                    assert(b.outbound@[j - 1].id == i && same_peer(b.outbound@[j - 1].peer, p));
                }
            }
            if b.spec_pending_outbound(p, i) {
                let j = choose|j: int|
                    0 <= j < b.outbound@.len() && b.outbound@[j].id == i && same_peer(
                        b.outbound@[j].peer,
                        p,
                    );
                if j < k {
                    assert(a.outbound@[j].id == i && same_peer(a.outbound@[j].peer, p));
                } else {
                    assert(a.outbound@[j + 1].id == i && same_peer(a.outbound@[j + 1].peer, p));
                }
            }
        }
        assert forall|p: PeerId, i: RequestId|
            b.spec_pending_outbound(p, i) implies a.spec_pending_outbound(p, i) by {
            let j = choose|j: int|
                0 <= j < b.outbound@.len() && b.outbound@[j].id == i && same_peer(
                    b.outbound@[j].peer,
                    p,
                );
            if j < k {
                assert(a.outbound@[j].id == i && same_peer(a.outbound@[j].peer, p));
            } else {
                assert(a.outbound@[j + 1].id == i && same_peer(a.outbound@[j + 1].peer, p));
            }
        }
    }

    /// Removing one inbound entry removes exactly its id from the open
    /// inbound table and leaves every other question as it was.
    proof fn lemma_inbound_removed(a: RequestResponse, b: RequestResponse, k: int)
        requires
            a.wf(),
            0 <= k < a.inbound@.len(),
            b.inbound@ == a.inbound@.remove(k),
            b.outbound@ == a.outbound@,
            b.next_request_id == a.next_request_id,
        ensures
            b.wf(),
            !b.spec_open_inbound_id(a.inbound@[k].id),
            forall|p: PeerId, i: RequestId| i != a.inbound@[k].id ==> b.spec_open_inbound(p, i)
                == a.spec_open_inbound(p, i),
            forall|p: PeerId, i: RequestId| b.spec_open_inbound(p, i) ==> a.spec_open_inbound(
                p,
                i,
            ),
    {
        a.inbound@.remove_ensures(k);
        let removed = a.inbound@[k].id;
        assert(!b.spec_open_inbound_id(removed)) by {
            if b.spec_open_inbound_id(removed) {
                let j = choose|j: int| 0 <= j < b.inbound@.len() && b.inbound@[j].id == removed;
                if j < k {
                    assert(a.inbound@[j].id == removed);
                } else {
                    assert(a.inbound@[j + 1].id == removed);
                }
            }
        }
        assert forall|p: PeerId, i: RequestId|
            i != removed implies b.spec_open_inbound(p, i) == a.spec_open_inbound(p, i) by {
            if a.spec_open_inbound(p, i) {
                let j = choose|j: int|
                    0 <= j < a.inbound@.len() && a.inbound@[j].id == i && same_peer(
                        a.inbound@[j].peer,
                        p,
                    );
                if j < k {
                    assert(b.inbound@[j].id == i && same_peer(b.inbound@[j].peer, p));
                } else {
                    assert(j != k);
                    assert(b.inbound@[j - 1].id == i && same_peer(b.inbound@[j - 1].peer, p));
                }
            }
            if b.spec_open_inbound(p, i) {
                let j = choose|j: int|
                    0 <= j < b.inbound@.len() && b.inbound@[j].id == i && same_peer(
                        b.inbound@[j].peer,
                        p,
                    );
                if j < k {
                    assert(a.inbound@[j].id == i && same_peer(a.inbound@[j].peer, p));
                } else {
                    assert(a.inbound@[j + 1].id == i && same_peer(a.inbound@[j + 1].peer, p));
                }
            }
        }
        assert forall|p: PeerId, i: RequestId|
            b.spec_open_inbound(p, i) implies a.spec_open_inbound(p, i) by {
            let j = choose|j: int|
                0 <= j < b.inbound@.len() && b.inbound@[j].id == i && same_peer(
                    b.inbound@[j].peer,
                    p,
                );
            if j < k {
                assert(a.inbound@[j].id == i && same_peer(a.inbound@[j].peer, p));
            } else {
                assert(a.inbound@[j + 1].id == i && same_peer(a.inbound@[j + 1].peer, p));
            }
        }
    }

    /// Finds the index of the outbound entry for `peer` and `id`.
    fn find_outbound(&self, peer: &PeerId, id: RequestId) -> (r: Option<usize>)
        ensures
            match r {
                Some(k) => k < self.outbound@.len() && self.outbound@[k as int].id == id
                    && same_peer(self.outbound@[k as int].peer, *peer),
                None => !self.spec_pending_outbound(*peer, id),
            },
    {
        let n = self.outbound.len();
        let mut k: usize = 0;
        while k < n
            invariant
                n == self.outbound@.len(),
                k <= n,
                forall|j: int| 0 <= j < k ==> !(self.outbound@[j].id == id && same_peer(
                    self.outbound@[j].peer,
                    *peer,
                )),
            decreases n - k,
        {
            if self.outbound[k].id == id && self.outbound[k].peer.eq_peer(peer) {
                return Some(k);
            }
            k = k + 1;
        }
        None
    }

    /// Finds the index of the inbound entry for `peer` and `id`.
    fn find_inbound(&self, peer: &PeerId, id: RequestId) -> (r: Option<usize>)
        ensures
            match r {
                Some(k) => k < self.inbound@.len() && self.inbound@[k as int].id == id
                    && same_peer(self.inbound@[k as int].peer, *peer),
                None => !self.spec_open_inbound(*peer, id),
            },
    {
        let n = self.inbound.len();
        let mut k: usize = 0;
        while k < n
            invariant
                n == self.inbound@.len(),
                k <= n,
                forall|j: int| 0 <= j < k ==> !(self.inbound@[j].id == id && same_peer(
                    self.inbound@[j].peer,
                    *peer,
                )),
            decreases n - k,
        {
            if self.inbound[k].id == id && self.inbound[k].peer.eq_peer(peer) {
                return Some(k);
            }
            k = k + 1;
        }
        None
    }

    /// A response to outbound request `id` arrived from `peer`. The request
    /// leaves the pending table and exactly one `Message::Response` event
    /// comes back — or nothing, when no such request was pending.
    pub fn on_response_received(&mut self, peer: &PeerId, id: RequestId, response: Vec<u8>) -> (r:
        Option<RequestResponseEvent>)
        requires
            old(self).wf(),
        ensures
            final(self).wf(),
            final(self).spec_next_request_id() == old(self).spec_next_request_id(),
            r is Some <==> old(self).spec_pending_outbound(*peer, id),
            !final(self).spec_pending_outbound(*peer, id),
            r matches Some(e) ==> (e matches RequestResponseEvent::Message {
                peer: p,
                message: RequestResponseMessage::Response { request_id, response: resp },
            } && same_peer(p, *peer) && request_id == id && resp@ == response@),
            forall|p: PeerId, i: RequestId| i != id ==> final(self).spec_pending_outbound(p, i)
                == old(self).spec_pending_outbound(p, i),
            forall|p: PeerId, i: RequestId| final(self).spec_open_inbound(p, i) == old(
                self,
            ).spec_open_inbound(p, i),
            forall|p: PeerId| final(self).spec_awaiting_dial(p) ==> old(self).spec_awaiting_dial(
                p,
            ),
            forall|p: PeerId| final(self).spec_in_flight(p) ==> old(self).spec_in_flight(p),
    {
        match self.find_outbound(peer, id) {
            Some(k) => {
                let entry = self.outbound.remove(k);
                proof {
                    Self::lemma_outbound_removed(*old(self), *self, k as int);
                    Self::lemma_same_inbound(*old(self), *self);
                    assert(!self.spec_pending_outbound(*peer, id)) by {
                        if self.spec_pending_outbound(*peer, id) {
                            let j = choose|j: int|
                                0 <= j < self.outbound@.len() && self.outbound@[j].id == id
                                    && same_peer(self.outbound@[j].peer, *peer);
                            assert(self.spec_pending_outbound_id(id));
                        }
                    }
                }
                Some(
                    RequestResponseEvent::Message {
                        peer: entry.peer,
                        message: RequestResponseMessage::Response { request_id: id, response },
                    },
                )
            },
            None => {
                proof {
                    Self::lemma_same_outbound(*old(self), *self);
                    Self::lemma_same_inbound(*old(self), *self);
                }
                None
            },
        }
    }

    /// Outbound request `id` to `peer` failed. The request leaves the
    /// pending table and exactly one `OutboundFailure` event comes back — or
    /// nothing, when no such request was pending.
    pub fn on_outbound_failure(&mut self, peer: &PeerId, id: RequestId, error: OutboundFailure)
        -> (r: Option<RequestResponseEvent>)
        requires
            old(self).wf(),
        ensures
            final(self).wf(),
            final(self).spec_next_request_id() == old(self).spec_next_request_id(),
            r is Some <==> old(self).spec_pending_outbound(*peer, id),
            !final(self).spec_pending_outbound(*peer, id),
            r matches Some(e) ==> (e matches RequestResponseEvent::OutboundFailure {
                peer: p,
                request_id,
                error: err,
            } && same_peer(p, *peer) && request_id == id && err == error),
            forall|p: PeerId, i: RequestId| i != id ==> final(self).spec_pending_outbound(p, i)
                == old(self).spec_pending_outbound(p, i),
            forall|p: PeerId, i: RequestId| final(self).spec_open_inbound(p, i) == old(
                self,
            ).spec_open_inbound(p, i),
            forall|p: PeerId| final(self).spec_awaiting_dial(p) ==> old(self).spec_awaiting_dial(
                p,
            ),
            forall|p: PeerId| final(self).spec_in_flight(p) ==> old(self).spec_in_flight(p),
    {
        match self.find_outbound(peer, id) {
            Some(k) => {
                let entry = self.outbound.remove(k);
                proof {
                    Self::lemma_outbound_removed(*old(self), *self, k as int);
                    Self::lemma_same_inbound(*old(self), *self);
                    assert(!self.spec_pending_outbound(*peer, id)) by {
                        if self.spec_pending_outbound(*peer, id) {
                            let j = choose|j: int|
                                0 <= j < self.outbound@.len() && self.outbound@[j].id == id
                                    && same_peer(self.outbound@[j].peer, *peer);
                            assert(self.spec_pending_outbound_id(id));
                        }
                    }
                }
                Some(RequestResponseEvent::OutboundFailure { peer: entry.peer, request_id: id, error })
            },
            None => {
                proof {
                    Self::lemma_same_outbound(*old(self), *self);
                    Self::lemma_same_inbound(*old(self), *self);
                }
                None
            },
        }
    }

    /// An inbound request arrived from `peer`. A fresh id is minted, the
    /// response channel opens, and the `Message::Request` event carries both
    /// to the embedder.
    pub fn on_request_received(&mut self, peer: &PeerId, request: Vec<u8>) -> (r:
        RequestResponseEvent)
        requires
            old(self).wf(),
            old(self).spec_next_request_id() < u64::MAX,
        ensures
            final(self).wf(),
            final(self).spec_next_request_id() == old(self).spec_next_request_id() + 1,
            r matches RequestResponseEvent::Message {
                peer: p,
                message: RequestResponseMessage::Request { request_id, request: req, channel },
            } && same_peer(p, *peer) && request_id == old(self).spec_next_request_id() && req@
                == request@ && channel.request_id == request_id && same_peer(channel.peer, *peer),
            final(self).spec_open_inbound(*peer, old(self).spec_next_request_id()),
            !old(self).spec_open_inbound_id(old(self).spec_next_request_id()),
            !old(self).spec_pending_outbound_id(old(self).spec_next_request_id()),
            forall|p: PeerId, i: RequestId| i != old(self).spec_next_request_id()
                ==> final(self).spec_open_inbound(p, i) == old(self).spec_open_inbound(p, i),
            forall|p: PeerId, i: RequestId| final(self).spec_pending_outbound(p, i) == old(
                self,
            ).spec_pending_outbound(p, i),
            forall|p: PeerId| final(self).spec_awaiting_dial(p) == old(self).spec_awaiting_dial(
                p,
            ),
            forall|p: PeerId| final(self).spec_in_flight(p) == old(self).spec_in_flight(p),
    {
        let id = self.next_request_id;
        self.next_request_id = self.next_request_id + 1;
        self.inbound.push(InboundEntry { peer: peer.duplicate(), id });
        proof {
            Self::lemma_same_outbound(*old(self), *self);
            assert(self.spec_open_inbound(*peer, id)) by {
                let last = self.inbound@.len() - 1;
                assert(self.inbound@[last].id == id && same_peer(self.inbound@[last].peer, *peer));
            }
            assert forall|p: PeerId, i: RequestId|
                i != id && self.spec_open_inbound(p, i) implies old(self).spec_open_inbound(
                p,
                i,
            ) by {
                let k = choose|k: int|
                    0 <= k < self.inbound@.len() && self.inbound@[k].id == i && same_peer(
                        self.inbound@[k].peer,
                        p,
                    );
                assert(0 <= k < old(self).inbound@.len());
                assert(old(self).inbound@[k].id == i && same_peer(old(self).inbound@[k].peer, p));
            }
            assert forall|p: PeerId, i: RequestId|
                i != id && old(self).spec_open_inbound(p, i) implies self.spec_open_inbound(
                p,
                i,
            ) by {
                let k = choose|k: int|
                    0 <= k < old(self).inbound@.len() && old(self).inbound@[k].id == i && same_peer(
                        old(self).inbound@[k].peer,
                        p,
                    );
                assert(0 <= k < self.inbound@.len());
                assert(self.inbound@[k].id == i && same_peer(self.inbound@[k].peer, p));
            }
        }
        RequestResponseEvent::Message {
            peer: peer.duplicate(),
            message: RequestResponseMessage::Request {
                request_id: id,
                request,
                channel: ResponseChannel { peer: peer.duplicate(), request_id: id },
            },
        }
    }

    /// Completes an inbound request by sending `response` on its channel.
    /// Succeeds, with the `ResponseSent` event to emit once the bytes are on
    /// the wire, exactly when the channel is still open; a channel closed by
    /// connection loss hands the response back.
    pub fn send_response(&mut self, channel: ResponseChannel, response: Vec<u8>) -> (r: Result<
        RequestResponseEvent,
        Vec<u8>,
    >)
        requires
            old(self).wf(),
        ensures
            final(self).wf(),
            final(self).spec_next_request_id() == old(self).spec_next_request_id(),
            r is Ok <==> old(self).spec_open_inbound(channel.peer, channel.request_id),
            !final(self).spec_open_inbound(channel.peer, channel.request_id),
            r matches Ok(e) ==> (e matches RequestResponseEvent::ResponseSent {
                peer: p,
                request_id,
            } && same_peer(p, channel.peer) && request_id == channel.request_id),
            r matches Err(v) ==> v@ == response@,
            forall|p: PeerId, i: RequestId| i != channel.request_id
                ==> final(self).spec_open_inbound(p, i) == old(self).spec_open_inbound(p, i),
            forall|p: PeerId, i: RequestId| final(self).spec_pending_outbound(p, i) == old(
                self,
            ).spec_pending_outbound(p, i),
            forall|p: PeerId| final(self).spec_awaiting_dial(p) == old(self).spec_awaiting_dial(
                p,
            ),
            forall|p: PeerId| final(self).spec_in_flight(p) == old(self).spec_in_flight(p),
    {
        match self.find_inbound(&channel.peer, channel.request_id) {
            Some(k) => {
                let entry = self.inbound.remove(k);
                proof {
                    Self::lemma_inbound_removed(*old(self), *self, k as int);
                    Self::lemma_same_outbound(*old(self), *self);
                    assert(!self.spec_open_inbound(channel.peer, channel.request_id)) by {
                        if self.spec_open_inbound(channel.peer, channel.request_id) {
                            let j = choose|j: int|
                                0 <= j < self.inbound@.len() && self.inbound@[j].id
                                    == channel.request_id && same_peer(
                                    self.inbound@[j].peer,
                                    channel.peer,
                                );
                            assert(self.spec_open_inbound_id(channel.request_id));
                        }
                    }
                }
                Ok(
                    RequestResponseEvent::ResponseSent {
                        peer: entry.peer,
                        request_id: channel.request_id,
                    },
                )
            },
            None => {
                proof {
                    Self::lemma_same_outbound(*old(self), *self);
                    Self::lemma_same_inbound(*old(self), *self);
                }
                Err(response)
            },
        }
    }

    /// An inbound request `id` from `peer` failed before completion: its
    /// channel closes and exactly one `InboundFailure` event comes back — or
    /// nothing, when no such channel was open.
    pub fn on_inbound_failure(&mut self, peer: &PeerId, id: RequestId, error: InboundFailure)
        -> (r: Option<RequestResponseEvent>)
        requires
            old(self).wf(),
        ensures
            final(self).wf(),
            final(self).spec_next_request_id() == old(self).spec_next_request_id(),
            r is Some <==> old(self).spec_open_inbound(*peer, id),
            !final(self).spec_open_inbound(*peer, id),
            r matches Some(e) ==> (e matches RequestResponseEvent::InboundFailure {
                peer: p,
                request_id,
                error: err,
            } && same_peer(p, *peer) && request_id == id && err == error),
            forall|p: PeerId, i: RequestId| i != id ==> final(self).spec_open_inbound(p, i) == old(
                self,
            ).spec_open_inbound(p, i),
            forall|p: PeerId, i: RequestId| final(self).spec_pending_outbound(p, i) == old(
                self,
            ).spec_pending_outbound(p, i),
            forall|p: PeerId| final(self).spec_awaiting_dial(p) == old(self).spec_awaiting_dial(
                p,
            ),
            forall|p: PeerId| final(self).spec_in_flight(p) == old(self).spec_in_flight(p),
    {
        match self.find_inbound(peer, id) {
            Some(k) => {
                let entry = self.inbound.remove(k);
                proof {
                    Self::lemma_inbound_removed(*old(self), *self, k as int);
                    Self::lemma_same_outbound(*old(self), *self);
                    assert(!self.spec_open_inbound(*peer, id)) by {
                        if self.spec_open_inbound(*peer, id) {
                            let j = choose|j: int|
                                0 <= j < self.inbound@.len() && self.inbound@[j].id == id
                                    && same_peer(self.inbound@[j].peer, *peer);
                            assert(self.spec_open_inbound_id(id));
                        }
                    }
                }
                Some(RequestResponseEvent::InboundFailure { peer: entry.peer, request_id: id, error })
            },
            None => {
                proof {
                    Self::lemma_same_outbound(*old(self), *self);
                    Self::lemma_same_inbound(*old(self), *self);
                }
                None
            },
        }
    }

    /// Whether some outbound request to `peer` still waits for a dial to
    /// finish.
    pub closed spec fn spec_awaiting_dial(&self, peer: PeerId) -> bool {
        exists|k: int|
            0 <= k < self.outbound@.len() && same_peer(self.outbound@[k].peer, peer) && !(
            self.outbound@[k].dispatched)
    }

    /// Whether some outbound request to `peer` has been written to a
    /// connection and still waits for its response.
    pub closed spec fn spec_in_flight(&self, peer: PeerId) -> bool {
        exists|k: int|
            0 <= k < self.outbound@.len() && same_peer(self.outbound@[k].peer, peer)
                && self.outbound@[k].dispatched
    }

    /// Finds an outbound entry for `peer` with the given dispatch state.
    fn find_outbound_by_state(&self, peer: &PeerId, dispatched: bool) -> (r: Option<usize>)
        ensures
            match r {
                Some(k) => k < self.outbound@.len() && same_peer(
                    self.outbound@[k as int].peer,
                    *peer,
                ) && self.outbound@[k as int].dispatched == dispatched,
                None => if dispatched {
                    !self.spec_in_flight(*peer)
                } else {
                    !self.spec_awaiting_dial(*peer)
                },
            },
    {
        let n = self.outbound.len();
        let mut k: usize = 0;
        while k < n
            invariant
                n == self.outbound@.len(),
                k <= n,
                forall|j: int| 0 <= j < k ==> !(same_peer(self.outbound@[j].peer, *peer)
                    && self.outbound@[j].dispatched == dispatched),
            decreases n - k,
        {
            if self.outbound[k].dispatched == dispatched && self.outbound[k].peer.eq_peer(peer) {
                return Some(k);
            }
            k = k + 1;
        }
        None
    }

    /// Hands out the next request to write to a fresh connection to `peer`,
    /// marking it in flight. The request stays pending until its terminal
    /// event. Nothing comes back once every request is on the wire.
    pub fn next_to_dispatch(&mut self, peer: &PeerId) -> (r: Option<(RequestId, Vec<u8>)>)
        requires
            old(self).wf(),
        ensures
            final(self).wf(),
            final(self).spec_next_request_id() == old(self).spec_next_request_id(),
            r matches Some((id, _)) ==> old(self).spec_pending_outbound(*peer, id) && final(self).spec_pending_outbound(*peer, id),
            r is Some ==> final(self).spec_in_flight(*peer),
            r is None ==> !old(self).spec_awaiting_dial(*peer) && (forall|p: PeerId|
                final(self).spec_awaiting_dial(p) == old(self).spec_awaiting_dial(p)) && (forall|
                p: PeerId,
            |
                final(self).spec_in_flight(p) == old(self).spec_in_flight(p)),
            forall|p: PeerId| !same_peer(p, *peer) ==> final(self).spec_awaiting_dial(p) == old(
                self,
            ).spec_awaiting_dial(p) && final(self).spec_in_flight(p) == old(self).spec_in_flight(p),
            forall|p: PeerId, i: RequestId| final(self).spec_pending_outbound(p, i) == old(
                self,
            ).spec_pending_outbound(p, i),
            forall|p: PeerId, i: RequestId| final(self).spec_open_inbound(p, i) == old(
                self,
            ).spec_open_inbound(p, i),
    {
        match self.find_outbound_by_state(peer, false) {
            Some(k) => {
                let mut entry = self.outbound.remove(k);
                let ghost removed_state = *self;
                proof {
                    Self::lemma_outbound_removed(*old(self), *self, k as int);
                }
                entry.dispatched = true;
                let id = entry.id;
                let request = vstd::slice::slice_to_vec(entry.request.as_slice());
                self.outbound.push(entry);
                proof {
                    Self::lemma_same_inbound(*old(self), *self);
                    let last = self.outbound@.len() - 1;
                    assert(self.outbound@[last].id == id);
                    assert forall|p: PeerId, i: RequestId|
                        final(self).spec_pending_outbound(p, i) == old(
                            self,
                        ).spec_pending_outbound(p, i) by {
                        if self.spec_pending_outbound(p, i) {
                            let j = choose|j: int|
                                0 <= j < self.outbound@.len() && self.outbound@[j].id == i
                                    && same_peer(self.outbound@[j].peer, p);
                            if j < last {
                                assert(removed_state.spec_pending_outbound(p, i)) by {
                                    assert(removed_state.outbound@[j].id == i && same_peer(
                                        removed_state.outbound@[j].peer,
                                        p,
                                    ));
                                }
                            } else {
                                assert(old(self).outbound@[k as int].id == i && same_peer(
                                    old(self).outbound@[k as int].peer,
                                    p,
                                ));
                            }
                        }
                        if old(self).spec_pending_outbound(p, i) {
                            if i == old(self).outbound@[k as int].id && same_peer(
                                old(self).outbound@[k as int].peer,
                                p,
                            ) {
                                assert(self.outbound@[last].id == i && same_peer(
                                    self.outbound@[last].peer,
                                    p,
                                ));
                            } else {
                                if i != old(self).outbound@[k as int].id {
                                    assert(removed_state.spec_pending_outbound(p, i));
                                    let j = choose|j: int|
                                        0 <= j < removed_state.outbound@.len()
                                            && removed_state.outbound@[j].id == i && same_peer(
                                            removed_state.outbound@[j].peer,
                                            p,
                                        );
                                    assert(self.outbound@[j].id == i && same_peer(
                                        self.outbound@[j].peer,
                                        p,
                                    ));
                                } else {
                                    // Same id, so the same entry by uniqueness: the peer
                                    // matches after all.
                                    let j = choose|j: int|
                                        0 <= j < old(self).outbound@.len() && old(
                                            self,
                                        ).outbound@[j].id == i && same_peer(
                                            old(self).outbound@[j].peer,
                                            p,
                                        );
                                    assert(j == k as int);
                                    assert(self.outbound@[last].id == i && same_peer(
                                        self.outbound@[last].peer,
                                        p,
                                    ));
                                }
                            }
                        }
                    }
                    assert(self.wf()) by {
                        assert forall|k1: int, k2: int|
                            0 <= k1 < k2 < self.outbound@.len() implies (
                        #[trigger] self.outbound@[k1].id) != (#[trigger] self.outbound@[k2].id) by {
                            if k2 == last {
                                if self.outbound@[k1].id == old(self).outbound@[k as int].id {
                                    assert(removed_state.outbound@[k1].id == old(
                                        self,
                                    ).outbound@[k as int].id);
                                    assert(!removed_state.spec_pending_outbound_id(
                                        old(self).outbound@[k as int].id,
                                    ));
                                }
                            }
                        }
                        assert forall|k1: int, k2: int|
                            0 <= k1 < self.outbound@.len() && 0 <= k2 < self.inbound@.len() implies (
                        #[trigger] self.outbound@[k1].id) != (#[trigger] self.inbound@[k2].id) by {
                            if k1 == last {
                                assert(old(self).outbound@[k as int].id != old(
                                    self,
                                ).inbound@[k2].id);
                            }
                        }
                    }
                    assert(self.spec_in_flight(*peer)) by {
                        assert(same_peer(self.outbound@[last].peer, *peer)
                            && self.outbound@[last].dispatched);
                    }
                    assert forall|p: PeerId|
                        !same_peer(p, *peer) implies self.spec_awaiting_dial(p) == old(
                        self,
                    ).spec_awaiting_dial(p) && self.spec_in_flight(p) == old(
                        self,
                    ).spec_in_flight(p) by {
                        if old(self).spec_awaiting_dial(p) {
                            let j = choose|j: int|
                                0 <= j < old(self).outbound@.len() && same_peer(
                                    old(self).outbound@[j].peer,
                                    p,
                                ) && !(old(self).outbound@[j].dispatched);
                            assert(j != k as int);
                            if j < k as int {
                                assert(same_peer(self.outbound@[j].peer, p) && !(
                                self.outbound@[j].dispatched));
                            } else {
                                assert(same_peer(self.outbound@[j - 1].peer, p) && !(
                                self.outbound@[j - 1].dispatched));
                            }
                        }
                        if self.spec_awaiting_dial(p) {
                            let j = choose|j: int|
                                0 <= j < self.outbound@.len() && same_peer(
                                    self.outbound@[j].peer,
                                    p,
                                ) && !(self.outbound@[j].dispatched);
                            assert(j != last);
                            if j < k as int {
                                assert(same_peer(old(self).outbound@[j].peer, p) && !(old(
                                    self,
                                ).outbound@[j].dispatched));
                            } else {
                                assert(same_peer(old(self).outbound@[j + 1].peer, p) && !(old(
                                    self,
                                ).outbound@[j + 1].dispatched));
                            }
                        }
                        if old(self).spec_in_flight(p) {
                            let j = choose|j: int|
                                0 <= j < old(self).outbound@.len() && same_peer(
                                    old(self).outbound@[j].peer,
                                    p,
                                ) && old(self).outbound@[j].dispatched;
                            assert(j != k as int);
                            if j < k as int {
                                assert(same_peer(self.outbound@[j].peer, p)
                                    && self.outbound@[j].dispatched);
                            } else {
                                assert(same_peer(self.outbound@[j - 1].peer, p)
                                    && self.outbound@[j - 1].dispatched);
                            }
                        }
                        if self.spec_in_flight(p) {
                            let j = choose|j: int|
                                0 <= j < self.outbound@.len() && same_peer(
                                    self.outbound@[j].peer,
                                    p,
                                ) && self.outbound@[j].dispatched;
                            assert(j != last);
                            if j < k as int {
                                assert(same_peer(old(self).outbound@[j].peer, p) && old(
                                    self,
                                ).outbound@[j].dispatched);
                            } else {
                                assert(same_peer(old(self).outbound@[j + 1].peer, p) && old(
                                    self,
                                ).outbound@[j + 1].dispatched);
                            }
                        }
                    }
                }
                Some((id, request))
            },
            None => {
                proof {
                    Self::lemma_same_outbound(*old(self), *self);
                    Self::lemma_same_inbound(*old(self), *self);
                }
                None
            },
        }
    }

    /// A dial towards `peer` failed. One request that was waiting on it
    /// leaves the table with a `DialFailure` event; the swarm calls again
    /// until nothing waits.
    pub fn take_dial_failure(&mut self, peer: &PeerId) -> (r: Option<RequestResponseEvent>)
        requires
            old(self).wf(),
        ensures
            final(self).wf(),
            final(self).spec_next_request_id() == old(self).spec_next_request_id(),
            r is Some <==> old(self).spec_awaiting_dial(*peer),
            r matches Some(e) ==> (e matches RequestResponseEvent::OutboundFailure {
                peer: p,
                request_id,
                error,
            } && same_peer(p, *peer) && error == OutboundFailure::DialFailure && old(
                self,
            ).spec_pending_outbound(*peer, request_id) && !final(self).spec_pending_outbound(
                *peer,
                request_id,
            ) && (forall|q: PeerId, i: RequestId| i != request_id
                ==> final(self).spec_pending_outbound(q, i) == old(self).spec_pending_outbound(
                    q,
                    i,
                ))),
            r is None ==> forall|p: PeerId, i: RequestId| final(self).spec_pending_outbound(p, i)
                == old(self).spec_pending_outbound(p, i),
            forall|p: PeerId, i: RequestId| final(self).spec_open_inbound(p, i) == old(
                self,
            ).spec_open_inbound(p, i),
            forall|p: PeerId| final(self).spec_awaiting_dial(p) ==> old(self).spec_awaiting_dial(
                p,
            ),
            forall|p: PeerId| final(self).spec_in_flight(p) ==> old(self).spec_in_flight(p),
    {
        match self.find_outbound_by_state(peer, false) {
            Some(k) => {
                let entry = self.outbound.remove(k);
                proof {
                    Self::lemma_outbound_removed(*old(self), *self, k as int);
                    Self::lemma_same_inbound(*old(self), *self);
                    assert(old(self).spec_pending_outbound(*peer, entry.id)) by {
                        assert(old(self).outbound@[k as int].id == entry.id && same_peer(
                            old(self).outbound@[k as int].peer,
                            *peer,
                        ));
                    }
                    assert(!self.spec_pending_outbound(*peer, entry.id)) by {
                        if self.spec_pending_outbound(*peer, entry.id) {
                            let j = choose|j: int|
                                0 <= j < self.outbound@.len() && self.outbound@[j].id == entry.id
                                    && same_peer(self.outbound@[j].peer, *peer);
                            assert(self.spec_pending_outbound_id(entry.id));
                        }
                    }
                }
                Some(
                    RequestResponseEvent::OutboundFailure {
                        peer: entry.peer,
                        request_id: entry.id,
                        error: OutboundFailure::DialFailure,
                    },
                )
            },
            None => {
                proof {
                    Self::lemma_same_outbound(*old(self), *self);
                    Self::lemma_same_inbound(*old(self), *self);
                }
                None
            },
        }
    }

    /// The connection to `peer` closed. One in-flight outbound request
    /// leaves the table with a `ConnectionClosed` failure; the swarm calls
    /// again until nothing is in flight, then does the same for inbound
    /// channels and finally records the disconnect.
    pub fn take_closed_outbound(&mut self, peer: &PeerId) -> (r: Option<RequestResponseEvent>)
        requires
            old(self).wf(),
        ensures
            final(self).wf(),
            final(self).spec_next_request_id() == old(self).spec_next_request_id(),
            r is Some <==> old(self).spec_in_flight(*peer),
            r matches Some(e) ==> (e matches RequestResponseEvent::OutboundFailure {
                peer: p,
                request_id,
                error,
            } && same_peer(p, *peer) && error == OutboundFailure::ConnectionClosed && old(
                self,
            ).spec_pending_outbound(*peer, request_id) && !final(self).spec_pending_outbound(
                *peer,
                request_id,
            ) && (forall|q: PeerId, i: RequestId| i != request_id
                ==> final(self).spec_pending_outbound(q, i) == old(self).spec_pending_outbound(
                    q,
                    i,
                ))),
            r is None ==> forall|p: PeerId, i: RequestId| final(self).spec_pending_outbound(p, i)
                == old(self).spec_pending_outbound(p, i),
            forall|p: PeerId, i: RequestId| final(self).spec_open_inbound(p, i) == old(
                self,
            ).spec_open_inbound(p, i),
            forall|p: PeerId| final(self).spec_awaiting_dial(p) ==> old(self).spec_awaiting_dial(
                p,
            ),
            forall|p: PeerId| final(self).spec_in_flight(p) ==> old(self).spec_in_flight(p),
    {
        match self.find_outbound_by_state(peer, true) {
            Some(k) => {
                let entry = self.outbound.remove(k);
                proof {
                    Self::lemma_outbound_removed(*old(self), *self, k as int);
                    Self::lemma_same_inbound(*old(self), *self);
                    assert(old(self).spec_pending_outbound(*peer, entry.id)) by {
                        assert(old(self).outbound@[k as int].id == entry.id && same_peer(
                            old(self).outbound@[k as int].peer,
                            *peer,
                        ));
                    }
                    assert(!self.spec_pending_outbound(*peer, entry.id)) by {
                        if self.spec_pending_outbound(*peer, entry.id) {
                            let j = choose|j: int|
                                0 <= j < self.outbound@.len() && self.outbound@[j].id == entry.id
                                    && same_peer(self.outbound@[j].peer, *peer);
                            assert(self.spec_pending_outbound_id(entry.id));
                        }
                    }
                }
                Some(
                    RequestResponseEvent::OutboundFailure {
                        peer: entry.peer,
                        request_id: entry.id,
                        error: OutboundFailure::ConnectionClosed,
                    },
                )
            },
            None => {
                proof {
                    Self::lemma_same_outbound(*old(self), *self);
                    Self::lemma_same_inbound(*old(self), *self);
                }
                None
            },
        }
    }

    /// Finds the index of any inbound entry from `peer`.
    fn find_inbound_by_peer(&self, peer: &PeerId) -> (r: Option<usize>)
        ensures
            match r {
                Some(k) => k < self.inbound@.len() && same_peer(self.inbound@[k as int].peer, *peer),
                None => forall|j: int| 0 <= j < self.inbound@.len() ==> !same_peer(
                    self.inbound@[j].peer,
                    *peer,
                ),
            },
    {
        let n = self.inbound.len();
        let mut k: usize = 0;
        while k < n
            invariant
                n == self.inbound@.len(),
                k <= n,
                forall|j: int| 0 <= j < k ==> !same_peer(self.inbound@[j].peer, *peer),
            decreases n - k,
        {
            if self.inbound[k].peer.eq_peer(peer) {
                return Some(k);
            }
            k = k + 1;
        }
        None
    }

    /// The connection to `peer` closed: one open inbound channel closes with
    /// a `ConnectionClosed` failure. The swarm calls again until none is
    /// left.
    pub fn take_closed_inbound(&mut self, peer: &PeerId) -> (r: Option<RequestResponseEvent>)
        requires
            old(self).wf(),
        ensures
            final(self).wf(),
            final(self).spec_next_request_id() == old(self).spec_next_request_id(),
            r is Some <==> exists|i: RequestId| old(self).spec_open_inbound(*peer, i),
            r matches Some(e) ==> (e matches RequestResponseEvent::InboundFailure {
                peer: p,
                request_id,
                error,
            } && same_peer(p, *peer) && error == InboundFailure::ConnectionClosed && old(
                self,
            ).spec_open_inbound(*peer, request_id) && !final(self).spec_open_inbound(
                *peer,
                request_id,
            ) && (forall|q: PeerId, i: RequestId| i != request_id ==> final(self).spec_open_inbound(
                q,
                i,
            ) == old(self).spec_open_inbound(q, i))),
            r is None ==> forall|p: PeerId, i: RequestId| final(self).spec_open_inbound(p, i)
                == old(self).spec_open_inbound(p, i),
            forall|p: PeerId, i: RequestId| final(self).spec_pending_outbound(p, i) == old(
                self,
            ).spec_pending_outbound(p, i),
            forall|p: PeerId| final(self).spec_awaiting_dial(p) == old(self).spec_awaiting_dial(
                p,
            ),
            forall|p: PeerId| final(self).spec_in_flight(p) == old(self).spec_in_flight(p),
    {
        let found = self.find_inbound_by_peer(peer);
        match found {
            Some(k) => {
                let entry = self.inbound.remove(k);
                proof {
                    Self::lemma_inbound_removed(*old(self), *self, k as int);
                    Self::lemma_same_outbound(*old(self), *self);
                    assert(old(self).spec_open_inbound(*peer, entry.id)) by {
                        assert(old(self).inbound@[k as int].id == entry.id && same_peer(
                            old(self).inbound@[k as int].peer,
                            *peer,
                        ));
                    }
                    assert(!self.spec_open_inbound(*peer, entry.id)) by {
                        if self.spec_open_inbound(*peer, entry.id) {
                            let j = choose|j: int|
                                0 <= j < self.inbound@.len() && self.inbound@[j].id == entry.id
                                    && same_peer(self.inbound@[j].peer, *peer);
                            assert(self.spec_open_inbound_id(entry.id));
                        }
                    }
                }
                Some(
                    RequestResponseEvent::InboundFailure {
                        peer: entry.peer,
                        request_id: entry.id,
                        error: InboundFailure::ConnectionClosed,
                    },
                )
            },
            None => {
                proof {
                    Self::lemma_same_outbound(*old(self), *self);
                    Self::lemma_same_inbound(*old(self), *self);
                    if exists|i: RequestId| old(self).spec_open_inbound(*peer, i) {
                        let i = choose|i: RequestId| old(self).spec_open_inbound(*peer, i);
                        let j = choose|j: int|
                            0 <= j < old(self).inbound@.len() && old(self).inbound@[j].id == i
                                && same_peer(old(self).inbound@[j].peer, *peer);
                        assert(false);
                    }
                }
                None
            },
        }
    }

    /// Records that the connection to `peer` is gone; the request tables are
    /// untouched, the closed-connection failures having been taken already.
    pub fn on_disconnect(&mut self, peer: &PeerId)
        requires
            old(self).wf(),
        ensures
            final(self).wf(),
            final(self).spec_next_request_id() == old(self).spec_next_request_id(),
            !final(self).spec_connected(*peer),
            forall|p: PeerId, i: RequestId| final(self).spec_pending_outbound(p, i) == old(
                self,
            ).spec_pending_outbound(p, i),
            forall|p: PeerId, i: RequestId| final(self).spec_open_inbound(p, i) == old(
                self,
            ).spec_open_inbound(p, i),
            forall|p: PeerId| final(self).spec_awaiting_dial(p) == old(self).spec_awaiting_dial(
                p,
            ),
            forall|p: PeerId| final(self).spec_in_flight(p) == old(self).spec_in_flight(p),
    {
        loop
            invariant
                self.wf(),
                self.outbound@ == old(self).outbound@,
                self.inbound@ == old(self).inbound@,
                self.next_request_id == old(self).next_request_id,
            ensures
                self.wf(),
                self.outbound@ == old(self).outbound@,
                self.inbound@ == old(self).inbound@,
                self.next_request_id == old(self).next_request_id,
                !self.spec_connected(*peer),
            decreases self.connected@.len(),
        {
            match self.find_connected(peer) {
                Some(k) => {
                    let ghost pre = *self;
                    self.connected.remove(k);
                    proof {
                        pre.connected@.remove_ensures(k as int);
                    }
                },
                None => {
                    break ;
                },
            }
        }
        proof {
            Self::lemma_same_outbound(*old(self), *self);
            Self::lemma_same_inbound(*old(self), *self);
        }
    }

    /// Law: the engine's tables key by peer identity, not by peer-id value:
    /// two peer ids carrying the same multihash answer every question alike.
    /// In particular, facts learned of a peer id transport to any copy of
    /// it, such as the one a response channel carries.
    pub proof fn lemma_respects_peer_identity(s: &RequestResponse, p: PeerId, q: PeerId)
        requires
            same_peer(p, q),
        ensures
            forall|i: RequestId| s.spec_pending_outbound(p, i) == s.spec_pending_outbound(q, i),
            forall|i: RequestId| s.spec_open_inbound(p, i) == s.spec_open_inbound(q, i),
            s.spec_connected(p) == s.spec_connected(q),
            s.spec_awaiting_dial(p) == s.spec_awaiting_dial(q),
            s.spec_in_flight(p) == s.spec_in_flight(q),
    {
        assert forall|i: RequestId|
            s.spec_pending_outbound(p, i) == s.spec_pending_outbound(q, i) by {
            if s.spec_pending_outbound(p, i) {
                let k = choose|k: int|
                    0 <= k < s.outbound@.len() && s.outbound@[k].id == i && same_peer(
                        s.outbound@[k].peer,
                        p,
                    );
                assert(same_peer(s.outbound@[k].peer, q));
            }
            if s.spec_pending_outbound(q, i) {
                let k = choose|k: int|
                    0 <= k < s.outbound@.len() && s.outbound@[k].id == i && same_peer(
                        s.outbound@[k].peer,
                        q,
                    );
                assert(same_peer(s.outbound@[k].peer, p));
            }
        }
        assert forall|i: RequestId| s.spec_open_inbound(p, i) == s.spec_open_inbound(q, i) by {
            if s.spec_open_inbound(p, i) {
                let k = choose|k: int|
                    0 <= k < s.inbound@.len() && s.inbound@[k].id == i && same_peer(
                        s.inbound@[k].peer,
                        p,
                    );
                assert(same_peer(s.inbound@[k].peer, q));
            }
            if s.spec_open_inbound(q, i) {
                let k = choose|k: int|
                    0 <= k < s.inbound@.len() && s.inbound@[k].id == i && same_peer(
                        s.inbound@[k].peer,
                        q,
                    );
                assert(same_peer(s.inbound@[k].peer, p));
            }
        }
        assert(s.spec_connected(p) == s.spec_connected(q)) by {
            if s.spec_connected(p) {
                let k = choose|k: int|
                    0 <= k < s.connected@.len() && same_peer(s.connected@[k], p);
                assert(same_peer(s.connected@[k], q));
            }
            if s.spec_connected(q) {
                let k = choose|k: int|
                    0 <= k < s.connected@.len() && same_peer(s.connected@[k], q);
                assert(same_peer(s.connected@[k], p));
            }
        }
        assert(s.spec_awaiting_dial(p) == s.spec_awaiting_dial(q) && s.spec_in_flight(p)
            == s.spec_in_flight(q)) by {
            if s.spec_awaiting_dial(p) {
                let k = choose|k: int|
                    0 <= k < s.outbound@.len() && same_peer(s.outbound@[k].peer, p) && !(
                    s.outbound@[k].dispatched);
                assert(same_peer(s.outbound@[k].peer, q));
            }
            if s.spec_awaiting_dial(q) {
                let k = choose|k: int|
                    0 <= k < s.outbound@.len() && same_peer(s.outbound@[k].peer, q) && !(
                    s.outbound@[k].dispatched);
                assert(same_peer(s.outbound@[k].peer, p));
            }
            if s.spec_in_flight(p) {
                let k = choose|k: int|
                    0 <= k < s.outbound@.len() && same_peer(s.outbound@[k].peer, p)
                        && s.outbound@[k].dispatched;
                assert(same_peer(s.outbound@[k].peer, q));
            }
            if s.spec_in_flight(q) {
                let k = choose|k: int|
                    0 <= k < s.outbound@.len() && same_peer(s.outbound@[k].peer, q)
                        && s.outbound@[k].dispatched;
                assert(same_peer(s.outbound@[k].peer, p));
            }
        }
    }

    /// Law: an id at or beyond the counter was never minted, so it is
    /// tracked nowhere. With the contracts of `send_request`,
    /// `on_response_received`, `on_outbound_failure`, `take_dial_failure`
    /// and `take_closed_outbound`, every outbound request id sees exactly
    /// one terminal event: a fresh id is pending and was never terminal
    /// before, a terminal event comes exactly when the id is pending, and
    /// the event removes the id for good.
    pub proof fn lemma_fresh_id_untracked(s: &RequestResponse, id: RequestId)
        requires
            s.wf(),
            id >= s.spec_next_request_id(),
        ensures
            !s.spec_pending_outbound_id(id),
            !s.spec_open_inbound_id(id),
    {
        if s.spec_pending_outbound_id(id) {
            let k = choose|k: int| 0 <= k < s.outbound@.len() && s.outbound@[k].id == id;
            assert(false);
        }
        if s.spec_open_inbound_id(id) {
            let k = choose|k: int| 0 <= k < s.inbound@.len() && s.inbound@[k].id == id;
            assert(false);
        }
    }

    /// Reports whether outbound request `id` to `peer` still awaits its
    /// terminal event.
    pub fn is_pending_outbound(&self, peer: &PeerId, id: RequestId) -> (r: bool)
        ensures
            r == self.spec_pending_outbound(*peer, id),
    {
        let n = self.outbound.len();
        let mut k: usize = 0;
        while k < n
            invariant
                n == self.outbound@.len(),
                k <= n,
                forall|j: int| 0 <= j < k ==> !(self.outbound@[j].id == id && same_peer(
                    self.outbound@[j].peer,
                    *peer,
                )),
            decreases n - k,
        {
            if self.outbound[k].id == id && self.outbound[k].peer.eq_peer(peer) {
                return true;
            }
            k = k + 1;
        }
        false
    }
}

} // verus!
