//! Credit-based throttling around the request/response engine.
//!
//! Each side advertises a receive budget; a peer may have at most that many
//! requests in flight towards us. Our own sending stops while the peer's
//! grant is used up and resumes when fresh credit arrives. Budgets are
//! naturals: they are decremented only when positive, and a granted budget
//! never exceeds the last override.

use vstd::prelude::*;
use crate::peer_id::{PeerId, same_peer};
use crate::request_response::{
    RequestResponse, RequestResponseEvent, RequestResponseMessage, RequestId, ResponseChannel,
};

verus! {

/// An event of the throttled behaviour.
#[derive(Debug)]
pub enum ThrottledEvent {
    /// An event of the wrapped behaviour.
    Event(RequestResponseEvent),
    /// The peer granted fresh credit: blocked sending may resume.
    ResumeSending(PeerId),
    /// The peer sent more requests than it was granted.
    TooManyInboundRequests(PeerId),
}

/// The credit ledger of one peer.
struct CreditRecord {
    peer: PeerId,
    /// Requests we may still send: what remains of the peer's last grant.
    send_budget: u16,
    /// Requests the peer may still send: what remains of our last grant.
    recv_budget: u16,
    /// Our last grant to the peer; `recv_budget` never exceeds it.
    limit: u16,
}

/// The throttled behaviour: the engine plus a credit ledger per peer.
pub struct Throttled {
    inner: RequestResponse,
    default_limit: u16,
    credits: Vec<CreditRecord>,
}

impl Throttled {
    /// The wrapped engine state.
    pub closed spec fn spec_inner(&self) -> RequestResponse {
        self.inner
    }

    /// The budget granted to peers this side has not seen yet.
    pub closed spec fn spec_default_limit(&self) -> u16 {
        self.default_limit
    }

    /// Whether a ledger record for `peer` exists.
    pub closed spec fn spec_known(&self, peer: PeerId) -> bool {
        exists|k: int| 0 <= k < self.credits@.len() && same_peer(self.credits@[k].peer, peer)
    }

    /// The index of `peer`'s ledger record.
    spec fn spec_credit_index(&self, peer: PeerId) -> int {
        choose|k: int| 0 <= k < self.credits@.len() && same_peer(self.credits@[k].peer, peer)
    }

    /// What remains of `peer`'s last grant to us; one request may be sent
    /// before the first grant arrives.
    pub closed spec fn spec_send_budget(&self, peer: PeerId) -> u16 {
        if self.spec_known(peer) {
            self.credits@[self.spec_credit_index(peer)].send_budget
        } else {
            1
        }
    }

    /// What remains of our last grant to `peer`.
    pub closed spec fn spec_recv_budget(&self, peer: PeerId) -> u16 {
        if self.spec_known(peer) {
            self.credits@[self.spec_credit_index(peer)].recv_budget
        } else {
            self.default_limit
        }
    }

    /// Our last grant to `peer`.
    pub closed spec fn spec_limit(&self, peer: PeerId) -> u16 {
        if self.spec_known(peer) {
            self.credits@[self.spec_credit_index(peer)].limit
        } else {
            self.default_limit
        }
    }

    /// The ledger is sound: the engine is well formed, each peer has at
    /// most one record, grants are positive, and no receive budget exceeds
    /// its peer's last grant.
    pub closed spec fn wf(&self) -> bool {
        &&& self.inner.wf()
        &&& self.default_limit >= 1
        &&& forall|k1: int, k2: int|
            0 <= k1 < k2 < self.credits@.len() ==> !same_peer(
                (#[trigger] self.credits@[k1]).peer,
                (#[trigger] self.credits@[k2]).peer,
            )
        &&& forall|k: int|
            0 <= k < self.credits@.len() ==> (#[trigger] self.credits@[k]).recv_budget
                <= self.credits@[k].limit
        &&& forall|k: int| 0 <= k < self.credits@.len() ==> (#[trigger] self.credits@[k]).limit >= 1
    }

    /// In a sound ledger, a record matching `peer` at `k` is the record the
    /// budget functions read.
    proof fn lemma_credit_at(&self, peer: PeerId, k: int)
        requires
            self.wf(),
            0 <= k < self.credits@.len(),
            same_peer(self.credits@[k].peer, peer),
        ensures
            self.spec_known(peer),
            self.spec_credit_index(peer) == k,
    {
        assert(self.spec_known(peer));
        let j = self.spec_credit_index(peer);
        assert(0 <= j < self.credits@.len() && same_peer(self.credits@[j].peer, peer));
        if j != k {
            if j < k {
                assert(same_peer(self.credits@[j].peer, self.credits@[k].peer));
            } else {
                assert(same_peer(self.credits@[k].peer, self.credits@[j].peer));
            }
        }
    }

    /// Two states with the same ledger agree on who is known and on every
    /// known peer's budgets, whatever default they grant to unknown peers.
    proof fn lemma_same_records(a: Throttled, b: Throttled)
        requires
            a.credits@ == b.credits@,
        ensures
            forall|p: PeerId| a.spec_known(p) == b.spec_known(p),
            forall|p: PeerId| a.spec_known(p) ==> a.spec_send_budget(p) == b.spec_send_budget(p)
                && a.spec_recv_budget(p) == b.spec_recv_budget(p) && a.spec_limit(p)
                == b.spec_limit(p),
    {
        assert forall|p: PeerId| a.spec_known(p) == b.spec_known(p) by {
            if a.spec_known(p) {
                let k = choose|k: int|
                    0 <= k < a.credits@.len() && same_peer(a.credits@[k].peer, p);
                assert(0 <= k < b.credits@.len() && same_peer(b.credits@[k].peer, p));
            }
            if b.spec_known(p) {
                let k = choose|k: int|
                    0 <= k < b.credits@.len() && same_peer(b.credits@[k].peer, p);
                assert(0 <= k < a.credits@.len() && same_peer(a.credits@[k].peer, p));
            }
        }
        assert forall|p: PeerId|
            a.spec_known(p) implies a.spec_send_budget(p) == b.spec_send_budget(p)
                && a.spec_recv_budget(p) == b.spec_recv_budget(p) && a.spec_limit(p)
                == b.spec_limit(p) by {
            let j = a.spec_credit_index(p);
            let j2 = b.spec_credit_index(p);
            assert(0 <= j < a.credits@.len() && same_peer(a.credits@[j].peer, p));
            assert(0 <= j2 < b.credits@.len() && same_peer(b.credits@[j2].peer, p));
        }
    }

    /// Two states with the same ledger agree on every budget question.
    proof fn lemma_same_credits(a: Throttled, b: Throttled)
        requires
            a.credits@ == b.credits@,
            a.default_limit == b.default_limit,
        ensures
            forall|p: PeerId| a.spec_known(p) == b.spec_known(p),
            forall|p: PeerId| a.spec_send_budget(p) == b.spec_send_budget(p),
            forall|p: PeerId| a.spec_recv_budget(p) == b.spec_recv_budget(p),
            forall|p: PeerId| a.spec_limit(p) == b.spec_limit(p),
    {
        assert forall|p: PeerId| a.spec_known(p) == b.spec_known(p) by {
            if a.spec_known(p) {
                let k = choose|k: int|
                    0 <= k < a.credits@.len() && same_peer(a.credits@[k].peer, p);
                assert(0 <= k < b.credits@.len() && same_peer(b.credits@[k].peer, p));
            }
            if b.spec_known(p) {
                let k = choose|k: int|
                    0 <= k < b.credits@.len() && same_peer(b.credits@[k].peer, p);
                assert(0 <= k < a.credits@.len() && same_peer(a.credits@[k].peer, p));
            }
        }
        assert forall|p: PeerId|
            a.spec_send_budget(p) == b.spec_send_budget(p) && a.spec_recv_budget(p)
                == b.spec_recv_budget(p) && a.spec_limit(p) == b.spec_limit(p) by {
            if a.spec_known(p) {
                let j = a.spec_credit_index(p);
                let j2 = b.spec_credit_index(p);
                assert(0 <= j < a.credits@.len() && same_peer(a.credits@[j].peer, p));
                assert(0 <= j2 < b.credits@.len() && same_peer(b.credits@[j2].peer, p));
            }
        }
    }

    /// Updating the record at `k` changes no other peer's budgets.
    proof fn lemma_credit_updated(a: Throttled, b: Throttled, k: int)
        requires
            a.wf(),
            0 <= k < a.credits@.len(),
            b.credits@.len() == a.credits@.len(),
            b.default_limit == a.default_limit,
            same_peer(b.credits@[k].peer, a.credits@[k].peer),
            forall|j: int| 0 <= j < a.credits@.len() && j != k ==> b.credits@[j] == a.credits@[j],
        ensures
            forall|p: PeerId| !same_peer(p, a.credits@[k].peer) ==> a.spec_known(p) == b.spec_known(
                p,
            ) && a.spec_send_budget(p) == b.spec_send_budget(p) && a.spec_recv_budget(p)
                == b.spec_recv_budget(p) && a.spec_limit(p) == b.spec_limit(p),
            forall|p: PeerId| same_peer(p, a.credits@[k].peer) ==> b.spec_known(p)
                && b.spec_send_budget(p) == b.credits@[k].send_budget && b.spec_recv_budget(p)
                == b.credits@[k].recv_budget && b.spec_limit(p) == b.credits@[k].limit,
    {
        assert forall|p: PeerId|
            !same_peer(p, a.credits@[k].peer) implies a.spec_known(p) == b.spec_known(p)
            && a.spec_send_budget(p) == b.spec_send_budget(p) && a.spec_recv_budget(p)
            == b.spec_recv_budget(p) && a.spec_limit(p) == b.spec_limit(p) by {
            if a.spec_known(p) {
                let j = choose|j: int|
                    0 <= j < a.credits@.len() && same_peer(a.credits@[j].peer, p);
                assert(j != k);
                assert(0 <= j < b.credits@.len() && same_peer(b.credits@[j].peer, p));
                let j2 = b.spec_credit_index(p);
                assert(0 <= j2 < b.credits@.len() && same_peer(b.credits@[j2].peer, p));
                if j2 != j {
                    if j2 == k {
                        assert(same_peer(b.credits@[k].peer, p));
                        assert(same_peer(p, a.credits@[k].peer));
                    } else {
                        assert(b.credits@[j2] == a.credits@[j2]);
                        if j < j2 {
                            assert(!same_peer(a.credits@[j].peer, a.credits@[j2].peer));
                        } else {
                            assert(!same_peer(a.credits@[j2].peer, a.credits@[j].peer));
                        }
                    }
                }
                let ja = a.spec_credit_index(p);
                assert(0 <= ja < a.credits@.len() && same_peer(a.credits@[ja].peer, p));
                if ja != j {
                    if j < ja {
                        assert(!same_peer(a.credits@[j].peer, a.credits@[ja].peer));
                    } else {
                        assert(!same_peer(a.credits@[ja].peer, a.credits@[j].peer));
                    }
                }
            } else {
                if b.spec_known(p) {
                    let j = choose|j: int|
                        0 <= j < b.credits@.len() && same_peer(b.credits@[j].peer, p);
                    if j == k {
                        assert(same_peer(p, a.credits@[k].peer));
                    } else {
                        assert(same_peer(a.credits@[j].peer, p));
                    }
                }
            }
        }
        assert forall|p: PeerId|
            same_peer(p, a.credits@[k].peer) implies b.spec_known(p) && b.spec_send_budget(p)
            == b.credits@[k].send_budget && b.spec_recv_budget(p) == b.credits@[k].recv_budget
            && b.spec_limit(p) == b.credits@[k].limit by {
            assert(same_peer(b.credits@[k].peer, p));
            assert(b.spec_known(p));
            let j = b.spec_credit_index(p);
            assert(0 <= j < b.credits@.len() && same_peer(b.credits@[j].peer, p));
            if j != k {
                assert(b.credits@[j] == a.credits@[j]);
                assert(same_peer(a.credits@[j].peer, a.credits@[k].peer));
                if j < k {
                    assert(!same_peer(a.credits@[j].peer, a.credits@[k].peer));
                } else {
                    assert(!same_peer(a.credits@[k].peer, a.credits@[j].peer));
                }
            }
        }
    }

    /// A fresh throttled behaviour with a default grant of one request.
    pub fn new() -> (r: Throttled)
        ensures
            r.wf(),
            r.spec_default_limit() == 1,
            r.spec_inner().spec_next_request_id() == 1,
            forall|p: PeerId| !r.spec_known(p),
            forall|p: PeerId| r.spec_send_budget(p) == 1,
            forall|p: PeerId| r.spec_recv_budget(p) == 1,
            forall|p: PeerId| r.spec_limit(p) == 1,
            forall|p: PeerId, id: RequestId| !r.spec_inner().spec_pending_outbound(p, id),
            forall|p: PeerId, id: RequestId| !r.spec_inner().spec_open_inbound(p, id),
    {
        Throttled { inner: RequestResponse::new(), default_limit: 1, credits: Vec::new() }
    }

    /// Sets the receive budget granted to peers seen from now on. Peers
    /// already in the ledger keep their budgets. The grant travels as a
    /// nonzero count, so zero is left out.
    pub fn set_receive_limit(&mut self, limit: u16)
        requires
            old(self).wf(),
            limit >= 1,
        ensures
            final(self).wf(),
            final(self).spec_default_limit() == limit,
            final(self).spec_inner() == old(self).spec_inner(),
            forall|p: PeerId| final(self).spec_known(p) == old(self).spec_known(p),
            forall|p: PeerId| old(self).spec_known(p) ==> final(self).spec_send_budget(p) == old(
                self,
            ).spec_send_budget(p) && final(self).spec_recv_budget(p) == old(self).spec_recv_budget(
                p,
            ) && final(self).spec_limit(p) == old(self).spec_limit(p),
            forall|p: PeerId| !old(self).spec_known(p) ==> final(self).spec_send_budget(p) == 1
                && final(self).spec_recv_budget(p) == limit && final(self).spec_limit(p) == limit,
    {
        self.default_limit = limit;
        proof {
            Self::lemma_same_records(*old(self), *self);
        }
    }

    /// Finds the ledger index of `peer`.
    fn find_credit(&self, peer: &PeerId) -> (r: Option<usize>)
        ensures
            match r {
                Some(k) => k < self.credits@.len() && same_peer(self.credits@[k as int].peer, *peer),
                None => !self.spec_known(*peer),
            },
    {
        let n = self.credits.len();
        let mut k: usize = 0;
        while k < n
            invariant
                n == self.credits@.len(),
                k <= n,
                forall|j: int| 0 <= j < k ==> !same_peer(self.credits@[j].peer, *peer),
            decreases n - k,
        {
            if self.credits[k].peer.eq_peer(peer) {
                return Some(k);
            }
            k = k + 1;
        }
        None
    }

    /// Makes sure `peer` has a ledger record, opening one with the default
    /// grant and one send credit when none exists, and returns its index.
    fn ensure_credit(&mut self, peer: &PeerId) -> (r: usize)
        requires
            old(self).wf(),
        ensures
            final(self).wf(),
            final(self).spec_inner() == old(self).spec_inner(),
            final(self).spec_default_limit() == old(self).spec_default_limit(),
            r < final(self).credits@.len(),
            same_peer(final(self).credits@[r as int].peer, *peer),
            forall|p: PeerId| final(self).spec_send_budget(p) == old(self).spec_send_budget(p),
            forall|p: PeerId| final(self).spec_recv_budget(p) == old(self).spec_recv_budget(p),
            forall|p: PeerId| final(self).spec_limit(p) == old(self).spec_limit(p),
    {
        match self.find_credit(peer) {
            Some(k) => {
                proof {
                    Self::lemma_same_credits(*old(self), *self);
                }
                k
            },
            None => {
                let record = CreditRecord {
                    peer: peer.duplicate(),
                    send_budget: 1,
                    recv_budget: self.default_limit,
                    limit: self.default_limit,
                };
                self.credits.push(record);
                let k = self.credits.len() - 1;
                proof {
                    let ki = k as int;
                    assert(same_peer(self.credits@[ki].peer, *peer));
                    assert(self.wf()) by {
                        assert forall|k1: int, k2: int|
                            0 <= k1 < k2 < self.credits@.len() implies !same_peer(
                            (#[trigger] self.credits@[k1]).peer,
                            (#[trigger] self.credits@[k2]).peer,
                        ) by {
                            if k2 == ki {
                                if same_peer(self.credits@[k1].peer, self.credits@[ki].peer) {
                                    assert(same_peer(old(self).credits@[k1].peer, *peer));
                                    assert(old(self).spec_known(*peer));
                                }
                            }
                        }
                    }
                    assert forall|p: PeerId|
                        final(self).spec_send_budget(p) == old(self).spec_send_budget(p) && final(self).spec_recv_budget(p) == old(self).spec_recv_budget(p) && final(self).spec_limit(p) == old(self).spec_limit(p) by {
                        if old(self).spec_known(p) {
                            let j = choose|j: int|
                                0 <= j < old(self).credits@.len() && same_peer(
                                    old(self).credits@[j].peer,
                                    p,
                                );
                            old(self).lemma_credit_at(p, j);
                            self.lemma_credit_at(p, j);
                        } else {
                            if self.spec_known(p) {
                                let j = choose|j: int|
                                    0 <= j < self.credits@.len() && same_peer(
                                        self.credits@[j].peer,
                                        p,
                                    );
                                assert(j == ki) by {
                                    if j < ki {
                                        assert(same_peer(old(self).credits@[j].peer, p));
                                    }
                                }
                                assert(same_peer(*peer, p));
                                if old(self).spec_known(*peer) {
                                    assert(false);
                                }
                                self.lemma_credit_at(p, ki);
                            }
                        }
                    }
                }
                k
            },
        }
    }

    /// Raises or lowers the budget granted to `peer`: the new grant takes
    /// effect at once, and what the peer may still send never exceeds it.
    /// The grant travels as a nonzero count, so zero is left out.
    pub fn override_receive_limit(&mut self, peer: &PeerId, limit: u16)
        requires
            old(self).wf(),
            limit >= 1,
        ensures
            final(self).wf(),
            final(self).spec_inner() == old(self).spec_inner(),
            final(self).spec_default_limit() == old(self).spec_default_limit(),
            final(self).spec_limit(*peer) == limit,
            final(self).spec_recv_budget(*peer) == limit,
            forall|p: PeerId| !same_peer(p, *peer) ==> final(self).spec_send_budget(p) == old(
                self,
            ).spec_send_budget(p) && final(self).spec_recv_budget(p) == old(self).spec_recv_budget(
                p,
            ) && final(self).spec_limit(p) == old(self).spec_limit(p),
    {
        let k = self.ensure_credit(peer);
        let ghost mid = *self;
        self.credits[k].recv_budget = limit;
        self.credits[k].limit = limit;
        proof {
            let ki = k as int;
            assert(self.credits@.len() == mid.credits@.len());
            assert forall|j: int|
                0 <= j < mid.credits@.len() && j != ki implies self.credits@[j]
                == mid.credits@[j] by {}
            Self::lemma_credit_updated(mid, *self, ki);
            assert(same_peer(*peer, mid.credits@[ki].peer));
            self.lemma_credit_at(*peer, ki);
        }
    }

    /// Initiates a request to `peer` if its grant to us is not used up;
    /// spent credit comes back only with the peer's next grant. The budget
    /// is consumed only when positive: it never drops below zero.
    pub fn send_request(&mut self, peer: &PeerId, request: Vec<u8>) -> (r: Option<RequestId>)
        requires
            old(self).wf(),
            old(self).spec_inner().spec_next_request_id() < u64::MAX,
        ensures
            final(self).wf(),
            r is Some <==> old(self).spec_send_budget(*peer) > 0,
            r matches Some(id) ==> id == old(self).spec_inner().spec_next_request_id() && final(self).spec_inner().spec_pending_outbound(*peer, id) && final(self).spec_send_budget(*peer)
                == old(self).spec_send_budget(*peer) - 1,
            r matches Some(id) ==> final(self).spec_inner().spec_next_request_id() == old(
                self,
            ).spec_inner().spec_next_request_id() + 1 && !old(
                self,
            ).spec_inner().spec_pending_outbound_id(id) && (forall|p: PeerId, i: RequestId|
                i != id ==> final(self).spec_inner().spec_pending_outbound(p, i) == old(
                    self,
                ).spec_inner().spec_pending_outbound(p, i)) && (forall|p: PeerId, i: RequestId|
                final(self).spec_inner().spec_open_inbound(p, i) == old(
                    self,
                ).spec_inner().spec_open_inbound(p, i)),
            r is Some ==> final(self).spec_recv_budget(*peer) == old(self).spec_recv_budget(*peer)
                && final(self).spec_limit(*peer) == old(self).spec_limit(*peer),
            r is None ==> final(self).spec_inner() == old(self).spec_inner() && final(self).spec_send_budget(*peer) == 0,
            forall|p: PeerId| !same_peer(p, *peer) ==> final(self).spec_send_budget(p) == old(
                self,
            ).spec_send_budget(p) && final(self).spec_recv_budget(p) == old(self).spec_recv_budget(
                p,
            ) && final(self).spec_limit(p) == old(self).spec_limit(p),
    {
        let k = self.ensure_credit(peer);
        let ghost ensured = *self;
        proof {
            ensured.lemma_credit_at(*peer, k as int);
        }
        if self.credits[k].send_budget == 0 {
            proof {
                Self::lemma_same_credits(ensured, *self);
            }
            return None;
        }
        let b = self.credits[k].send_budget;
        self.credits[k].send_budget = b - 1;
        let ghost mid = *self;
        proof {
            let ki = k as int;
            Self::lemma_credit_updated(ensured, mid, ki);
            mid.lemma_credit_at(*peer, ki);
        }
        let id = self.inner.send_request(peer, request);
        proof {
            Self::lemma_same_credits(mid, *self);
        }
        Some(id)
    }

    /// The peer granted fresh credit: our send budget becomes the grant,
    /// and blocked sending may resume when the budget was used up.
    pub fn on_credit_received(&mut self, peer: &PeerId, credit: u16) -> (r: Option<ThrottledEvent>)
        requires
            old(self).wf(),
        ensures
            final(self).wf(),
            final(self).spec_inner() == old(self).spec_inner(),
            final(self).spec_send_budget(*peer) == credit,
            r is Some <==> (old(self).spec_send_budget(*peer) == 0 && credit > 0),
            r matches Some(e) ==> e matches ThrottledEvent::ResumeSending(p) && same_peer(p, *peer),
            forall|p: PeerId| !same_peer(p, *peer) ==> final(self).spec_send_budget(p) == old(
                self,
            ).spec_send_budget(p) && final(self).spec_recv_budget(p) == old(self).spec_recv_budget(
                p,
            ) && final(self).spec_limit(p) == old(self).spec_limit(p),
    {
        let k = self.ensure_credit(peer);
        let ghost ensured = *self;
        proof {
            ensured.lemma_credit_at(*peer, k as int);
        }
        let was_empty = self.credits[k].send_budget == 0;
        self.credits[k].send_budget = credit;
        proof {
            let ki = k as int;
            Self::lemma_credit_updated(ensured, *self, ki);
            self.lemma_credit_at(*peer, ki);
        }
        if was_empty && credit > 0 {
            Some(ThrottledEvent::ResumeSending(peer.duplicate()))
        } else {
            None
        }
    }

    /// An inbound request arrived. If the peer has credit left, one unit is
    /// consumed and the request flows to the engine; a peer that ignores
    /// its grant is reported instead, and nothing is consumed or tracked.
    pub fn on_request_received(&mut self, peer: &PeerId, request: Vec<u8>) -> (r: ThrottledEvent)
        requires
            old(self).wf(),
            old(self).spec_inner().spec_next_request_id() < u64::MAX,
        ensures
            final(self).wf(),
            r matches ThrottledEvent::TooManyInboundRequests(p) ==> same_peer(p, *peer) && old(
                self,
            ).spec_recv_budget(*peer) == 0 && final(self).spec_inner() == old(self).spec_inner(),
            r matches ThrottledEvent::Event(e) ==> old(self).spec_recv_budget(*peer) > 0 && final(self).spec_recv_budget(*peer) == old(self).spec_recv_budget(*peer) - 1 && (
            e matches RequestResponseEvent::Message {
                peer: p,
                message: RequestResponseMessage::Request { request_id, request: req, channel },
            } && same_peer(p, *peer) && request_id == old(
                self,
            ).spec_inner().spec_next_request_id() && req@ == request@ && channel.request_id
                == request_id && same_peer(channel.peer, *peer) && final(self).spec_inner().spec_open_inbound(*peer, request_id)),
            r matches ThrottledEvent::Event(e) ==> final(self).spec_inner().spec_next_request_id()
                == old(self).spec_inner().spec_next_request_id() + 1 && !old(
                self,
            ).spec_inner().spec_open_inbound_id(old(self).spec_inner().spec_next_request_id()) && (
            forall|p: PeerId, i: RequestId|
                i != old(self).spec_inner().spec_next_request_id() ==> final(self).spec_inner().spec_open_inbound(p, i) == old(self).spec_inner().spec_open_inbound(
                    p,
                    i,
                )) && (forall|p: PeerId, i: RequestId|
                final(self).spec_inner().spec_pending_outbound(p, i) == old(
                    self,
                ).spec_inner().spec_pending_outbound(p, i)),
            r matches ThrottledEvent::TooManyInboundRequests(p) ==> (forall|q: PeerId|
                final(self).spec_send_budget(q) == old(self).spec_send_budget(q) && final(self).spec_recv_budget(q) == old(self).spec_recv_budget(q) && final(self).spec_limit(q)
                    == old(self).spec_limit(q)),
            forall|p: PeerId| !same_peer(p, *peer) ==> final(self).spec_send_budget(p) == old(
                self,
            ).spec_send_budget(p) && final(self).spec_recv_budget(p) == old(self).spec_recv_budget(
                p,
            ) && final(self).spec_limit(p) == old(self).spec_limit(p),
            !(r is ResumeSending),
    {
        let k = self.ensure_credit(peer);
        let ghost ensured = *self;
        proof {
            ensured.lemma_credit_at(*peer, k as int);
        }
        if self.credits[k].recv_budget == 0 {
            proof {
                Self::lemma_same_credits(ensured, *self);
            }
            return ThrottledEvent::TooManyInboundRequests(peer.duplicate());
        }
        let b = self.credits[k].recv_budget;
        self.credits[k].recv_budget = b - 1;
        let ghost mid = *self;
        proof {
            let ki = k as int;
            Self::lemma_credit_updated(ensured, mid, ki);
            mid.lemma_credit_at(*peer, ki);
        }
        let event = self.inner.on_request_received(peer, request);
        proof {
            Self::lemma_same_credits(mid, *self);
        }
        ThrottledEvent::Event(event)
    }

    /// Completes an inbound request: the response goes out through the
    /// engine and one unit of credit is granted back to the peer, never
    /// exceeding its last grant.
    pub fn send_response(&mut self, channel: ResponseChannel, response: Vec<u8>) -> (r: Result<
        ThrottledEvent,
        Vec<u8>,
    >)
        requires
            old(self).wf(),
        ensures
            final(self).wf(),
            r is Ok <==> old(self).spec_inner().spec_open_inbound(channel.peer, channel.request_id),
            !final(self).spec_inner().spec_open_inbound(channel.peer, channel.request_id),
            r matches Ok(e) ==> (e matches ThrottledEvent::Event(inner_event) && (
            inner_event matches RequestResponseEvent::ResponseSent { peer: p, request_id }
                && same_peer(p, channel.peer) && request_id == channel.request_id)),
            r matches Err(v) ==> v@ == response@,
            final(self).spec_recv_budget(channel.peer) <= final(self).spec_limit(channel.peer),
            r is Ok ==> final(self).spec_recv_budget(channel.peer) == (if old(
                self,
            ).spec_recv_budget(channel.peer) < old(self).spec_limit(channel.peer) {
                (old(self).spec_recv_budget(channel.peer) + 1) as u16
            } else {
                old(self).spec_recv_budget(channel.peer)
            }) && final(self).spec_limit(channel.peer) == old(self).spec_limit(channel.peer)
                && final(self).spec_send_budget(channel.peer) == old(self).spec_send_budget(
                channel.peer,
            ),
            r is Err ==> forall|p: PeerId| final(self).spec_send_budget(p) == old(
                self,
            ).spec_send_budget(p) && final(self).spec_recv_budget(p) == old(self).spec_recv_budget(
                p,
            ) && final(self).spec_limit(p) == old(self).spec_limit(p),
            forall|p: PeerId| !same_peer(p, channel.peer) ==> final(self).spec_send_budget(p)
                == old(self).spec_send_budget(p) && final(self).spec_recv_budget(p) == old(
                self,
            ).spec_recv_budget(p) && final(self).spec_limit(p) == old(self).spec_limit(p),
            forall|p: PeerId, i: RequestId| i != channel.request_id ==> final(self).spec_inner().spec_open_inbound(p, i) == old(self).spec_inner().spec_open_inbound(
                p,
                i,
            ),
            forall|p: PeerId, i: RequestId| final(self).spec_inner().spec_pending_outbound(p, i)
                == old(self).spec_inner().spec_pending_outbound(p, i),
    {
        let ghost chpeer = channel.peer;
        let peer = channel.peer.duplicate();
        let ghost pre = *self;
        let result = self.inner.send_response(channel, response);
        proof {
            Self::lemma_same_credits(pre, *self);
        }
        match result {
            Ok(event) => {
                let k = self.ensure_credit(&peer);
                let ghost ensured = *self;
                proof {
                    ensured.lemma_credit_at(peer, k as int);
                    Self::lemma_respects_peer_identity(&pre, peer, chpeer);
                    Self::lemma_respects_peer_identity(&ensured, peer, chpeer);
                }
                let b = self.credits[k].recv_budget;
                let lim = self.credits[k].limit;
                if b < lim {
                    self.credits[k].recv_budget = b + 1;
                }
                proof {
                    let ki = k as int;
                    if self.credits@ != ensured.credits@ {
                        Self::lemma_credit_updated(ensured, *self, ki);
                        self.lemma_credit_at(peer, ki);
                    } else {
                        Self::lemma_same_credits(ensured, *self);
                        self.lemma_credit_at(peer, ki);
                    }
                    Self::lemma_respects_peer_identity(&(*self), peer, chpeer);
                }
                Ok(ThrottledEvent::Event(event))
            },
            Err(v) => {
                proof {
                    if self.spec_known(peer) {
                        let j = self.spec_credit_index(peer);
                        assert(0 <= j < self.credits@.len());
                    }
                }
                Err(v)
            },
        }
    }

    /// A response to one of our requests arrived: responses are not
    /// throttled, so the engine handles it unchanged.
    pub fn on_response_received(
        &mut self,
        peer: &PeerId,
        id: RequestId,
        response: Vec<u8>,
    ) -> (r: Option<RequestResponseEvent>)
        requires
            old(self).wf(),
        ensures
            final(self).wf(),
            r is Some <==> old(self).spec_inner().spec_pending_outbound(*peer, id),
            !final(self).spec_inner().spec_pending_outbound(*peer, id),
            r matches Some(e) ==> (e matches RequestResponseEvent::Message {
                peer: p,
                message: RequestResponseMessage::Response { request_id, response: resp },
            } && same_peer(p, *peer) && request_id == id && resp@ == response@),
            forall|p: PeerId| final(self).spec_send_budget(p) == old(self).spec_send_budget(p),
            forall|p: PeerId| final(self).spec_recv_budget(p) == old(self).spec_recv_budget(p),
            forall|p: PeerId| final(self).spec_limit(p) == old(self).spec_limit(p),
    {
        let ghost pre = *self;
        let r = self.inner.on_response_received(peer, id, response);
        proof {
            Self::lemma_same_credits(pre, *self);
        }
        r
    }

    /// Law: the ledger keys by peer identity, not by peer-id value: two
    /// peer ids carrying the same multihash have the same budgets.
    pub proof fn lemma_respects_peer_identity(t: &Throttled, p: PeerId, q: PeerId)
        requires
            t.wf(),
            same_peer(p, q),
        ensures
            t.spec_known(p) == t.spec_known(q),
            t.spec_send_budget(p) == t.spec_send_budget(q),
            t.spec_recv_budget(p) == t.spec_recv_budget(q),
            t.spec_limit(p) == t.spec_limit(q),
    {
        assert(t.spec_known(p) == t.spec_known(q)) by {
            if t.spec_known(p) {
                let k = choose|k: int|
                    0 <= k < t.credits@.len() && same_peer(t.credits@[k].peer, p);
                assert(same_peer(t.credits@[k].peer, q));
            }
            if t.spec_known(q) {
                let k = choose|k: int|
                    0 <= k < t.credits@.len() && same_peer(t.credits@[k].peer, q);
                assert(same_peer(t.credits@[k].peer, p));
            }
        }
        if t.spec_known(p) {
            let k = choose|k: int| 0 <= k < t.credits@.len() && same_peer(t.credits@[k].peer, p);
            assert(same_peer(t.credits@[k].peer, q));
            t.lemma_credit_at(p, k);
            t.lemma_credit_at(q, k);
        }
    }

    /// Law: what a peer may still send us never exceeds our last grant to
    /// it, and every budget is a natural number: `send_request` refuses
    /// rather than let a budget go below zero.
    pub proof fn lemma_budget_bounded(t: &Throttled, peer: PeerId)
        requires
            t.wf(),
        ensures
            t.spec_recv_budget(peer) <= t.spec_limit(peer),
            t.spec_send_budget(peer) >= 0,
    {
        if t.spec_known(peer) {
            let j = t.spec_credit_index(peer);
            assert(0 <= j < t.credits@.len());
        }
    }
}

} // verus!
