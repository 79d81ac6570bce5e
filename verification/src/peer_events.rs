//! Requests and responses as they come from the transport.

use crate::address::{peer_of_key, PeerId};
use crate::ids::Id32;
use crate::loop_state::{
    Action, ActionModel, LoopModel, P2pEventLoop, PendingRequest, PendingResponse, RequestOutcome,
};
use crate::policy::{path_preference_rank, path_rank, P2pPath};
use vstd::prelude::*;

verus! {

/// The version of the messages between peers.
pub const PEER_WIRE_FORMAT_VERSION: u16 = 1;

/// What a response says of itself.
#[derive(Clone, Copy, Debug)]
pub struct ResponseContext {
    /// The signature over the response is that of its signer.
    pub signature_valid: bool,
    pub signer: Id32,
    pub format_version: u16,
    pub request_id: u128,
    pub recipient: Id32,
    pub request_hash: Id32,
    /// The peer did what it was asked.
    pub succeeded: bool,
}

/// The response is signed by the node that was asked, at the peer that was
/// asked, and names the request and who made it.
pub open spec fn response_valid(response: ResponseContext, request: PendingRequest) -> bool {
    &&& response.signature_valid
    &&& response.signer == request.recipient
    &&& peer_of_key(response.signer@) == Some(request.peer)
    &&& response.format_version == PEER_WIRE_FORMAT_VERSION
    &&& response.request_id == request.request_id
    &&& response.recipient == request.response_recipient
    &&& response.request_hash == request.request_hash
}

/// Whether a response belongs to a request.
pub fn validate_outbound_response(response: &ResponseContext, request: &PendingRequest) -> (valid:
    bool)
    ensures
        valid == response_valid(*response, *request),
{
    if !response.signature_valid {
        return false;
    }
    let signer_is_peer = match PeerId::from_key(&response.signer.0) {
        Some(peer) => peer.equals(&request.peer),
        None => false,
    };
    response.signer.equals(&request.recipient) && signer_is_peer && response.format_version
        == PEER_WIRE_FORMAT_VERSION && response.request_id == request.request_id
        && response.recipient.equals(&request.response_recipient)
        && response.request_hash.equals(&request.request_hash)
}

/// What is done with a request of a peer.
#[derive(Clone, Copy, Debug, PartialEq, Eq, Structural)]
pub enum InboundDecision {
    /// Its signer is not the peer: no answer.
    Ignored,
    /// There is no capacity: the peer is told so.
    Refused { path: Option<P2pPath> },
    Accepted { path: Option<P2pPath> },
}

/// What the transport reports of requests and responses. Sizes are those of
/// messages on the wire, where they are known.
#[derive(Clone, Copy, Debug)]
pub enum PeerEvent {
    /// A peer asks for something. `capacity` says that it can be worked on now.
    Request {
        request: u64,
        peer: PeerId,
        connection: u64,
        bytes: Option<u64>,
        signer: Id32,
        capacity: bool,
    },
    Response {
        request: u64,
        peer: PeerId,
        connection: u64,
        bytes: Option<u64>,
        response: ResponseContext,
    },
    OutboundFailure { request: u64, peer: PeerId, connection: u64 },
    InboundFailure { request: u64 },
    ResponseSent { request: u64, peer: PeerId },
}

impl LoopModel {
    /// A message came over a connection.
    pub open spec fn heard(self, peer: PeerId, connection: u64) -> LoopModel {
        match self.links.application_path(connection) {
            Some(path) => LoopModel { last_paths: self.last_paths.insert(peer, path), ..self },
            None => self,
        }
    }

    /// The peer's request is counted.
    pub open spec fn inbound_counted(
        self,
        peer: PeerId,
        connection: u64,
        bytes: Option<u64>,
    ) -> LoopModel {
        let heard = self.heard(peer, connection);
        match bytes {
            Some(bytes) => heard.transferred(
                peer,
                self.links.application_path(connection),
                0,
                bytes,
            ),
            None => heard,
        }
    }

    /// A response is with the transport.
    pub open spec fn responding(
        self,
        request: u64,
        peer: PeerId,
        path: Option<P2pPath>,
        bytes: u64,
    ) -> LoopModel {
        LoopModel {
            responses: self.responses.insert(request, (PendingResponse { peer, path, bytes })),
            ..self
        }
    }

    pub open spec fn without_inbound(self, request: u64) -> LoopModel {
        LoopModel { inbound: self.inbound.remove(request), ..self }
    }

    /// A response is sent: it is counted for the peer that it was meant for.
    pub open spec fn response_sent(self, request: u64, peer: PeerId) -> LoopModel {
        let done = LoopModel {
            inbound: self.inbound.remove(request),
            responses: self.responses.remove(request),
            ..self
        };
        if self.responses.contains_key(request) && self.responses[request].peer == peer {
            done.transferred(peer, self.responses[request].path, self.responses[request].bytes, 0)
        } else {
            done
        }
    }

    /// What the caller of a request is told of a response.
    pub open spec fn verdict(
        self,
        request: PendingRequest,
        peer: PeerId,
        response: ResponseContext,
    ) -> RequestOutcome {
        if request.peer != peer {
            RequestOutcome::WrongPeer
        } else if response_valid(response, request) {
            RequestOutcome::Answered
        } else {
            RequestOutcome::Mismatched
        }
    }

    /// A response to a request that is with the transport is dealt with.
    #[verifier::opaque]
    pub open spec fn request_answered(
        self,
        request: PendingRequest,
        peer: PeerId,
        connection: u64,
        path: Option<P2pPath>,
        bytes: u64,
        response: ResponseContext,
        now: u64,
    ) -> LoopModel {
        let outcome = self.verdict(request, peer, response);
        let counted = if request.peer == peer {
            self.transferred(peer, path, request.request_bytes, bytes)
        } else {
            self
        };
        let logged = LoopModel {
            log: counted.log.request_ended(
                path,
                request.started_at,
                now,
                outcome == RequestOutcome::Answered && response.succeeded,
            ),
            ..counted
        };
        let seen = if path is Some && path_rank(self.mode(), path->0) != request.transport_tier {
            logged.observed(peer, connection, now)
        } else {
            logged
        };
        seen.finished(request, outcome).selection_forgotten(request.peer)
    }

    /// A response came over a connection.
    pub open spec fn response_heard(
        self,
        request: u64,
        peer: PeerId,
        connection: u64,
        bytes: Option<u64>,
        response: ResponseContext,
        now: u64,
    ) -> LoopModel {
        let heard = self.heard(peer, connection);
        if !self.pending.contains_key(request) {
            heard
        } else {
            LoopModel { pending: heard.pending.remove(request), ..heard }.request_answered(
                self.pending[request],
                peer,
                connection,
                self.links.application_path(connection),
                match bytes {
                    Some(bytes) => bytes,
                    None => 0,
                },
                response,
                now,
            )
        }
    }

    /// A connection over which a request failed is closed, if the transport
    /// still holds it.
    pub open spec fn distrusted(self, connection: u64, peer: PeerId) -> LoopModel {
        if !self.links.paths.contains_key(connection) || self.links.paths[connection].peer
            != peer {
            self
        } else if self.open.contains(connection) {
            LoopModel { links: self.links.unhealthy_with(connection), ..self }.acting(
                ActionModel::Close { connection },
            )
        } else {
            LoopModel { links: self.links.unhealthy_without(connection), ..self }
        }
    }

    /// A request failed at the tier at which it was meant to go: it is tried
    /// again where another connection or another tier is left, else its caller
    /// is told.
    #[verifier::opaque]
    pub open spec fn retried(
        self,
        request: PendingRequest,
        peer: PeerId,
        duplicate: bool,
        now: u64,
    ) -> LoopModel {
        let attempted = request.transport_tier;
        let advanced = !duplicate && self.tier(peer) <= attempted && self.next_tier(peer) is Some;
        let moved = if advanced {
            self.fallen_back(peer, now)
        } else {
            self
        };
        if duplicate || advanced || moved.tier(peer) != attempted {
            moved.queued_or_dispatched(request, now)
        } else {
            moved.finished(request, RequestOutcome::Failed)
        }
    }

    /// A request that was with the transport failed there.
    pub open spec fn request_failed(
        self,
        request: PendingRequest,
        peer: PeerId,
        connection: u64,
        now: u64,
    ) -> LoopModel {
        let path = self.links.failure_path(peer, connection);
        let logged = LoopModel {
            log: self.log.request_ended(
                if path is Some {
                    path
                } else {
                    self.path_hint(peer)
                },
                request.started_at,
                now,
                false,
            ),
            ..self
        };
        let wrong_tier = path is Some && path_rank(self.mode(), path->0)
            != request.transport_tier;
        let duplicate = self.links.healthy_at(peer, request.transport_tier, Some(connection));
        let cut = logged.distrusted(connection, peer);
        (if !request.waiting {
            cut
        } else if wrong_tier {
            cut.ensured(peer).queued_or_dispatched(request, now)
        } else {
            cut.retried(request, peer, duplicate, now)
        }).selection_forgotten(request.peer)
    }

    /// The transport failed to get a request through.
    pub open spec fn outbound_failed(
        self,
        request: u64,
        peer: PeerId,
        connection: u64,
        now: u64,
    ) -> LoopModel {
        if !self.pending.contains_key(request) {
            self
        } else {
            LoopModel { pending: self.pending.remove(request), ..self }.request_failed(
                self.pending[request],
                peer,
                connection,
                now,
            )
        }
    }
}

impl LoopModel {
    /// The state with a request of a peer, and what is done with it: one whose
    /// signer is not the peer is ignored, and one for which there is no
    /// capacity is refused.
    pub open spec fn request_heard(
        self,
        request: u64,
        peer: PeerId,
        connection: u64,
        bytes: Option<u64>,
        signer: Id32,
        capacity: bool,
    ) -> (LoopModel, InboundDecision) {
        let counted = self.inbound_counted(peer, connection, bytes);
        let path = self.links.application_path(connection);
        if peer_of_key(signer@) != Some(peer) {
            (counted, InboundDecision::Ignored)
        } else if !capacity {
            (counted, InboundDecision::Refused { path })
        } else {
            (
                LoopModel { inbound: counted.inbound.insert(request, peer), ..counted },
                InboundDecision::Accepted { path },
            )
        }
    }

    /// The state without a request of a peer that came to nothing.
    pub open spec fn inbound_failed(self, request: u64) -> LoopModel {
        LoopModel {
            inbound: self.inbound.remove(request),
            responses: self.responses.remove(request),
            ..self
        }
    }

    /// The state after an event of requests and responses, and what is done
    /// with a request of a peer.
    pub open spec fn after_peer_event(self, event: PeerEvent, now: u64) -> (
        LoopModel,
        Option<InboundDecision>,
    ) {
        match event {
            PeerEvent::Request { request, peer, connection, bytes, signer, capacity } => {
                let (state, decision) = self.request_heard(
                    request,
                    peer,
                    connection,
                    bytes,
                    signer,
                    capacity,
                );
                (state, Some(decision))
            },
            PeerEvent::Response { request, peer, connection, bytes, response } => (
                self.response_heard(request, peer, connection, bytes, response, now),
                None,
            ),
            PeerEvent::OutboundFailure { request, peer, connection } => (
                self.outbound_failed(request, peer, connection, now),
                None,
            ),
            PeerEvent::InboundFailure { request } => (self.inbound_failed(request), None),
            PeerEvent::ResponseSent { request, peer } => (self.response_sent(request, peer), None),
        }
    }
}

impl P2pEventLoop {
    /// Takes what the transport reports of requests and responses, and says
    /// what is done with a request of a peer.
    pub fn handle_peer_event(&mut self, event: PeerEvent, now: u64) -> (decision: Option<
        InboundDecision,
    >)
        requires
            old(self).wf(),
        ensures
            final(self).wf(),
            (final(self)@, decision) == old(self)@.after_peer_event(event, now),
    {
        match event {
            PeerEvent::Request { request, peer, connection, bytes, signer, capacity } => {
                Some(self.request_received(request, peer, connection, bytes, signer, capacity))
            },
            PeerEvent::Response { request, peer, connection, bytes, response } => {
                self.response_received(request, peer, connection, bytes, &response, now);
                None
            },
            PeerEvent::OutboundFailure { request, peer, connection } => {
                self.outbound_failed(request, peer, connection, now);
                None
            },
            PeerEvent::InboundFailure { request } => {
                self.inbound_failed(request);
                None
            },
            PeerEvent::ResponseSent { request, peer } => {
                self.response_sent(request, peer);
                None
            },
        }
    }

    fn hear(&mut self, peer: PeerId, connection: u64) -> (path: Option<P2pPath>)
        requires
            old(self).wf(),
        ensures
            final(self).wf(),
            final(self)@ == old(self)@.heard(peer, connection),
            path == old(self)@.links.application_path(connection),
    {
        let path = self.links.application_path(connection);
        if let Some(path) = path {
            self.last_paths.insert(peer, path);
        }
        path
    }

    /// Takes a request of a peer: counts it and decides what is done with it.
    /// `capacity` says that it can be worked on now.
    pub fn request_received(
        &mut self,
        request: u64,
        peer: PeerId,
        connection: u64,
        bytes: Option<u64>,
        signer: Id32,
        capacity: bool,
    ) -> (decision: InboundDecision)
        requires
            old(self).wf(),
        ensures
            final(self).wf(),
            (final(self)@, decision) == old(self)@.request_heard(
                request,
                peer,
                connection,
                bytes,
                signer,
                capacity,
            ),
    {
        let path = self.hear(peer, connection);
        if let Some(bytes) = bytes {
            self.record_transfer(peer, path, 0, bytes);
        }
        let signed = match PeerId::from_key(&signer.0) {
            Some(other) => other.equals(&peer),
            None => false,
        };
        if !signed {
            return InboundDecision::Ignored;
        }
        if !capacity {
            return InboundDecision::Refused { path };
        }
        self.inbound.insert(request, peer);
        InboundDecision::Accepted { path }
    }

    /// Notes that the refusal of a request is with the transport.
    pub fn refusal_queued(
        &mut self,
        request: u64,
        peer: PeerId,
        path: Option<P2pPath>,
        bytes: u64,
    )
        requires
            old(self).wf(),
        ensures
            final(self).wf(),
            final(self)@ == ({
                let before = old(self)@;
                LoopModel { inbound: before.inbound.insert(request, peer), ..before }.responding(
                    request,
                    peer,
                    path,
                    bytes,
                )
            }),
    {
        self.inbound.insert(request, peer);
        self.responses.insert(request, PendingResponse { peer, path, bytes });
    }

    /// Notes that the response to a request is with the transport, or that
    /// the transport did not take it, or that there is none.
    pub fn response_queued(
        &mut self,
        request: u64,
        peer: PeerId,
        path: Option<P2pPath>,
        taken: bool,
        bytes: Option<u64>,
    )
        requires
            old(self).wf(),
        ensures
            final(self).wf(),
            final(self)@ == (if !taken {
                old(self)@.without_inbound(request)
            } else {
                match bytes {
                    Some(bytes) => old(self)@.responding(request, peer, path, bytes),
                    None => old(self)@,
                }
            }),
    {
        if !taken {
            let _ = self.inbound.remove(request);
        } else if let Some(bytes) = bytes {
            self.responses.insert(request, PendingResponse { peer, path, bytes });
        }
    }

    /// Notes that a request of a peer came to nothing.
    pub fn inbound_failed(&mut self, request: u64)
        requires
            old(self).wf(),
        ensures
            final(self).wf(),
            final(self)@ == old(self)@.inbound_failed(request),
    {
        let _ = self.inbound.remove(request);
        let _ = self.responses.remove(request);
    }

    /// Notes that a response is sent.
    pub fn response_sent(&mut self, request: u64, peer: PeerId)
        requires
            old(self).wf(),
        ensures
            final(self).wf(),
            final(self)@ == old(self)@.response_sent(request, peer),
    {
        let _ = self.inbound.remove(request);
        if let Some(response) = self.responses.remove(request) {
            if response.peer.equals(&peer) {
                self.record_transfer(peer, response.path, response.bytes, 0);
            }
        }
    }

    fn answer_request(
        &mut self,
        request: PendingRequest,
        peer: PeerId,
        connection: u64,
        path: Option<P2pPath>,
        bytes: u64,
        response: &ResponseContext,
        now: u64,
    )
        requires
            old(self).wf(),
        ensures
            final(self).wf(),
            final(self)@ == old(self)@.request_answered(
                request,
                peer,
                connection,
                path,
                bytes,
                *response,
                now,
            ),
    {
        proof {
            reveal(LoopModel::request_answered);
        }
        let same = request.peer.equals(&peer);
        if same {
            self.record_transfer(peer, path, request.request_bytes, bytes);
        }
        let outcome = if !same {
            RequestOutcome::WrongPeer
        } else if validate_outbound_response(response, &request) {
            RequestOutcome::Answered
        } else {
            RequestOutcome::Mismatched
        };
        let succeeded = outcome == RequestOutcome::Answered && response.succeeded;
        self.log.record_request_result(path, request.started_at, now, succeeded);
        if let Some(path) = path {
            if path_preference_rank(self.book.mode, path) != request.transport_tier {
                self.observe_established_transport(peer, connection, now);
            }
        }
        self.finish(request, outcome);
        self.forget_transport_selection_if_unretained(request.peer);
    }

    /// Takes a response of a peer.
    pub fn response_received(
        &mut self,
        request: u64,
        peer: PeerId,
        connection: u64,
        bytes: Option<u64>,
        response: &ResponseContext,
        now: u64,
    )
        requires
            old(self).wf(),
        ensures
            final(self).wf(),
            final(self)@ == old(self)@.response_heard(
                request,
                peer,
                connection,
                bytes,
                *response,
                now,
            ),
    {
        let path = self.hear(peer, connection);
        if let Some(pending) = self.pending.remove(request) {
            let counted: u64 = match bytes {
                Some(bytes) => bytes,
                None => 0,
            };
            self.answer_request(pending, peer, connection, path, counted, response, now);
        }
    }

    fn distrust(&mut self, connection: u64, peer: PeerId)
        requires
            old(self).wf(),
        ensures
            final(self).wf(),
            final(self)@ == old(self)@.distrusted(connection, peer),
    {
        let ours = match self.links.paths.get(connection) {
            Some(link) => link.peer.equals(&peer),
            None => false,
        };
        if ours {
            if self.open.contains(connection) {
                self.links.unhealthy.insert(connection);
                self.act(Action::Close { connection });
            } else {
                let _ = self.links.unhealthy.remove(connection);
            }
        }
    }

    fn retry_request(&mut self, request: PendingRequest, peer: PeerId, duplicate: bool, now: u64)
        requires
            old(self).wf(),
        ensures
            final(self).wf(),
            final(self)@ == old(self)@.retried(request, peer, duplicate, now),
    {
        proof {
            reveal(LoopModel::retried);
        }
        let attempted: u8 = request.transport_tier;
        let mut advanced = false;
        if !duplicate && self.selected_transport_tier(peer) <= attempted {
            advanced = self.activate_fallback(peer, now);
        }
        let selected: u8 = self.selected_transport_tier(peer);
        if duplicate || advanced || selected != attempted {
            self.queue_or_dispatch_request(request, now);
        } else {
            self.finish(request, RequestOutcome::Failed);
        }
    }

    fn fail_request(&mut self, request: PendingRequest, peer: PeerId, connection: u64, now: u64)
        requires
            old(self).wf(),
        ensures
            final(self).wf(),
            final(self)@ == old(self)@.request_failed(request, peer, connection, now),
    {
        let path = self.links.request_failure_path(peer, connection);
        let counted = match path {
            Some(path) => Some(path),
            None => self.selected_path_hint(peer),
        };
        self.log.record_request_result(counted, request.started_at, now, false);
        let wrong_tier = match path {
            Some(path) => path_preference_rank(self.book.mode, path) != request.transport_tier,
            None => false,
        };
        let duplicate = self.links.healthy_connection_at_tier(
            peer,
            request.transport_tier,
            Some(connection),
        );
        self.distrust(connection, peer);
        if request.waiting {
            if wrong_tier {
                self.ensure_selected_transport(peer);
                self.queue_or_dispatch_request(request, now);
            } else {
                self.retry_request(request, peer, duplicate, now);
            }
        }
        self.forget_transport_selection_if_unretained(request.peer);
    }

    /// Notes that the transport failed to get a request through.
    pub fn outbound_failed(&mut self, request: u64, peer: PeerId, connection: u64, now: u64)
        requires
            old(self).wf(),
        ensures
            final(self).wf(),
            final(self)@ == old(self)@.outbound_failed(request, peer, connection, now),
    {
        if let Some(pending) = self.pending.remove(request) {
            self.fail_request(pending, peer, connection, now);
        }
    }
}

} // verus!
