//! What the event loop learns of its peers' addresses, and how it forgets.

use crate::address::{
    address_text, sorted_peers, terminal_peer, terminal_peer_id, AddressSet, Component, Multiaddr,
    PeerId, PeerSet,
};
use crate::book::{
    normalize_known_address, normalized, someone_makes_room, BookModel, KnownAddressProblem,
    LearnError, RecoveryAddressError, MAX_OPPORTUNISTIC_ENDPOINT_PEERS,
};
use crate::loop_state::{Action, ActionModel, LoopModel, P2pEventLoop, PendingRequest};
use crate::endpoints::text_bytes;
use crate::ordered::sorted_list;
use crate::policy::{address_allowed, address_allowed_by_tor_mode, views};
use crate::requests::LOGICAL_REQUEST_TIMEOUT_MILLIS;
use crate::table::KeySet;
use crate::transport::sorted_vec;
use crate::ids::Id32;
use vstd::prelude::*;

verus! {

/// Why an address that a peer gave of itself is not kept.
#[derive(Clone, Copy, Debug, PartialEq, Eq, Structural)]
pub enum IdentifyError {
    Address(KnownAddressProblem),
    /// It is too long or names a peer.
    Invalid,
    Learn(LearnError),
    TooManyEndpoints,
}

impl LoopModel {
    pub open spec fn with_book(self, book: BookModel) -> LoopModel {
        LoopModel { book, ..self }
    }

    /// An address is learned on another's word.
    pub open spec fn learned(self, peer: PeerId, address: Seq<Component>, now: u64) -> LoopModel {
        if self.book.learn_problem(peer, address) is None && self.book.learnable(peer, address) {
            self.with_book(self.book.learned_with(peer, address, now)).reconciled(peer)
        } else {
            self
        }
    }

    /// Published addresses take the place of those learned before.
    pub open spec fn addresses_replaced(
        self,
        peer: PeerId,
        addresses: Seq<Seq<Component>>,
        expires_at_unix: u64,
        now_unix: u64,
        now: u64,
    ) -> LoopModel {
        if self.book.replace_problem(peer, addresses, expires_at_unix, now_unix) is Some {
            self
        } else {
            self.with_book(
                self.book.replaced(peer, addresses, expires_at_unix, now_unix, now),
            ).reconciled(peer).history_forgotten(peer)
        }
    }

    /// The addresses of an unknown peer are forgotten; those that are in use
    /// for other reasons stay known for routing.
    #[verifier::opaque]
    pub open spec fn unknown_forgotten(self, peer: PeerId) -> LoopModel {
        if !self.book.opportunistic.contains_key(peer) {
            self
        } else {
            let unused = self.book.opportunistic[peer].addresses.difference(
                self.installed_for(peer),
            );
            let forgotten = self.with_book(self.book.without_opportunistic(peer));
            if unused == Set::<Seq<Component>>::empty() {
                forgotten
            } else {
                forgotten.acting(ActionModel::RemoveRoutes { peer, addresses: unused })
            }
        }
    }

    /// An address of an unknown peer is noted for routing alone, at the cost
    /// of another unknown peer if need be.
    #[verifier::opaque]
    pub open spec fn unknown_noted(
        self,
        peer: PeerId,
        address: Seq<Component>,
        now: u64,
    ) -> LoopModel {
        let roomy = match self.book.evicted(peer) {
            Some(evicted) => self.unknown_forgotten(evicted),
            None => self,
        };
        let noted = roomy.with_book(roomy.book.noted(peer, address, now));
        if roomy.book.has_room(peer, address) {
            noted.acting(ActionModel::AddRoute { peer, address })
        } else {
            noted
        }
    }

    /// What becomes of an address that a peer gave of itself.
    pub open spec fn identified(
        self,
        peer: PeerId,
        address: Seq<Component>,
        now: u64,
    ) -> (LoopModel, Option<IdentifyError>) {
        match normalized(peer, address) {
            Err(problem) => (self, Some(IdentifyError::Address(problem))),
            Ok(base) => if !address_allowed(self.mode(), base) {
                (self, None)
            } else if text_bytes(address_text(base)).len() > self.book.limits.bytes
                || terminal_peer(base) is Some {
                (self, Some(IdentifyError::Invalid))
            } else if self.book.authorized(peer) {
                let known = self.unknown_forgotten(peer);
                (
                    known.learned(peer, base, now),
                    match known.book.learn_problem(peer, base) {
                        Some(error) => Some(IdentifyError::Learn(error)),
                        None => None,
                    },
                )
            } else if self.book.scopes_of(peer) == Set::<u128>::empty() {
                if self.book.quarantine.contains_key(peer) {
                    (self, None)
                } else {
                    (self.unknown_noted(peer, base, now), None)
                }
            } else if self.book.scopes_full(peer, base) {
                (self, Some(IdentifyError::TooManyEndpoints))
            } else {
                let known = self.unknown_forgotten(peer);
                (known.with_book(known.book.scoped_with(peer, base)).reconciled(peer), None)
            },
        }
    }

    /// Peers are reconsidered after some of their addresses went.
    pub open spec fn each_reconsidered(self, peers: Seq<PeerId>) -> LoopModel
        decreases peers.len(),
    {
        if peers.len() == 0 {
            self
        } else {
            self.each_reconsidered(peers.drop_last()).reconciled(peers.last()).history_forgotten(
                peers.last(),
            )
        }
    }

    /// A recovery attempt ends.
    #[verifier::opaque]
    pub open spec fn recovery_cleared(self, scope: u128) -> LoopModel {
        self.with_book(self.book.without_scope(scope)).each_reconsidered(
            sorted_peers(self.book.scope_peers(scope)),
        )
    }

    pub open spec fn each_recovery_cleared(self, scopes: Seq<u128>) -> LoopModel
        decreases scopes.len(),
    {
        if scopes.len() == 0 {
            self
        } else {
            self.each_recovery_cleared(scopes.drop_last()).recovery_cleared(scopes.last())
        }
    }

    /// The recovery attempts whose time is over end, and so do quarantines.
    pub open spec fn recovery_expired(self, now: u64) -> LoopModel {
        let cleared = self.each_recovery_cleared(
            sorted_list::<u128>(self.book.expired_scopes(now)),
        );
        cleared.with_book(cleared.book.quarantine_expired(now))
    }

    /// The learned addresses of a peer are forgotten.
    pub open spec fn learned_expired(self, peer: PeerId) -> LoopModel {
        if self.book.learned.contains_key(peer) {
            self.with_book(self.book.without_learned(peer)).reconciled(peer).history_forgotten(peer)
        } else {
            self
        }
    }

    pub open spec fn each_learned_expired(self, peers: Seq<PeerId>) -> LoopModel
        decreases peers.len(),
    {
        if peers.len() == 0 {
            self
        } else {
            self.each_learned_expired(peers.drop_last()).learned_expired(peers.last())
        }
    }

    pub open spec fn each_unknown_forgotten(self, peers: Seq<PeerId>) -> LoopModel
        decreases peers.len(),
    {
        if peers.len() == 0 {
            self
        } else {
            self.each_unknown_forgotten(peers.drop_last()).unknown_forgotten(peers.last())
        }
    }

    pub open spec fn each_history_forgotten(self, peers: Seq<PeerId>) -> LoopModel
        decreases peers.len(),
    {
        if peers.len() == 0 {
            self
        } else {
            self.each_history_forgotten(peers.drop_last()).history_forgotten(peers.last())
        }
    }

    pub open spec fn each_ensured(self, peers: Seq<PeerId>) -> LoopModel
        decreases peers.len(),
    {
        if peers.len() == 0 {
            self
        } else {
            self.each_ensured(peers.drop_last()).ensured(peers.last())
        }
    }
}

/// The peers at the ends of addresses.
pub open spec fn terminal_peers(addresses: Seq<Seq<Component>>) -> Set<PeerId> {
    Set::new(
        |peer: PeerId|
            exists|i: int|
                0 <= i < addresses.len() && terminal_peer(#[trigger] addresses[i]) == Some(peer),
    )
}

impl P2pEventLoop {
    /// Learns an address of a peer on another's word.
    pub fn add_learned_address(&mut self, peer: PeerId, address: Multiaddr, now: u64) -> (result:
        Result<(), LearnError>)
        requires
            old(self).wf(),
        ensures
            final(self).wf(),
            final(self)@ == old(self)@.learned(peer, address@, now),
            (match result {
                Err(error) => Some(error),
                Ok(()) => None,
            }) == old(self)@.book.learn_problem(peer, address@),
    {
        match self.book.learn(peer, address, now) {
            Err(error) => Err(error),
            Ok(changed) => {
                if changed {
                    self.reconcile_policy_addresses(peer);
                }
                Ok(())
            },
        }
    }

    /// Takes the published addresses of a peer in place of those learned
    /// before.
    pub fn replace_learned_addresses(
        &mut self,
        peer: PeerId,
        addresses: &Vec<Multiaddr>,
        expires_at_unix: u64,
        now_unix: u64,
        now: u64,
    ) -> (result: Result<(), LearnError>)
        requires
            old(self).wf(),
        ensures
            final(self).wf(),
            final(self)@ == old(self)@.addresses_replaced(
                peer,
                views(addresses@),
                expires_at_unix,
                now_unix,
                now,
            ),
            (match result {
                Err(error) => Some(error),
                Ok(()) => None,
            }) == old(self)@.book.replace_problem(
                peer,
                views(addresses@),
                expires_at_unix,
                now_unix,
            ),
    {
        match self.book.replace_learned(peer, addresses, expires_at_unix, now_unix, now) {
            Err(error) => {
                return Err(error);
            },
            Ok(()) => {},
        }
        self.reconcile_policy_addresses(peer);
        self.forget_transfer_history_if_unretained(peer);
        Ok(())
    }

    /// Forgets the addresses of an unknown peer.
    pub fn remove_opportunistic_addresses(&mut self, peer: PeerId)
        requires
            old(self).wf(),
        ensures
            final(self).wf(),
            final(self)@ == old(self)@.unknown_forgotten(peer),
    {
        proof {
            reveal(LoopModel::unknown_forgotten);
        }
        if let Some(removed) = self.book.remove_opportunistic(peer) {
            let unused = match self.installed.get(peer) {
                Some(installed) => crate::transport::without(&removed, installed),
                None => removed,
            };
            proof {
                if !old(self)@.installed.contains_key(peer) {
                    assert(unused@ =~= unused@.difference(Set::empty()));
                }
            }
            if !unused.is_empty() {
                self.act(Action::RemoveRoutes { peer, addresses: unused });
            }
        }
    }

    /// Notes an address of an unknown peer, for routing in the DHT alone.
    pub fn add_opportunistic_address(&mut self, peer: PeerId, address: Multiaddr, now: u64)
        requires
            old(self).wf(),
        ensures
            final(self).wf(),
            final(self)@ == old(self)@.unknown_noted(peer, address@, now),
    {
        proof {
            reveal(LoopModel::unknown_noted);
        }
        if let Some(evicted) = self.book.evicted_by(peer) {
            self.remove_opportunistic_addresses(evicted);
        }
        if self.book.note_opportunistic(peer, &address, now) {
            self.act(Action::AddRoute { peer, address });
        }
    }

    /// Takes an address that a peer gave of itself.
    pub fn add_identified_address(&mut self, peer: PeerId, address: Multiaddr, now: u64) -> (result:
        Result<(), IdentifyError>)
        requires
            old(self).wf(),
        ensures
            final(self).wf(),
            (
                final(self)@,
                match result {
                    Err(error) => Some(error),
                    Ok(()) => None,
                },
            ) == old(self)@.identified(peer, address@, now),
    {
        let base = match normalize_known_address(peer, address) {
            Ok(base) => base,
            Err(problem) => {
                return Err(IdentifyError::Address(problem));
            },
        };
        if !address_allowed_by_tor_mode(self.book.mode, &base) {
            return Ok(());
        }
        let text = base.text();
        let length: usize = text.as_str().as_bytes().len();
        if length > self.book.limits.bytes || terminal_peer_id(&base).is_some() {
            return Err(IdentifyError::Invalid);
        }
        if self.book.is_authorized(peer) {
            self.remove_opportunistic_addresses(peer);
            return match self.add_learned_address(peer, base, now) {
                Ok(()) => Ok(()),
                Err(error) => Err(IdentifyError::Learn(error)),
            };
        }
        if !self.book.is_scoped(peer) {
            if !self.book.quarantine.has(peer) {
                self.add_opportunistic_address(peer, base, now);
            }
            return Ok(());
        }
        if self.book.has_full_scope(peer, &base) {
            return Err(IdentifyError::TooManyEndpoints);
        }
        self.remove_opportunistic_addresses(peer);
        self.book.add_to_scopes(peer, &base);
        self.reconcile_policy_addresses(peer);
        Ok(())
    }

    /// Keeps addresses of a peer for a recovery attempt.
    pub fn add_recovery_addresses(
        &mut self,
        scope: u128,
        peer: PeerId,
        addresses: &Vec<Multiaddr>,
        expires_at_unix: u64,
        now_unix: u64,
        now: u64,
    ) -> (result: Result<(), RecoveryAddressError>)
        requires
            old(self).wf(),
        ensures
            final(self).wf(),
            ({
                let (book, problem) = old(self)@.book.scoped(
                    scope,
                    peer,
                    views(addresses@),
                    expires_at_unix,
                    now_unix,
                    now,
                );
                match result {
                    Err(error) => problem == Some(error) && final(self)@ == old(self)@.with_book(
                        book,
                    ),
                    Ok(()) => problem is None && final(self)@ == old(self)@.with_book(
                        book,
                    ).reconciled(peer),
                }
            }),
    {
        match self.book.add_recovery(scope, peer, addresses, expires_at_unix, now_unix, now) {
            Some(error) => Err(error),
            None => {
                self.reconcile_policy_addresses(peer);
                Ok(())
            },
        }
    }

    fn reconsider_each(&mut self, peers: &Vec<PeerId>)
        requires
            old(self).wf(),
        ensures
            final(self).wf(),
            final(self)@ == old(self)@.each_reconsidered(peers@),
    {
        let mut i: usize = 0;
        assert(peers@.take(0) =~= Seq::empty());
        while i < peers.len()
            invariant
                i <= peers@.len(),
                self.wf(),
                self@ == old(self)@.each_reconsidered(peers@.take(i as int)),
            decreases peers@.len() - i,
        {
            assert(peers@.take(i + 1).drop_last() =~= peers@.take(i as int));
            self.reconcile_policy_addresses(peers[i]);
            self.forget_transfer_history_if_unretained(peers[i]);
            i += 1;
        }
        assert(peers@.take(i as int) =~= peers@);
    }

    /// Ends a recovery attempt.
    pub fn clear_recovery_addresses(&mut self, scope: u128)
        requires
            old(self).wf(),
        ensures
            final(self).wf(),
            final(self)@ == old(self)@.recovery_cleared(scope),
    {
        proof {
            reveal(LoopModel::recovery_cleared);
        }
        let peers = self.book.clear_recovery(scope);
        self.reconsider_each(&peers);
    }

    /// Ends the recovery attempts and quarantines whose time is over.
    pub fn expire_recovery_addresses(&mut self, now: u64)
        requires
            old(self).wf(),
        ensures
            final(self).wf(),
            final(self)@ == old(self)@.recovery_expired(now),
    {
        let scopes = self.book.expired_scopes(now);
        let mut i: usize = 0;
        assert(scopes@.take(0) =~= Seq::empty());
        while i < scopes.len()
            invariant
                i <= scopes@.len(),
                self.wf(),
                self@ == old(self)@.each_recovery_cleared(scopes@.take(i as int)),
            decreases scopes@.len() - i,
        {
            assert(scopes@.take(i + 1).drop_last() =~= scopes@.take(i as int));
            self.clear_recovery_addresses(scopes[i]);
            i += 1;
        }
        assert(scopes@.take(i as int) =~= scopes@);
        self.book.expire_quarantine(now);
    }

    fn expire_learned_peer(&mut self, peer: PeerId)
        requires
            old(self).wf(),
        ensures
            final(self).wf(),
            final(self)@ == old(self)@.learned_expired(peer),
    {
        if self.book.remove_learned(peer) {
            self.reconcile_policy_addresses(peer);
            self.forget_transfer_history_if_unretained(peer);
        } else {
            assert(old(self)@.book.learned.remove(peer) =~= old(self)@.book.learned);
        }
    }

    /// Forgets the learned addresses whose time is over.
    pub fn expire_learned_addresses(&mut self, now: u64)
        requires
            old(self).wf(),
        ensures
            final(self).wf(),
            final(self)@ == old(self)@.each_learned_expired(
                sorted_peers(old(self)@.book.expired_learned(now)),
            ),
    {
        let peers = self.book.expired_learned(now);
        let mut i: usize = 0;
        assert(peers@.take(0) =~= Seq::empty());
        while i < peers.len()
            invariant
                i <= peers@.len(),
                self.wf(),
                self@ == old(self)@.each_learned_expired(peers@.take(i as int)),
            decreases peers@.len() - i,
        {
            assert(peers@.take(i + 1).drop_last() =~= peers@.take(i as int));
            self.expire_learned_peer(peers[i]);
            i += 1;
        }
        assert(peers@.take(i as int) =~= peers@);
    }

    /// Forgets the addresses of unknown peers whose time is over.
    pub fn expire_opportunistic_addresses(&mut self, now: u64)
        requires
            old(self).wf(),
        ensures
            final(self).wf(),
            final(self)@ == old(self)@.each_unknown_forgotten(
                sorted_peers(old(self)@.book.expired_opportunistic(now)),
            ),
    {
        let peers = self.book.expired_opportunistic(now);
        let mut i: usize = 0;
        assert(peers@.take(0) =~= Seq::empty());
        while i < peers.len()
            invariant
                i <= peers@.len(),
                self.wf(),
                self@ == old(self)@.each_unknown_forgotten(peers@.take(i as int)),
            decreases peers@.len() - i,
        {
            assert(peers@.take(i + 1).drop_last() =~= peers@.take(i as int));
            self.remove_opportunistic_addresses(peers[i]);
            i += 1;
        }
        assert(peers@.take(i as int) =~= peers@);
    }

    /// Takes the members of the guild in place of those known before, and
    /// forgets the counters of peers that are nobody any more.
    pub fn set_relay_members(&mut self, members: KeySet<PeerId>)
        requires
            old(self).wf(),
            members.wf(),
        ensures
            final(self).wf(),
            final(self)@ == old(self)@.with_book(
                old(self)@.book.with_members(members@),
            ).each_history_forgotten(
                sorted_peers(
                    old(self)@.transfers.dom().union(old(self)@.path_transfers.dom()),
                ),
            ),
    {
        proof {
            crate::address::lemma_peer_rank_tells_apart();
        }
        self.book.set_members(members);
        let mut recorded = self.transfers.sorted_keys();
        let others = self.path_transfers.sorted_keys();
        recorded.union_with(&others);
        assert(recorded@ =~= self@.transfers.dom().union(self@.path_transfers.dom()));
        let peers = sorted_vec(&recorded);
        let ghost start = self@;
        let mut i: usize = 0;
        assert(peers@.take(0) =~= Seq::empty());
        while i < peers.len()
            invariant
                i <= peers@.len(),
                self.wf(),
                self@ == start.each_history_forgotten(peers@.take(i as int)),
            decreases peers@.len() - i,
        {
            assert(peers@.take(i + 1).drop_last() =~= peers@.take(i as int));
            self.forget_transfer_history_if_unretained(peers[i]);
            i += 1;
        }
        assert(peers@.take(i as int) =~= peers@);
    }

    /// Dials the peers at the ends of the bootstrap addresses if there is
    /// need. A circuit address names its relay too: being connected to that is
    /// not enough.
    pub fn retry_bootstrap(&mut self, addresses: &Vec<Multiaddr>)
        requires
            old(self).wf(),
        ensures
            final(self).wf(),
            final(self)@ == old(self)@.each_ensured(
                sorted_peers(terminal_peers(views(addresses@))),
            ),
    {
        let set = bootstrap_peers(addresses);
        let peers = sorted_vec(&set);
        let mut i: usize = 0;
        assert(peers@.take(0) =~= Seq::empty());
        while i < peers.len()
            invariant
                i <= peers@.len(),
                self.wf(),
                self@ == old(self)@.each_ensured(peers@.take(i as int)),
            decreases peers@.len() - i,
        {
            assert(peers@.take(i + 1).drop_last() =~= peers@.take(i as int));
            self.ensure_selected_transport(peers[i]);
            i += 1;
        }
        assert(peers@.take(i as int) =~= peers@);
    }

    /// Takes a request of this node to a peer.
    pub fn submit_request(
        &mut self,
        cancellation_id: u128,
        peer: PeerId,
        recipient: Id32,
        response_recipient: Id32,
        request_id: u128,
        request_hash: Id32,
        request_bytes: u64,
        now: u64,
    )
        requires
            old(self).wf(),
        ensures
            final(self).wf(),
            final(self)@ == old(self)@.queued_or_dispatched(
                (PendingRequest {
                    cancellation_id,
                    peer,
                    recipient,
                    response_recipient,
                    request_id,
                    request_hash,
                    request_bytes,
                    transport_tier: old(self)@.tier(peer),
                    attempts: 0,
                    deadline: now.saturating_add(LOGICAL_REQUEST_TIMEOUT_MILLIS),
                    started_at: now,
                    waiting: true,
                }),
                now,
            ),
    {
        let transport_tier: u8 = self.selected_transport_tier(peer);
        self.queue_or_dispatch_request(
            PendingRequest {
                cancellation_id,
                peer,
                recipient,
                response_recipient,
                request_id,
                request_hash,
                request_bytes,
                transport_tier,
                attempts: 0,
                deadline: now.saturating_add(LOGICAL_REQUEST_TIMEOUT_MILLIS),
                started_at: now,
                waiting: true,
            },
            now,
        );
    }
}

/// The peers at the ends of addresses.
pub fn bootstrap_peers(addresses: &Vec<Multiaddr>) -> (peers: PeerSet)
    ensures
        peers.wf(),
        peers@ == terminal_peers(views(addresses@)),
{
    let mut peers = PeerSet::new();
    let ghost all = views(addresses@);
    let mut i: usize = 0;
    assert(peers@ =~= terminal_peers(all.take(0)));
    while i < addresses.len()
        invariant
            i <= addresses@.len(),
            all == views(addresses@),
            peers.wf(),
            peers@ == terminal_peers(all.take(i as int)),
        decreases addresses@.len() - i,
    {
        let ghost before = peers@;
        let ghost taken = all.take(i as int);
        let ghost next = all.take(i + 1);
        let peer = terminal_peer_id(&addresses[i]);
        if let Some(peer) = peer {
            let _ = peers.insert(peer);
        }
        proof {
            assert forall|p: PeerId| peers@.contains(p) == terminal_peers(next).contains(p) by {
                if terminal_peers(taken).contains(p) {
                    let k = choose|k: int|
                        0 <= k < taken.len() && terminal_peer(#[trigger] taken[k]) == Some(p);
                    assert(next[k] == taken[k]);
                }
                assert(next[i as int] == addresses@[i as int]@);
                if terminal_peers(next).contains(p) {
                    let k = choose|k: int|
                        0 <= k < next.len() && terminal_peer(#[trigger] next[k]) == Some(p);
                    if k < i {
                        assert(taken[k] == next[k]);
                    }
                }
            }
            assert(peers@ =~= terminal_peers(next));
        }
        i += 1;
    }
    assert(all.take(i as int) =~= all);
    peers
}

/// A peer that is neither a member nor configured, and that no recovery attempt
/// keeps, can say of itself what it likes: what was learned and what recovery
/// attempts keep stays as it is, and so does all the rest but for the addresses
/// of unknown peers, which keep to their limits. While it is in quarantine,
/// nothing changes at all. It is never refused for want of room.
pub proof fn an_identified_stranger_is_kept_apart(
    state: LoopModel,
    peer: PeerId,
    address: Seq<Component>,
    now: u64,
)
    requires
        !state.book.authorized(peer),
        state.book.scopes_of(peer) == Set::<u128>::empty(),
        state.book.opportunistic.dom().finite(),
        state.book.opportunistic.dom().len() <= MAX_OPPORTUNISTIC_ENDPOINT_PEERS,
        forall|other: PeerId| #[trigger]
            state.book.opportunistic.contains_key(other) ==> state.book.within(
                state.book.opportunistic[other].addresses,
            ),
    ensures
        ({
            let (after, problem) = state.identified(peer, address, now);
            &&& after == (LoopModel {
                book: BookModel { opportunistic: after.book.opportunistic, ..state.book },
                actions: after.actions,
                ..state
            })
            &&& after.book.learned == state.book.learned
            &&& after.book.recovery == state.book.recovery
            &&& after.book.opportunistic.dom().finite()
            &&& after.book.opportunistic.dom().len() <= MAX_OPPORTUNISTIC_ENDPOINT_PEERS
            &&& forall|other: PeerId| #[trigger]
                after.book.opportunistic.contains_key(other) ==> after.book.within(
                    after.book.opportunistic[other].addresses,
                )
            &&& state.book.quarantine.contains_key(peer) ==> after == state
            &&& !(problem matches Some(IdentifyError::TooManyEndpoints))
            &&& !(problem matches Some(IdentifyError::Learn(_)))
        }),
{
    reveal(LoopModel::unknown_noted);
    reveal(LoopModel::unknown_forgotten);
    let after = state.identified(peer, address, now).0;
    if after != state {
        let base = normalized(peer, address)->Ok_0;
        let book = state.book;
        someone_makes_room(book, peer);
        let roomy = match book.evicted(peer) {
            Some(evicted) => book.without_opportunistic(evicted),
            None => book,
        };
        if let Some(evicted) = book.evicted(peer) {
            assert(book.opportunistic.contains_key(evicted));
            assert(roomy.opportunistic.dom() =~= book.opportunistic.dom().remove(evicted));
        }
        assert(after.book == roomy.noted(peer, base, now));
        assert(after.book.opportunistic.dom() =~= roomy.opportunistic.dom().insert(peer));
        if roomy.opportunistic.contains_key(peer) {
            assert(book.within(book.opportunistic[peer].addresses));
        }
        assert forall|other: PeerId| #[trigger]
            after.book.opportunistic.contains_key(other) implies after.book.within(
            after.book.opportunistic[other].addresses,
        ) by {
            if other != peer {
                assert(roomy.opportunistic.contains_key(other));
                assert(book.within(book.opportunistic[other].addresses));
            }
        }
    }
}

} // verus!
