//! The addresses that a node keeps of its peers, and by what right.

use crate::address::{
    last_peer, lemma_peer_rank_tells_apart, peer_precedes, sorted_peers, AddressSet, Component,
    Multiaddr, PeerId, Protocol,
};
use crate::endpoints::EndpointLimits;
use crate::ordered::{models, sort_ranked, sorted_list};
use crate::policy::{address_allowed, address_allowed_by_tor_mode, views};
use crate::table::{EntryTest, KeySet, Stored, Table};
use crate::tor::{onion_address_matches_peer, onion_matches_peer, TorMode};
use vstd::prelude::*;

verus! {

/// How long a learned address lives at most, in seconds.
pub const DHT_TTL_SECONDS: u64 = 900;

/// How many peers' learned addresses are kept.
pub const MAX_LEARNED_ENDPOINT_PEERS: usize = 1024;

/// How many unknown peers' addresses are kept.
pub const MAX_OPPORTUNISTIC_ENDPOINT_PEERS: usize = 256;

/// How many recovery attempts may keep addresses.
pub const MAX_RECOVERY_ADDRESS_SCOPES: usize = 4;

/// Of how many peers a recovery attempt may keep addresses.
pub const MAX_RECOVERY_ADDRESS_PEERS: usize = 64;

/// How many peers of recovery attempts are quarantined.
pub const MAX_RECOVERY_QUARANTINED_PEERS: usize = 256;

/// Why an address of a peer is refused.
#[derive(Clone, Copy, Debug, PartialEq, Eq, Structural)]
pub enum KnownAddressProblem {
    NoTransport,
    OnionMismatch,
}

/// The address of a peer without the peer at its end.
pub open spec fn normalized(peer: PeerId, address: Seq<Component>) -> Result<
    Seq<Component>,
    KnownAddressProblem,
> {
    let base = if last_peer(address) == Some(peer) {
        address.drop_last()
    } else {
        address
    };
    if base.len() == 0 {
        Err(KnownAddressProblem::NoTransport)
    } else if !onion_matches_peer(base, peer) {
        Err(KnownAddressProblem::OnionMismatch)
    } else {
        Ok(base)
    }
}

/// Takes the peer from the end of its address and checks the rest.
pub fn normalize_known_address(peer: PeerId, address: Multiaddr) -> (result: Result<
    Multiaddr,
    KnownAddressProblem,
>)
    ensures
        (match result {
            Ok(address) => Ok(address@),
            Err(problem) => Err(problem),
        }) == normalized(peer, address@),
{
    let bound = match address.last_peer() {
        Some(last) => last.equals(&peer),
        None => false,
    };
    let base = if bound {
        address.without_last()
    } else {
        address
    };
    if base.is_empty() {
        return Err(KnownAddressProblem::NoTransport);
    }
    if !onion_address_matches_peer(&base, peer) {
        return Err(KnownAddressProblem::OnionMismatch);
    }
    Ok(base)
}

/// Addresses of a peer that expire together.
pub struct LearnedAddresses {
    pub addresses: AddressSet,
    pub expires_at: u64,
}

/// What learned addresses are, for contracts.
#[verifier::ext_equal]
pub struct LearnedModel {
    pub addresses: Set<Seq<Component>>,
    pub expires_at: u64,
}

impl Stored for LearnedAddresses {
    type Model = LearnedModel;

    open spec fn stored(&self) -> LearnedModel {
        LearnedModel { addresses: self.addresses@, expires_at: self.expires_at }
    }

    open spec fn sound(&self) -> bool {
        self.addresses.wf()
    }
}

/// The addresses of one recovery attempt.
pub struct RecoveryAddresses {
    pub addresses: Table<PeerId, AddressSet>,
    pub expires_at: u64,
}

/// What the addresses of a recovery attempt are, for contracts.
#[verifier::ext_equal]
pub struct RecoveryModel {
    pub addresses: Map<PeerId, Set<Seq<Component>>>,
    pub expires_at: u64,
}

impl Stored for RecoveryAddresses {
    type Model = RecoveryModel;

    open spec fn stored(&self) -> RecoveryModel {
        RecoveryModel { addresses: self.addresses@, expires_at: self.expires_at }
    }

    open spec fn sound(&self) -> bool {
        self.addresses.wf()
    }
}

/// The addresses that a node keeps.
pub struct Book {
    pub mode: TorMode,
    pub limits: EndpointLimits,
    /// Configured addresses, kept for good.
    pub persistent: Table<PeerId, AddressSet>,
    /// Addresses of peers that the node knows.
    pub learned: Table<PeerId, LearnedAddresses>,
    /// Addresses of unknown peers, for routing in the DHT alone.
    pub opportunistic: Table<PeerId, LearnedAddresses>,
    /// Addresses that belong to a recovery attempt and go with it.
    pub recovery: Table<u128, RecoveryAddresses>,
    /// Peers of recovery attempts, whose own word is not taken meanwhile.
    pub quarantine: Table<PeerId, u64>,
    pub relay_members: KeySet<PeerId>,
}

/// What the addresses are, for contracts.
#[verifier::ext_equal]
pub struct BookModel {
    pub mode: TorMode,
    pub limits: EndpointLimits,
    pub persistent: Map<PeerId, Set<Seq<Component>>>,
    pub learned: Map<PeerId, LearnedModel>,
    pub opportunistic: Map<PeerId, LearnedModel>,
    pub recovery: Map<u128, RecoveryModel>,
    pub quarantine: Map<PeerId, u64>,
    pub relay_members: Set<PeerId>,
}

/// Why addresses are not learned.
#[derive(Clone, Copy, Debug, PartialEq, Eq, Structural)]
pub enum LearnError {
    Address(KnownAddressProblem),
    CacheFull,
    TooManyEndpoints,
    Expired,
}

/// Why addresses of a recovery attempt are not kept.
#[derive(Clone, Copy, Debug, PartialEq, Eq, Structural)]
pub enum RecoveryAddressError {
    Invalid,
    TooManyScopes,
    TooManyPeers,
    TooManyQuarantined,
    Address(KnownAddressProblem),
    TooManyEndpoints,
}

/// The time at which something that expires at a Unix time is dropped here,
/// but no later than the longest life allows.
pub open spec fn expiry(expires_at_unix: u64, now_unix: u64, now: u64) -> u64 {
    let left = expires_at_unix.saturating_sub(now_unix);
    let seconds = if left < DHT_TTL_SECONDS {
        left
    } else {
        DHT_TTL_SECONDS
    };
    now.saturating_add((seconds * 1000) as u64)
}

pub fn expiry_time(expires_at_unix: u64, now_unix: u64, now: u64) -> (at: u64)
    ensures
        at == expiry(expires_at_unix, now_unix, now),
{
    let left: u64 = expires_at_unix.saturating_sub(now_unix);
    let seconds: u64 = if left < DHT_TTL_SECONDS {
        left
    } else {
        DHT_TTL_SECONDS
    };
    now.saturating_add(seconds * 1000)
}

/// The longest life of a learned address, from now.
pub open spec fn full_life(now: u64) -> u64 {
    now.saturating_add(900_000)
}

/// The first problem among the addresses of a peer.
pub open spec fn first_address_problem(
    peer: PeerId,
    addresses: Seq<Seq<Component>>,
) -> Option<KnownAddressProblem>
    decreases addresses.len(),
{
    if addresses.len() == 0 {
        None
    } else {
        match first_address_problem(peer, addresses.drop_last()) {
            Some(problem) => Some(problem),
            None => match normalized(peer, addresses.last()) {
                Ok(_) => None,
                Err(problem) => Some(problem),
            },
        }
    }
}

/// The addresses of a peer without the peer, as far as the mode allows them.
pub open spec fn usable_addresses(
    mode: TorMode,
    peer: PeerId,
    addresses: Seq<Seq<Component>>,
) -> Set<Seq<Component>> {
    Set::new(
        |address: Seq<Component>|
            address_allowed(mode, address) && exists|i: int|
                0 <= i < addresses.len() && normalized(peer, #[trigger] addresses[i]) == Ok::<
                    Seq<Component>,
                    KnownAddressProblem,
                >(address),
    )
}

/// Adds the addresses of a peer to a set, one by one, until one of them is
/// wrong or the set is full.
pub open spec fn filled_in(
    mode: TorMode,
    per_peer: nat,
    peer: PeerId,
    set: Set<Seq<Component>>,
    addresses: Seq<Seq<Component>>,
) -> (Set<Seq<Component>>, Option<RecoveryAddressError>)
    decreases addresses.len(),
{
    if addresses.len() == 0 {
        (set, None)
    } else {
        let (so_far, problem) = filled_in(mode, per_peer, peer, set, addresses.drop_last());
        if problem is Some {
            (so_far, problem)
        } else {
            match normalized(peer, addresses.last()) {
                Err(problem) => (so_far, Some(RecoveryAddressError::Address(problem))),
                Ok(address) => if !address_allowed(mode, address) {
                    (so_far, None)
                } else if !so_far.contains(address) && so_far.len() >= per_peer {
                    (so_far, Some(RecoveryAddressError::TooManyEndpoints))
                } else {
                    (so_far.insert(address), None)
                },
            }
        }
    }
}

impl BookModel {
    /// The addresses that the node may dial the peer at.
    pub open spec fn retained(self, peer: PeerId) -> Set<Seq<Component>> {
        Set::new(
            |address: Seq<Component>|
                {
                    ||| self.persistent.contains_key(peer) && self.persistent[peer].contains(
                        address,
                    )
                    ||| self.learned.contains_key(peer) && self.learned[peer].addresses.contains(
                        address,
                    )
                    ||| exists|scope: u128| #[trigger]
                        self.recovery.contains_key(scope)
                            && self.recovery[scope].addresses.contains_key(peer)
                            && self.recovery[scope].addresses[peer].contains(address)
                },
        )
    }

    /// The recovery attempts that keep addresses of the peer.
    pub open spec fn scopes_of(self, peer: PeerId) -> Set<u128> {
        self.recovery.dom().filter(
            |scope: u128| self.recovery[scope].addresses.contains_key(peer),
        )
    }

    /// The peer is one whose transfers are counted.
    pub open spec fn retains_history(self, peer: PeerId) -> bool {
        ||| self.persistent.contains_key(peer)
        ||| self.learned.contains_key(peer)
        ||| exists|scope: u128| #[trigger]
            self.recovery.contains_key(scope) && self.recovery[scope].addresses.contains_key(peer)
        ||| self.relay_members.contains(peer)
    }

    /// The peer is a member or configured, so its own word on its addresses is
    /// taken.
    pub open spec fn authorized(self, peer: PeerId) -> bool {
        self.persistent.contains_key(peer) || self.relay_members.contains(peer)
    }

    /// Why one address is not learned.
    pub open spec fn learn_problem(self, peer: PeerId, address: Seq<Component>) -> Option<
        LearnError,
    > {
        match normalized(peer, address) {
            Err(problem) => Some(LearnError::Address(problem)),
            Ok(base) => if !address_allowed(self.mode, base) {
                None
            } else if !self.learned.contains_key(peer) && self.learned.dom().len()
                >= MAX_LEARNED_ENDPOINT_PEERS {
                Some(LearnError::CacheFull)
            } else if self.learned.contains_key(peer) && !self.learned[peer].addresses.contains(
                base,
            ) && self.learned[peer].addresses.len() >= self.limits.per_peer {
                Some(LearnError::TooManyEndpoints)
            } else {
                None
            },
        }
    }

    /// The address is one that is learned if nothing speaks against it.
    pub open spec fn learnable(self, peer: PeerId, address: Seq<Component>) -> bool {
        normalized(peer, address) matches Ok(base) && address_allowed(self.mode, base)
    }

    /// One address is learned; all addresses of the peer live on.
    pub open spec fn learned_with(self, peer: PeerId, address: Seq<Component>, now: u64) -> BookModel {
        let known = if self.learned.contains_key(peer) {
            self.learned[peer].addresses
        } else {
            Set::empty()
        };
        BookModel {
            learned: self.learned.insert(
                peer,
                (LearnedModel {
                    addresses: known.insert(normalized(peer, address)->Ok_0),
                    expires_at: full_life(now),
                }),
            ),
            ..self
        }
    }

    /// Why published addresses are not taken.
    pub open spec fn replace_problem(
        self,
        peer: PeerId,
        addresses: Seq<Seq<Component>>,
        expires_at_unix: u64,
        now_unix: u64,
    ) -> Option<LearnError> {
        if addresses.len() > self.limits.per_peer {
            Some(LearnError::TooManyEndpoints)
        } else if addresses.len() > 0 && expires_at_unix <= now_unix {
            Some(LearnError::Expired)
        } else if !self.learned.contains_key(peer) && addresses.len() > 0
            && self.learned.dom().len() >= MAX_LEARNED_ENDPOINT_PEERS {
            Some(LearnError::CacheFull)
        } else {
            match first_address_problem(peer, addresses) {
                Some(problem) => Some(LearnError::Address(problem)),
                None => None,
            }
        }
    }

    /// Published addresses take the place of those learned before.
    pub open spec fn replaced(
        self,
        peer: PeerId,
        addresses: Seq<Seq<Component>>,
        expires_at_unix: u64,
        now_unix: u64,
        now: u64,
    ) -> BookModel {
        let usable = usable_addresses(self.mode, peer, addresses);
        BookModel {
            learned: if usable == Set::<Seq<Component>>::empty() {
                self.learned.remove(peer)
            } else {
                self.learned.insert(
                    peer,
                    (LearnedModel {
                        addresses: usable,
                        expires_at: expiry(expires_at_unix, now_unix, now),
                    }),
                )
            },
            ..self
        }
    }

    pub open spec fn without_learned(self, peer: PeerId) -> BookModel {
        BookModel { learned: self.learned.remove(peer), ..self }
    }

    pub open spec fn without_opportunistic(self, peer: PeerId) -> BookModel {
        BookModel { opportunistic: self.opportunistic.remove(peer), ..self }
    }

    /// The unknown peer that is forgotten first: the one whose addresses
    /// expire first, and of those the first in the order of peers.
    pub open spec fn is_first_unknown(self, peer: PeerId) -> bool {
        &&& self.opportunistic.contains_key(peer)
        &&& forall|other: PeerId| #[trigger]
            self.opportunistic.contains_key(other) ==> self.opportunistic[peer].expires_at
                < self.opportunistic[other].expires_at || self.opportunistic[peer].expires_at
                == self.opportunistic[other].expires_at && (peer == other || peer_precedes(
                peer,
                other,
            ))
    }

    /// The unknown peer that makes room for another, if one must.
    pub open spec fn evicted(self, peer: PeerId) -> Option<PeerId> {
        if !self.opportunistic.contains_key(peer) && self.opportunistic.dom().len()
            >= MAX_OPPORTUNISTIC_ENDPOINT_PEERS {
            Some(choose|first: PeerId| #[trigger] self.is_first_unknown(first))
        } else {
            None
        }
    }

    /// An unknown peer has room for an address.
    pub open spec fn has_room(self, peer: PeerId, address: Seq<Component>) -> bool {
        let known = if self.opportunistic.contains_key(peer) {
            self.opportunistic[peer].addresses
        } else {
            Set::empty()
        };
        known.contains(address) || known.len() < self.limits.per_peer
    }

    /// An address of an unknown peer is noted, where there is room. The entry
    /// of a new peer is made in any case.
    pub open spec fn noted(self, peer: PeerId, address: Seq<Component>, now: u64) -> BookModel {
        let known = if self.opportunistic.contains_key(peer) {
            self.opportunistic[peer]
        } else {
            LearnedModel { addresses: Set::empty(), expires_at: full_life(now) }
        };
        BookModel {
            opportunistic: self.opportunistic.insert(
                peer,
                if !known.addresses.contains(address) && known.addresses.len()
                    >= self.limits.per_peer {
                    known
                } else {
                    LearnedModel {
                        addresses: known.addresses.insert(address),
                        expires_at: full_life(now),
                    }
                },
            ),
            ..self
        }
    }

    /// Some attempt that keeps addresses of the peer has no room for another.
    pub open spec fn scopes_full(self, peer: PeerId, address: Seq<Component>) -> bool {
        exists|scope: u128| #[trigger]
            self.recovery.contains_key(scope) && self.recovery[scope].addresses.contains_key(peer)
                && !self.recovery[scope].addresses[peer].contains(address)
                && self.recovery[scope].addresses[peer].len() >= self.limits.per_peer
    }

    /// An address is added in every attempt that keeps addresses of the peer.
    pub open spec fn scoped_with(self, peer: PeerId, address: Seq<Component>) -> BookModel {
        BookModel {
            recovery: Map::new(
                |scope: u128| self.recovery.contains_key(scope),
                |scope: u128|
                    {
                        let before = self.recovery[scope];
                        if before.addresses.contains_key(peer) {
                            RecoveryModel {
                                addresses: before.addresses.insert(
                                    peer,
                                    before.addresses[peer].insert(address),
                                ),
                                ..before
                            }
                        } else {
                            before
                        }
                    },
            ),
            ..self
        }
    }

    /// What becomes of the addresses that a recovery attempt hands in, and
    /// whether they are refused. What went well before the refusal stays.
    pub open spec fn scoped(
        self,
        scope: u128,
        peer: PeerId,
        addresses: Seq<Seq<Component>>,
        expires_at_unix: u64,
        now_unix: u64,
        now: u64,
    ) -> (BookModel, Option<RecoveryAddressError>) {
        if addresses.len() == 0 || addresses.len() > self.limits.per_peer || expires_at_unix
            <= now_unix {
            (self, Some(RecoveryAddressError::Invalid))
        } else if !self.recovery.contains_key(scope) && self.recovery.dom().len()
            >= MAX_RECOVERY_ADDRESS_SCOPES {
            (self, Some(RecoveryAddressError::TooManyScopes))
        } else {
            let entry = if self.recovery.contains_key(scope) {
                self.recovery[scope]
            } else {
                RecoveryModel { addresses: Map::empty(), expires_at: full_life(now) }
            };
            if !entry.addresses.contains_key(peer) && entry.addresses.dom().len()
                >= MAX_RECOVERY_ADDRESS_PEERS {
                (
                    BookModel { recovery: self.recovery.insert(scope, entry), ..self },
                    Some(RecoveryAddressError::TooManyPeers),
                )
            } else if !self.quarantine.contains_key(peer) && self.quarantine.dom().len()
                >= MAX_RECOVERY_QUARANTINED_PEERS {
                (
                    BookModel { recovery: self.recovery.insert(scope, entry), ..self },
                    Some(RecoveryAddressError::TooManyQuarantined),
                )
            } else {
                let at = expiry(expires_at_unix, now_unix, now);
                let known = if entry.addresses.contains_key(peer) {
                    entry.addresses[peer]
                } else {
                    Set::empty()
                };
                let (filled, problem) = filled_in(
                    self.mode,
                    self.limits.per_peer as nat,
                    peer,
                    known,
                    addresses,
                );
                (
                    BookModel {
                        quarantine: self.quarantine.insert(
                            peer,
                            if self.quarantine.contains_key(peer) && self.quarantine[peer] > at {
                                self.quarantine[peer]
                            } else {
                                at
                            },
                        ),
                        recovery: self.recovery.insert(
                            scope,
                            (RecoveryModel {
                                addresses: entry.addresses.insert(peer, filled),
                                expires_at: if entry.expires_at < at {
                                    entry.expires_at
                                } else {
                                    at
                                },
                            }),
                        ),
                        ..self
                    },
                    problem,
                )
            }
        }
    }

    pub open spec fn without_scope(self, scope: u128) -> BookModel {
        BookModel { recovery: self.recovery.remove(scope), ..self }
    }

    /// The peers of which a recovery attempt keeps addresses.
    pub open spec fn scope_peers(self, scope: u128) -> Set<PeerId> {
        if self.recovery.contains_key(scope) {
            self.recovery[scope].addresses.dom()
        } else {
            Set::empty()
        }
    }

    pub open spec fn expired_scopes(self, now: u64) -> Set<u128> {
        self.recovery.dom().filter(|scope: u128| self.recovery[scope].expires_at <= now)
    }

    pub open spec fn expired_learned(self, now: u64) -> Set<PeerId> {
        self.learned.dom().filter(|peer: PeerId| self.learned[peer].expires_at <= now)
    }

    pub open spec fn expired_opportunistic(self, now: u64) -> Set<PeerId> {
        self.opportunistic.dom().filter(
            |peer: PeerId| self.opportunistic[peer].expires_at <= now,
        )
    }

    pub open spec fn quarantine_expired(self, now: u64) -> BookModel {
        BookModel {
            quarantine: self.quarantine.restrict(
                self.quarantine.dom().filter(|peer: PeerId| self.quarantine[peer] > now),
            ),
            ..self
        }
    }

    pub open spec fn with_members(self, members: Set<PeerId>) -> BookModel {
        BookModel { relay_members: members, ..self }
    }

    /// The caches keep to their limits.
    pub open spec fn bounded(self) -> bool {
        &&& self.learned.dom().finite()
        &&& self.learned.dom().len() <= MAX_LEARNED_ENDPOINT_PEERS
        &&& self.opportunistic.dom().finite()
        &&& self.opportunistic.dom().len() <= MAX_OPPORTUNISTIC_ENDPOINT_PEERS
        &&& self.recovery.dom().finite()
        &&& self.recovery.dom().len() <= MAX_RECOVERY_ADDRESS_SCOPES
        &&& self.quarantine.dom().finite()
        &&& self.quarantine.dom().len() <= MAX_RECOVERY_QUARANTINED_PEERS
        &&& self.limits.per_peer >= 1
        &&& forall|peer: PeerId| #[trigger]
            self.learned.contains_key(peer) ==> self.within(self.learned[peer].addresses)
        &&& forall|peer: PeerId| #[trigger]
            self.opportunistic.contains_key(peer) ==> self.within(
                self.opportunistic[peer].addresses,
            )
        &&& forall|scope: u128| #[trigger]
            self.recovery.contains_key(scope) ==> self.attempt_within(self.recovery[scope])
    }

    /// The addresses of one peer keep to the limit.
    pub open spec fn within(self, addresses: Set<Seq<Component>>) -> bool {
        addresses.finite() && addresses.len() <= self.limits.per_peer
    }

    /// The addresses of one recovery attempt keep to the limits.
    pub open spec fn attempt_within(self, attempt: RecoveryModel) -> bool {
        &&& attempt.addresses.dom().finite()
        &&& attempt.addresses.dom().len() <= MAX_RECOVERY_ADDRESS_PEERS
        &&& forall|peer: PeerId| #[trigger]
            attempt.addresses.contains_key(peer) ==> self.within(attempt.addresses[peer])
    }
}

struct ScopeTest {
    peer: PeerId,
}

impl EntryTest<u128, RecoveryAddresses> for ScopeTest {
    closed spec fn ready(&self) -> bool {
        true
    }

    closed spec fn passes(&self, key: u128, value: RecoveryModel) -> bool {
        value.addresses.contains_key(self.peer)
    }

    fn test(&self, key: u128, value: &RecoveryAddresses) -> (result: bool) {
        value.addresses.has(self.peer)
    }
}

struct FullScopeTest<'a> {
    peer: PeerId,
    address: &'a Multiaddr,
    per_peer: usize,
}

impl<'a> EntryTest<u128, RecoveryAddresses> for FullScopeTest<'a> {
    closed spec fn ready(&self) -> bool {
        true
    }

    closed spec fn passes(&self, key: u128, value: RecoveryModel) -> bool {
        &&& value.addresses.contains_key(self.peer)
        &&& !value.addresses[self.peer].contains(self.address@)
        &&& value.addresses[self.peer].len() >= self.per_peer
    }

    fn test(&self, key: u128, value: &RecoveryAddresses) -> (result: bool) {
        match value.addresses.get(self.peer) {
            Some(known) => !known.contains(self.address) && known.len() >= self.per_peer,
            None => false,
        }
    }
}

struct ExpiredScopeTest {
    now: u64,
}

impl EntryTest<u128, RecoveryAddresses> for ExpiredScopeTest {
    closed spec fn ready(&self) -> bool {
        true
    }

    closed spec fn passes(&self, key: u128, value: RecoveryModel) -> bool {
        value.expires_at <= self.now
    }

    fn test(&self, key: u128, value: &RecoveryAddresses) -> (result: bool) {
        value.expires_at <= self.now
    }
}

struct ExpiredPeerTest {
    now: u64,
}

impl EntryTest<PeerId, LearnedAddresses> for ExpiredPeerTest {
    closed spec fn ready(&self) -> bool {
        true
    }

    closed spec fn passes(&self, key: PeerId, value: LearnedModel) -> bool {
        value.expires_at <= self.now
    }

    fn test(&self, key: PeerId, value: &LearnedAddresses) -> (result: bool) {
        value.expires_at <= self.now
    }
}

impl EntryTest<PeerId, u64> for ExpiredPeerTest {
    closed spec fn ready(&self) -> bool {
        true
    }

    closed spec fn passes(&self, key: PeerId, value: u64) -> bool {
        value <= self.now
    }

    fn test(&self, key: PeerId, value: &u64) -> (result: bool) {
        *value <= self.now
    }
}

impl Book {
    pub open spec fn view(&self) -> BookModel {
        BookModel {
            mode: self.mode,
            limits: self.limits,
            persistent: self.persistent@,
            learned: self.learned@,
            opportunistic: self.opportunistic@,
            recovery: self.recovery@,
            quarantine: self.quarantine@,
            relay_members: self.relay_members@,
        }
    }

    pub open spec fn wf(&self) -> bool {
        &&& self.persistent.wf()
        &&& self.learned.wf()
        &&& self.opportunistic.wf()
        &&& self.recovery.wf()
        &&& self.quarantine.wf()
        &&& self.relay_members.wf()
    }

    pub fn new(
        mode: TorMode,
        limits: EndpointLimits,
        persistent: Table<PeerId, AddressSet>,
        relay_members: KeySet<PeerId>,
    ) -> (book: Self)
        requires
            persistent.wf(),
            relay_members.wf(),
        ensures
            book.wf(),
            book@ == (BookModel {
                mode,
                limits,
                persistent: persistent@,
                learned: Map::empty(),
                opportunistic: Map::empty(),
                recovery: Map::empty(),
                quarantine: Map::empty(),
                relay_members: relay_members@,
            }),
    {
        Book {
            mode,
            limits,
            persistent,
            learned: Table::new(),
            opportunistic: Table::new(),
            recovery: Table::new(),
            quarantine: Table::new(),
            relay_members,
        }
    }

    /// The addresses that the node may dial the peer at.
    pub fn retained_peer_addresses(&self, peer: PeerId) -> (addresses: AddressSet)
        requires
            self.wf(),
        ensures
            addresses.wf(),
            addresses@ == self@.retained(peer),
    {
        let mut addresses = AddressSet::new();
        if let Some(known) = self.persistent.get(peer) {
            addresses.union_with(known);
        }
        if let Some(known) = self.learned.get(peer) {
            addresses.union_with(&known.addresses);
        }
        let ghost base = addresses@;
        let total: usize = self.recovery.len();
        let mut i: usize = 0;
        while i < total
            invariant
                i <= total == self.recovery.order().len(),
                self.wf(),
                addresses.wf(),
                forall|a: Seq<Component>| #[trigger]
                    addresses@.contains(a) <==> base.contains(a) || exists|k: int|
                        0 <= k < i && self.scope_holds(#[trigger] self.recovery.order()[k], peer, a),
            decreases total - i,
        {
            let ghost before = addresses@;
            let ghost here = self.recovery.order()[i as int];
            let scope = self.recovery.value_at(i);
            match scope.addresses.get(peer) {
                Some(known) => {
                    addresses.union_with(known);
                },
                None => {},
            }
            proof {
                assert forall|a: Seq<Component>| #[trigger] addresses@.contains(a) <==> (
                base.contains(a) || exists|k: int|
                    0 <= k < i + 1 && self.scope_holds(
                        #[trigger] self.recovery.order()[k],
                        peer,
                        a,
                    )) by {
                    assert(before.contains(a) <==> base.contains(a) || exists|k: int|
                        0 <= k < i && self.scope_holds(
                            #[trigger] self.recovery.order()[k],
                            peer,
                            a,
                        ));
                    if self.scope_holds(here, peer, a) {
                        assert(self.scope_holds(self.recovery.order()[i as int], peer, a));
                    }
                }
            }
            i += 1;
        }
        proof {
            self.recovery.lemma_order();
            assert forall|a: Seq<Component>| addresses@.contains(a) == self@.retained(
                peer,
            ).contains(a) by {
                if exists|s: u128| #[trigger]
                    self@.recovery.contains_key(s) && self.scope_holds(s, peer, a) {
                    let s = choose|s: u128| #[trigger]
                        self@.recovery.contains_key(s) && self.scope_holds(s, peer, a);
                    let k = choose|k: int|
                        0 <= k < self.recovery.order().len() && self.recovery.order()[k] == s;
                    assert(self.scope_holds(self.recovery.order()[k], peer, a));
                    assert(addresses@.contains(a));
                }
                if self@.retained(peer).contains(a) && !base.contains(a) {
                    let s = choose|s: u128| #[trigger]
                        self@.recovery.contains_key(s) && self@.recovery[s].addresses.contains_key(
                            peer,
                        ) && self@.recovery[s].addresses[peer].contains(a);
                    assert(self@.recovery.contains_key(s) && self.scope_holds(s, peer, a));
                }
            }
            assert(addresses@ =~= self@.retained(peer));
        }
        addresses
    }

    spec fn scope_holds(&self, scope: u128, peer: PeerId, address: Seq<Component>) -> bool {
        self@.recovery[scope].addresses.contains_key(peer)
            && self@.recovery[scope].addresses[peer].contains(address)
    }

    fn in_some_scope(&self, peer: PeerId) -> (result: bool)
        requires
            self.wf(),
        ensures
            result == exists|scope: u128| #[trigger]
                self@.recovery.contains_key(scope) && self@.recovery[scope].addresses.contains_key(
                    peer,
                ),
    {
        let test = ScopeTest { peer };
        let found = self.recovery.any(&test);
        proof {
            if exists|scope: u128| #[trigger]
                self@.recovery.contains_key(scope) && self@.recovery[scope].addresses.contains_key(
                    peer,
                ) {
                let s = choose|s: u128| #[trigger]
                    self@.recovery.contains_key(s) && self@.recovery[s].addresses.contains_key(
                        peer,
                    );
                assert(self.recovery@.contains_key(s) && test.passes(s, self.recovery@[s]));
            }
            if found {
                let s = choose|s: u128| #[trigger]
                    self.recovery@.contains_key(s) && test.passes(s, self.recovery@[s]);
                assert(self@.recovery.contains_key(s) && self@.recovery[s].addresses.contains_key(
                    peer,
                ));
            }
        }
        found
    }

    pub fn retains_transfer_history(&self, peer: PeerId) -> (result: bool)
        requires
            self.wf(),
        ensures
            result == self@.retains_history(peer),
    {
        self.persistent.has(peer) || self.learned.has(peer) || self.in_some_scope(peer)
            || self.relay_members.contains(peer)
    }

    pub fn is_authorized(&self, peer: PeerId) -> (result: bool)
        requires
            self.wf(),
        ensures
            result == self@.authorized(peer),
    {
        self.persistent.has(peer) || self.relay_members.contains(peer)
    }

    /// Learns one address of a peer; `false` where the mode forbids it.
    pub fn learn(&mut self, peer: PeerId, address: Multiaddr, now: u64) -> (learned: Result<
        bool,
        LearnError,
    >)
        requires
            old(self).wf(),
        ensures
            final(self).wf(),
            match learned {
                Err(error) => old(self)@.learn_problem(peer, address@) == Some(error)
                    && final(self)@ == old(self)@,
                Ok(changed) => {
                    &&& old(self)@.learn_problem(peer, address@) is None
                    &&& changed == old(self)@.learnable(peer, address@)
                    &&& final(self)@ == (if changed {
                        old(self)@.learned_with(peer, address@, now)
                    } else {
                        old(self)@
                    })
                },
            },
    {
        let base = match normalize_known_address(peer, address) {
            Ok(base) => base,
            Err(problem) => {
                return Err(LearnError::Address(problem));
            },
        };
        if !address_allowed_by_tor_mode(self.mode, &base) {
            return Ok(false);
        }
        match self.learned.get(peer) {
            None => {
                if self.learned.len() >= MAX_LEARNED_ENDPOINT_PEERS {
                    return Err(LearnError::CacheFull);
                }
            },
            Some(known) => {
                if !known.addresses.contains(&base) && known.addresses.len()
                    >= self.limits.per_peer {
                    return Err(LearnError::TooManyEndpoints);
                }
            },
        }
        let mut addresses = match self.learned.remove(peer) {
            Some(known) => known.addresses,
            None => AddressSet::new(),
        };
        let _ = addresses.insert(base);
        let ghost filled = addresses@;
        let expires_at: u64 = now.saturating_add(900_000);
        self.learned.insert(peer, LearnedAddresses { addresses, expires_at });
        proof {
            assert(self.learned@ =~= old(self)@.learned_with(peer, address@, now).learned);
        }
        Ok(true)
    }

    /// Takes the published addresses of a peer in place of those learned
    /// before.
    pub fn replace_learned(
        &mut self,
        peer: PeerId,
        addresses: &Vec<Multiaddr>,
        expires_at_unix: u64,
        now_unix: u64,
        now: u64,
    ) -> (replaced: Result<(), LearnError>)
        requires
            old(self).wf(),
        ensures
            final(self).wf(),
            match replaced {
                Err(error) => old(self)@.replace_problem(
                    peer,
                    views(addresses@),
                    expires_at_unix,
                    now_unix,
                ) == Some(error) && final(self)@ == old(self)@,
                Ok(()) => old(self)@.replace_problem(
                    peer,
                    views(addresses@),
                    expires_at_unix,
                    now_unix,
                ) is None && final(self)@ == old(self)@.replaced(
                    peer,
                    views(addresses@),
                    expires_at_unix,
                    now_unix,
                    now,
                ),
            },
    {
        if addresses.len() > self.limits.per_peer {
            return Err(LearnError::TooManyEndpoints);
        }
        if addresses.len() > 0 && expires_at_unix <= now_unix {
            return Err(LearnError::Expired);
        }
        if !self.learned.has(peer) && addresses.len() > 0 && self.learned.len()
            >= MAX_LEARNED_ENDPOINT_PEERS {
            return Err(LearnError::CacheFull);
        }
        let ghost all = views(addresses@);
        let mut usable = AddressSet::new();
        let mut i: usize = 0;
        assert(all.take(0) =~= Seq::empty());
        assert(usable@ =~= usable_addresses(self.mode, peer, all.take(0)));
        while i < addresses.len()
            invariant
                i <= addresses@.len(),
                all == views(addresses@),
                usable.wf(),
                *self == *old(self),
                self.wf(),
                usable@ == usable_addresses(self.mode, peer, all.take(i as int)),
                first_address_problem(peer, all.take(i as int)) is None,
                old(self)@.replace_problem(peer, all, expires_at_unix, now_unix) == (
                match first_address_problem(peer, all) {
                    Some(problem) => Some(LearnError::Address(problem)),
                    None => None,
                }),
            decreases addresses@.len() - i,
        {
            let ghost taken = all.take(i as int);
            let ghost next = all.take(i + 1);
            proof {
                assert(next.drop_last() =~= taken);
                assert(next.last() == addresses@[i as int]@);
            }
            match normalize_known_address(peer, addresses[i].duplicate()) {
                Ok(base) => {
                    let ghost before = usable@;
                    let ghost added = base@;
                    if address_allowed_by_tor_mode(self.mode, &base) {
                        let _ = usable.insert(base);
                    }
                    proof {
                        lemma_usable_step(self.mode, peer, taken, next.last());
                        assert(taken.push(next.last()) =~= next);
                    }
                },
                Err(problem) => {
                    proof {
                        lemma_first_address_problem_stays(peer, all, i + 1);
                    }
                    return Err(LearnError::Address(problem));
                },
            }
            i += 1;
        }
        assert(all.take(i as int) =~= all);
        let _ = self.learned.remove(peer);
        if !usable.is_empty() {
            let expires_at: u64 = expiry_time(expires_at_unix, now_unix, now);
            self.learned.insert(peer, LearnedAddresses { addresses: usable, expires_at });
        }
        proof {
            assert(self.learned@ =~= old(self)@.replaced(
                peer,
                all,
                expires_at_unix,
                now_unix,
                now,
            ).learned);
        }
        Ok(())
    }

    pub fn remove_learned(&mut self, peer: PeerId) -> (removed: bool)
        requires
            old(self).wf(),
        ensures
            final(self).wf(),
            final(self)@ == old(self)@.without_learned(peer),
            removed == old(self)@.learned.contains_key(peer),
    {
        self.learned.remove(peer).is_some()
    }

    /// Forgets the addresses of an unknown peer and hands them back.
    pub fn remove_opportunistic(&mut self, peer: PeerId) -> (removed: Option<AddressSet>)
        requires
            old(self).wf(),
        ensures
            final(self).wf(),
            final(self)@ == old(self)@.without_opportunistic(peer),
            match removed {
                Some(addresses) => old(self)@.opportunistic.contains_key(peer) && addresses.wf()
                    && addresses@ == old(self)@.opportunistic[peer].addresses,
                None => !old(self)@.opportunistic.contains_key(peer) && final(self)@ == old(self)@,
            },
    {
        match self.opportunistic.remove(peer) {
            Some(known) => Some(known.addresses),
            None => None,
        }
    }

    /// The unknown peer that must make room for another, if one must.
    pub fn evicted_by(&self, peer: PeerId) -> (evicted: Option<PeerId>)
        requires
            self.wf(),
        ensures
            evicted == self@.evicted(peer),
            evicted matches Some(first) ==> self@.is_first_unknown(first),
    {
        if self.opportunistic.has(peer) {
            return None;
        }
        let total: usize = self.opportunistic.len();
        if total < MAX_OPPORTUNISTIC_ENDPOINT_PEERS {
            return None;
        }
        let mut first: PeerId = self.opportunistic.key_at(0);
        let mut expires_at: u64 = self.opportunistic.value_at(0).expires_at;
        let mut i: usize = 1;
        while i < total
            invariant
                1 <= i <= total == self.opportunistic.order().len(),
                self.wf(),
                self.opportunistic@.contains_key(first),
                self.opportunistic@[first].expires_at == expires_at,
                forall|k: int|
                    0 <= k < i ==> {
                        let other = #[trigger] self.opportunistic.order()[k];
                        expires_at < self.opportunistic@[other].expires_at || expires_at
                            == self.opportunistic@[other].expires_at && (first == other
                            || peer_precedes(first, other))
                    },
            decreases total - i,
        {
            let key: PeerId = self.opportunistic.key_at(i);
            let other: u64 = self.opportunistic.value_at(i).expires_at;
            let ghost before = first;
            if other < expires_at || (other == expires_at && key.precedes(&first)) {
                proof {
                    assert forall|k: int| 0 <= k < i implies ({
                        let o = #[trigger] self.opportunistic.order()[k];
                        other < self.opportunistic@[o].expires_at || other
                            == self.opportunistic@[o].expires_at && (key == o || peer_precedes(
                            key,
                            o,
                        ))
                    }) by {
                        let o = self.opportunistic.order()[k];
                        if other == expires_at && expires_at == self.opportunistic@[o].expires_at {
                            if first != o {
                                lemma_precedes_transitive(key, first, o);
                            }
                        }
                    }
                }
                first = key;
                expires_at = other;
            } else {
                proof {
                    if other == expires_at && key != first {
                        lemma_precedes_total(key, first);
                    }
                }
            }
            i += 1;
        }
        proof {
            self.opportunistic.lemma_order();
            assert forall|other: PeerId| #[trigger]
                self.opportunistic@.contains_key(other) implies expires_at
                < self.opportunistic@[other].expires_at || expires_at
                == self.opportunistic@[other].expires_at && (first == other || peer_precedes(
                first,
                other,
            )) by {
                let k = choose|k: int|
                    0 <= k < self.opportunistic.order().len() && self.opportunistic.order()[k]
                        == other;
                assert(self.opportunistic.order()[k] == other);
            }
            assert(self@.is_first_unknown(first));
            let chosen = choose|p: PeerId| #[trigger] self@.is_first_unknown(p);
            assert(self@.is_first_unknown(chosen));
            assert(self@.opportunistic.contains_key(chosen));
            assert(self@.opportunistic.contains_key(first));
            if chosen != first {
                lemma_precedes_antisymmetric(chosen, first);
            }
        }
        Some(first)
    }

    /// Notes an address of an unknown peer; says whether there was room.
    pub fn note_opportunistic(&mut self, peer: PeerId, address: &Multiaddr, now: u64) -> (noted:
        bool)
        requires
            old(self).wf(),
        ensures
            final(self).wf(),
            final(self)@ == old(self)@.noted(peer, address@, now),
            noted == old(self)@.has_room(peer, address@),
    {
        let mut known = match self.opportunistic.remove(peer) {
            Some(known) => known,
            None => LearnedAddresses {
                addresses: AddressSet::new(),
                expires_at: now.saturating_add(900_000),
            },
        };
        let noted = known.addresses.contains(address) || known.addresses.len()
            < self.limits.per_peer;
        if noted {
            let _ = known.addresses.insert(address.duplicate());
            known.expires_at = now.saturating_add(900_000);
        }
        self.opportunistic.insert(peer, known);
        assert(self.opportunistic@ =~= old(self)@.noted(peer, address@, now).opportunistic);
        noted
    }

    pub fn has_full_scope(&self, peer: PeerId, address: &Multiaddr) -> (result: bool)
        requires
            self.wf(),
        ensures
            result == self@.scopes_full(peer, address@),
    {
        let test = FullScopeTest { peer, address, per_peer: self.limits.per_peer };
        let found = self.recovery.any(&test);
        proof {
            if self@.scopes_full(peer, address@) {
                let s = choose|s: u128| #[trigger]
                    self@.recovery.contains_key(s) && self@.recovery[s].addresses.contains_key(peer)
                        && !self@.recovery[s].addresses[peer].contains(address@)
                        && self@.recovery[s].addresses[peer].len() >= self@.limits.per_peer;
                assert(self.recovery@.contains_key(s) && test.passes(s, self.recovery@[s]));
            }
        }
        found
    }

    pub fn is_scoped(&self, peer: PeerId) -> (result: bool)
        requires
            self.wf(),
        ensures
            result == (self@.scopes_of(peer) != Set::<u128>::empty()),
    {
        let found = self.in_some_scope(peer);
        proof {
            if found {
                let s = choose|s: u128| #[trigger]
                    self@.recovery.contains_key(s) && self@.recovery[s].addresses.contains_key(
                        peer,
                    );
                assert(self@.scopes_of(peer).contains(s));
            } else {
                assert(self@.scopes_of(peer) =~= Set::empty());
            }
        }
        found
    }

    /// Adds an address in every attempt that keeps addresses of the peer.
    pub fn add_to_scopes(&mut self, peer: PeerId, address: &Multiaddr)
        requires
            old(self).wf(),
        ensures
            final(self).wf(),
            final(self)@ == old(self)@.scoped_with(peer, address@),
    {
        let test = ScopeTest { peer };
        let scopes = self.recovery.select(&test);
        let ghost before = self@.recovery;
        let ghost after = self@.scoped_with(peer, address@).recovery;
        proof {
            assert forall|k: int| 0 <= k < scopes@.len() implies before.contains_key(
                #[trigger] scopes@[k],
            ) && before[scopes@[k]].addresses.contains_key(peer) by {
                assert(scopes@.to_set().contains(scopes@[k]));
            }
        }
        let mut i: usize = 0;
        while i < scopes.len()
            invariant
                i <= scopes@.len(),
                self.wf(),
                scopes@.no_duplicates(),
                before == old(self)@.recovery,
                after == old(self)@.scoped_with(peer, address@).recovery,
                forall|k: int|
                    0 <= k < scopes@.len() ==> before.contains_key(#[trigger] scopes@[k])
                        && before[scopes@[k]].addresses.contains_key(peer),
                self.recovery@.dom() == before.dom(),
                forall|s: u128| #[trigger]
                    before.contains_key(s) ==> self.recovery@[s] == (if scopes@.take(
                        i as int,
                    ).contains(s) {
                        after[s]
                    } else {
                        before[s]
                    }),
                ({
                    let changed = self@;
                    let start = old(self)@;
                    BookModel { recovery: before, ..changed } == start
                }),
            decreases scopes@.len() - i,
        {
            let scope: u128 = scopes[i];
            proof {
                assert(before.contains_key(scope));
                assert(!scopes@.take(i as int).contains(scope)) by {
                    if scopes@.take(i as int).contains(scope) {
                        let k = choose|k: int|
                            0 <= k < i && scopes@.take(i as int)[k] == scope;
                        assert(scopes@[k] == scopes@[i as int]);
                    }
                }
                assert(self.recovery@.contains_key(scope));
            }
            let ghost prior = self.recovery@;
            if let Some(entry) = self.recovery.remove(scope) {
                let mut entry = entry;
                let mut known = match entry.addresses.remove(peer) {
                    Some(known) => known,
                    None => AddressSet::new(),
                };
                let _ = known.insert(address.duplicate());
                entry.addresses.insert(peer, known);
                proof {
                    assert(entry.stored().addresses =~= after[scope].addresses);
                    assert(entry.stored() == after[scope]);
                }
                self.recovery.insert(scope, entry);
            }
            proof {
                let taken = scopes@.take(i as int);
                let next = scopes@.take(i + 1);
                assert(next =~= taken.push(scope));
                crate::ordered::lemma_push_set(taken, scope);
                assert(self.recovery@.dom() =~= before.dom());
                assert forall|s: u128| #[trigger] before.contains_key(s) implies self.recovery@[s]
                    == (if next.contains(s) {
                    after[s]
                } else {
                    before[s]
                }) by {
                    assert(next.contains(s) == next.to_set().contains(s));
                    assert(taken.contains(s) == taken.to_set().contains(s));
                }
            }
            i += 1;
        }
        proof {
            assert(scopes@.take(i as int) =~= scopes@);
            assert forall|s: u128| #[trigger] before.contains_key(s) implies self.recovery@[s]
                == after[s] by {
                if scopes@.contains(s) {
                    assert(scopes@.to_set().contains(s));
                } else {
                    assert(!scopes@.to_set().contains(s));
                    assert(!before[s].addresses.contains_key(peer));
                }
            }
            assert(self.recovery@ =~= after);
        }
    }

    /// Keeps addresses of a peer for a recovery attempt.
    pub fn add_recovery(
        &mut self,
        scope: u128,
        peer: PeerId,
        addresses: &Vec<Multiaddr>,
        expires_at_unix: u64,
        now_unix: u64,
        now: u64,
    ) -> (problem: Option<RecoveryAddressError>)
        requires
            old(self).wf(),
        ensures
            final(self).wf(),
            (final(self)@, problem) == old(self)@.scoped(
                scope,
                peer,
                views(addresses@),
                expires_at_unix,
                now_unix,
                now,
            ),
    {
        let ghost outcome = self@.scoped(
            scope,
            peer,
            views(addresses@),
            expires_at_unix,
            now_unix,
            now,
        );
        if addresses.len() == 0 || addresses.len() > self.limits.per_peer || expires_at_unix
            <= now_unix {
            return Some(RecoveryAddressError::Invalid);
        }
        if !self.recovery.has(scope) && self.recovery.len() >= MAX_RECOVERY_ADDRESS_SCOPES {
            return Some(RecoveryAddressError::TooManyScopes);
        }
        let mut entry = match self.recovery.remove(scope) {
            Some(entry) => entry,
            None => RecoveryAddresses {
                addresses: Table::new(),
                expires_at: now.saturating_add(900_000),
            },
        };
        let ghost start = entry.stored();
        if !entry.addresses.has(peer) && entry.addresses.len() >= MAX_RECOVERY_ADDRESS_PEERS {
            self.recovery.insert(scope, entry);
            assert(self.recovery@ =~= outcome.0.recovery);
            return Some(RecoveryAddressError::TooManyPeers);
        }
        let at: u64 = expiry_time(expires_at_unix, now_unix, now);
        let until: u64 = match self.quarantine.get(peer) {
            Some(current) => {
                if *current > at {
                    *current
                } else {
                    at
                }
            },
            None => {
                if self.quarantine.len() >= MAX_RECOVERY_QUARANTINED_PEERS {
                    self.recovery.insert(scope, entry);
                    assert(self.recovery@ =~= outcome.0.recovery);
                    return Some(RecoveryAddressError::TooManyQuarantined);
                }
                at
            },
        };
        self.quarantine.insert(peer, until);
        if at < entry.expires_at {
            entry.expires_at = at;
        }
        let mut known = match entry.addresses.remove(peer) {
            Some(known) => known,
            None => AddressSet::new(),
        };
        let problem = fill_in(self.mode, self.limits.per_peer, peer, &mut known, addresses);
        entry.addresses.insert(peer, known);
        assert(entry.addresses@ =~= outcome.0.recovery[scope].addresses);
        self.recovery.insert(scope, entry);
        assert(self.recovery@ =~= outcome.0.recovery);
        problem
    }

    /// Ends a recovery attempt; the peers of which it kept addresses, in
    /// order.
    pub fn clear_recovery(&mut self, scope: u128) -> (peers: Vec<PeerId>)
        requires
            old(self).wf(),
        ensures
            final(self).wf(),
            final(self)@ == old(self)@.without_scope(scope),
            peers@ == sorted_peers(old(self)@.scope_peers(scope)),
    {
        proof {
            lemma_peer_rank_tells_apart();
        }
        match self.recovery.remove(scope) {
            Some(entry) => {
                let keys = entry.addresses.sorted_keys();
                proof {
                    keys.lemma_sorted();
                }
                let peers = keys.to_vec();
                assert(models(peers@) =~= peers@);
                peers
            },
            None => {
                let none: crate::address::PeerSet = crate::address::PeerSet::new();
                proof {
                    none.lemma_sorted();
                }
                let peers = none.to_vec();
                assert(models(peers@) =~= peers@);
                peers
            },
        }
    }

    /// The recovery attempts whose time is over, in order.
    pub fn expired_scopes(&self, now: u64) -> (scopes: Vec<u128>)
        requires
            self.wf(),
        ensures
            scopes@ == sorted_list::<u128>(self@.expired_scopes(now)),
    {
        let test = ExpiredScopeTest { now };
        let found = self.recovery.select(&test);
        proof {
            crate::ordered::lemma_scope_rank_tells_apart();
            assert(found@.to_set() =~= self@.expired_scopes(now));
        }
        let sorted = sort_ranked(&found);
        assert(models(found@) =~= found@);
        assert(models(sorted@) =~= sorted@);
        sorted
    }

    pub fn expire_quarantine(&mut self, now: u64)
        requires
            old(self).wf(),
        ensures
            final(self).wf(),
            final(self)@ == old(self)@.quarantine_expired(now),
    {
        let test = ExpiredPeerTest { now };
        self.quarantine.discard(&test);
        assert(self.quarantine@ =~= old(self)@.quarantine_expired(now).quarantine);
    }

    /// The peers whose learned addresses are past their time, in order.
    pub fn expired_learned(&self, now: u64) -> (peers: Vec<PeerId>)
        requires
            self.wf(),
        ensures
            peers@ == sorted_peers(self@.expired_learned(now)),
    {
        let test = ExpiredPeerTest { now };
        let found = self.learned.select(&test);
        proof {
            lemma_peer_rank_tells_apart();
            assert(found@.to_set() =~= self@.expired_learned(now));
        }
        let sorted = sort_ranked(&found);
        assert(models(found@) =~= found@);
        assert(models(sorted@) =~= sorted@);
        sorted
    }

    /// The unknown peers whose addresses are past their time, in order.
    pub fn expired_opportunistic(&self, now: u64) -> (peers: Vec<PeerId>)
        requires
            self.wf(),
        ensures
            peers@ == sorted_peers(self@.expired_opportunistic(now)),
    {
        let test = ExpiredPeerTest { now };
        let found = self.opportunistic.select(&test);
        proof {
            lemma_peer_rank_tells_apart();
            assert(found@.to_set() =~= self@.expired_opportunistic(now));
        }
        let sorted = sort_ranked(&found);
        assert(models(found@) =~= found@);
        assert(models(sorted@) =~= sorted@);
        sorted
    }

    pub fn set_members(&mut self, members: KeySet<PeerId>)
        requires
            old(self).wf(),
            members.wf(),
        ensures
            final(self).wf(),
            final(self)@ == old(self)@.with_members(members@),
    {
        self.relay_members = members;
    }
}

fn fill_in(
    mode: TorMode,
    per_peer: usize,
    peer: PeerId,
    set: &mut AddressSet,
    addresses: &Vec<Multiaddr>,
) -> (problem: Option<RecoveryAddressError>)
    requires
        old(set).wf(),
    ensures
        final(set).wf(),
        (final(set)@, problem) == filled_in(
            mode,
            per_peer as nat,
            peer,
            old(set)@,
            views(addresses@),
        ),
{
    let ghost all = views(addresses@);
    let mut i: usize = 0;
    assert(all.take(0) =~= Seq::empty());
    while i < addresses.len()
        invariant
            i <= addresses@.len(),
            all == views(addresses@),
            set.wf(),
            (set@, None::<RecoveryAddressError>) == filled_in(
                mode,
                per_peer as nat,
                peer,
                old(set)@,
                all.take(i as int),
            ),
        decreases addresses@.len() - i,
    {
        let ghost next = all.take(i + 1);
        proof {
            assert(next.drop_last() =~= all.take(i as int));
            assert(next.last() == addresses@[i as int]@);
        }
        match normalize_known_address(peer, addresses[i].duplicate()) {
            Err(problem) => {
                proof {
                    lemma_filled_in_stays(mode, per_peer as nat, peer, old(set)@, all, i + 1);
                }
                return Some(RecoveryAddressError::Address(problem));
            },
            Ok(base) => {
                if address_allowed_by_tor_mode(mode, &base) {
                    if !set.contains(&base) && set.len() >= per_peer {
                        proof {
                            lemma_filled_in_stays(
                                mode,
                                per_peer as nat,
                                peer,
                                old(set)@,
                                all,
                                i + 1,
                            );
                        }
                        return Some(RecoveryAddressError::TooManyEndpoints);
                    }
                    let _ = set.insert(base);
                }
            },
        }
        i += 1;
    }
    assert(all.take(i as int) =~= all);
    None
}

proof fn lemma_filled_in_stays(
    mode: TorMode,
    per_peer: nat,
    peer: PeerId,
    set: Set<Seq<Component>>,
    addresses: Seq<Seq<Component>>,
    n: int,
)
    requires
        0 <= n <= addresses.len(),
        filled_in(mode, per_peer, peer, set, addresses.take(n)).1 is Some,
    ensures
        filled_in(mode, per_peer, peer, set, addresses) == filled_in(
            mode,
            per_peer,
            peer,
            set,
            addresses.take(n),
        ),
    decreases addresses.len() - n,
{
    if n < addresses.len() {
        assert(addresses.take(n + 1).drop_last() =~= addresses.take(n));
        lemma_filled_in_stays(mode, per_peer, peer, set, addresses, n + 1);
    } else {
        assert(addresses.take(n) =~= addresses);
    }
}

proof fn lemma_first_address_problem_stays(
    peer: PeerId,
    addresses: Seq<Seq<Component>>,
    n: int,
)
    requires
        0 <= n <= addresses.len(),
        first_address_problem(peer, addresses.take(n)) is Some,
    ensures
        first_address_problem(peer, addresses) == first_address_problem(peer, addresses.take(n)),
    decreases addresses.len() - n,
{
    if n < addresses.len() {
        assert(addresses.take(n + 1).drop_last() =~= addresses.take(n));
        lemma_first_address_problem_stays(peer, addresses, n + 1);
    } else {
        assert(addresses.take(n) =~= addresses);
    }
}

proof fn lemma_usable_step(
    mode: TorMode,
    peer: PeerId,
    before: Seq<Seq<Component>>,
    address: Seq<Component>,
)
    requires
        normalized(peer, address) is Ok,
    ensures
        usable_addresses(mode, peer, before.push(address)) == (if address_allowed(
            mode,
            normalized(peer, address)->Ok_0,
        ) {
            usable_addresses(mode, peer, before).insert(normalized(peer, address)->Ok_0)
        } else {
            usable_addresses(mode, peer, before)
        }),
{
    let after = before.push(address);
    let base = normalized(peer, address)->Ok_0;
    let expected = if address_allowed(mode, base) {
        usable_addresses(mode, peer, before).insert(base)
    } else {
        usable_addresses(mode, peer, before)
    };
    assert forall|a: Seq<Component>| usable_addresses(mode, peer, after).contains(a)
        == expected.contains(a) by {
        if usable_addresses(mode, peer, before).contains(a) {
            let k = choose|k: int|
                0 <= k < before.len() && normalized(peer, #[trigger] before[k]) == Ok::<
                    Seq<Component>,
                    KnownAddressProblem,
                >(a);
            assert(after[k] == before[k]);
        }
        if a == base {
            assert(after[before.len() as int] == address);
        }
        if usable_addresses(mode, peer, after).contains(a) {
            let k = choose|k: int|
                0 <= k < after.len() && normalized(peer, #[trigger] after[k]) == Ok::<
                    Seq<Component>,
                    KnownAddressProblem,
                >(a);
            if k < before.len() {
                assert(before[k] == after[k]);
            }
        }
    }
    assert(usable_addresses(mode, peer, after) =~= expected);
}

proof fn lemma_usable_count(mode: TorMode, peer: PeerId, addresses: Seq<Seq<Component>>)
    ensures
        usable_addresses(mode, peer, addresses).finite(),
        usable_addresses(mode, peer, addresses).len() <= addresses.len(),
    decreases addresses.len(),
{
    if addresses.len() == 0 {
        assert(usable_addresses(mode, peer, addresses) =~= Set::empty());
    } else {
        let before = addresses.drop_last();
        lemma_usable_count(mode, peer, before);
        assert(before.push(addresses.last()) =~= addresses);
        if normalized(peer, addresses.last()) is Ok {
            lemma_usable_step(mode, peer, before, addresses.last());
        } else {
            assert forall|a: Seq<Component>|
                usable_addresses(mode, peer, addresses).contains(a) == usable_addresses(
                    mode,
                    peer,
                    before,
                ).contains(a) by {
                if usable_addresses(mode, peer, addresses).contains(a) {
                    let k = choose|k: int|
                        0 <= k < addresses.len() && normalized(peer, #[trigger] addresses[k])
                            == Ok::<Seq<Component>, KnownAddressProblem>(a);
                    assert(before[k] == addresses[k]);
                }
                if usable_addresses(mode, peer, before).contains(a) {
                    let k = choose|k: int|
                        0 <= k < before.len() && normalized(peer, #[trigger] before[k]) == Ok::<
                            Seq<Component>,
                            KnownAddressProblem,
                        >(a);
                    assert(before[k] == addresses[k]);
                }
            }
            assert(usable_addresses(mode, peer, addresses) =~= usable_addresses(
                mode,
                peer,
                before,
            ));
        }
    }
}

proof fn lemma_filled_in_count(
    mode: TorMode,
    per_peer: nat,
    peer: PeerId,
    set: Set<Seq<Component>>,
    addresses: Seq<Seq<Component>>,
)
    requires
        set.finite(),
        set.len() <= per_peer,
    ensures
        filled_in(mode, per_peer, peer, set, addresses).0.finite(),
        filled_in(mode, per_peer, peer, set, addresses).0.len() <= per_peer,
    decreases addresses.len(),
{
    if addresses.len() > 0 {
        lemma_filled_in_count(mode, per_peer, peer, set, addresses.drop_last());
    }
}

proof fn lemma_first_among(book: BookModel, peers: Set<PeerId>) -> (first: PeerId)
    requires
        peers.finite(),
        peers.len() > 0,
    ensures
        peers.contains(first),
        forall|other: PeerId| #[trigger]
            peers.contains(other) ==> book.opportunistic[first].expires_at
                < book.opportunistic[other].expires_at || book.opportunistic[first].expires_at
                == book.opportunistic[other].expires_at && (first == other || peer_precedes(
                first,
                other,
            )),
    decreases peers.len(),
{
    let one = peers.choose();
    let rest = peers.remove(one);
    if rest.len() == 0 {
        assert forall|other: PeerId| #[trigger] peers.contains(other) implies other == one by {
            if other != one {
                assert(rest.contains(other));
                assert(rest =~= Set::empty());
            }
        }
        one
    } else {
        let first = lemma_first_among(book, rest);
        let a = book.opportunistic[one].expires_at;
        let b = book.opportunistic[first].expires_at;
        if a < b || (a == b && peer_precedes(one, first)) {
            assert forall|other: PeerId| #[trigger] peers.contains(other) implies a
                < book.opportunistic[other].expires_at || a == book.opportunistic[other].expires_at
                && (one == other || peer_precedes(one, other)) by {
                if other != one {
                    assert(rest.contains(other));
                    if a == b && b == book.opportunistic[other].expires_at && first != other {
                        lemma_precedes_transitive(one, first, other);
                    }
                }
            }
            one
        } else {
            if a == b && one != first {
                lemma_precedes_total(one, first);
            }
            assert forall|other: PeerId| #[trigger] peers.contains(other) implies b
                < book.opportunistic[other].expires_at || b == book.opportunistic[other].expires_at
                && (first == other || peer_precedes(first, other)) by {
                if other != one {
                    assert(rest.contains(other));
                }
            }
            first
        }
    }
}

/// Where an unknown peer must make room for another, there is one that is
/// forgotten first.
pub proof fn someone_makes_room(book: BookModel, peer: PeerId)
    requires
        book.opportunistic.dom().finite(),
    ensures
        book.evicted(peer) matches Some(evicted) ==> book.is_first_unknown(evicted),
{
    if book.evicted(peer) is Some {
        let first = lemma_first_among(book, book.opportunistic.dom());
        assert(book.is_first_unknown(first));
    }
}

/// However addresses come in or go, the caches keep to their limits, of peers
/// and attempts as of addresses per peer: what would pass them is refused, or
/// takes the place of what expires first.
pub proof fn caches_stay_bounded(
    book: BookModel,
    peer: PeerId,
    address: Seq<Component>,
    addresses: Seq<Seq<Component>>,
    scope: u128,
    expires_at_unix: u64,
    now_unix: u64,
    now: u64,
)
    requires
        book.bounded(),
    ensures
        book.learn_problem(peer, address) is None && book.learnable(peer, address)
            ==> book.learned_with(peer, address, now).bounded(),
        book.replace_problem(peer, addresses, expires_at_unix, now_unix) is None
            ==> book.replaced(peer, addresses, expires_at_unix, now_unix, now).bounded(),
        book.evicted(peer) is None ==> book.noted(peer, address, now).bounded(),
        book.evicted(peer) matches Some(evicted) ==> book.without_opportunistic(evicted).noted(
            peer,
            address,
            now,
        ).bounded(),
        book.scoped(scope, peer, addresses, expires_at_unix, now_unix, now).0.bounded(),
        !book.scopes_full(peer, address) ==> book.scoped_with(peer, address).bounded(),
        book.without_learned(peer).bounded(),
        book.without_opportunistic(peer).bounded(),
        book.without_scope(scope).bounded(),
        book.quarantine_expired(now).bounded(),
{
    lemma_learning_keeps_limits(book, peer, address, addresses, expires_at_unix, now_unix, now);
    someone_makes_room(book, peer);
    lemma_noting_keeps_limits(book, peer, address, now);
    lemma_scoped_keeps_limits(book, peer, addresses, scope, expires_at_unix, now_unix, now);
    lemma_scoped_with_keeps_limits(book, peer, address);
    assert(book.learned.remove(peer).dom() =~= book.learned.dom().remove(peer));
    assert(book.opportunistic.remove(peer).dom() =~= book.opportunistic.dom().remove(peer));
    assert(book.recovery.remove(scope).dom() =~= book.recovery.dom().remove(scope));
    let kept = book.quarantine.dom().filter(|other: PeerId| book.quarantine[other] > now);
    assert(book.quarantine.restrict(kept).dom() =~= kept);
    vstd::set_lib::lemma_len_subset(kept, book.quarantine.dom());
    let cases = (
        book.without_learned(peer),
        book.without_opportunistic(peer),
        book.without_scope(scope),
        book.quarantine_expired(now),
    );
    lemma_same_limits(book, cases.0);
    lemma_same_limits(book, cases.1);
    lemma_same_limits(book, cases.2);
    lemma_same_limits(book, cases.3);
}

/// What is within the limits of a book is within the same limits of another.
proof fn lemma_same_limits(book: BookModel, other: BookModel)
    requires
        book.limits == other.limits,
    ensures
        forall|set: Set<Seq<Component>>| #[trigger] book.within(set) == other.within(set),
        forall|attempt: RecoveryModel| #[trigger]
            book.attempt_within(attempt) ==> other.attempt_within(attempt),
{
    assert forall|attempt: RecoveryModel| #[trigger] book.attempt_within(attempt) implies
        other.attempt_within(attempt) by {
        assert forall|peer: PeerId| #[trigger] attempt.addresses.contains_key(peer) implies
            other.within(attempt.addresses[peer]) by {
            assert(book.within(attempt.addresses[peer]));
        }
    }
}

proof fn lemma_learning_keeps_limits(
    book: BookModel,
    peer: PeerId,
    address: Seq<Component>,
    addresses: Seq<Seq<Component>>,
    expires_at_unix: u64,
    now_unix: u64,
    now: u64,
)
    requires
        book.bounded(),
    ensures
        book.learn_problem(peer, address) is None && book.learnable(peer, address)
            ==> book.learned_with(peer, address, now).bounded(),
        book.replace_problem(peer, addresses, expires_at_unix, now_unix) is None
            ==> book.replaced(peer, addresses, expires_at_unix, now_unix, now).bounded(),
{
    let learned = book.learned_with(peer, address, now);
    let replaced = book.replaced(peer, addresses, expires_at_unix, now_unix, now);
    lemma_same_limits(book, learned);
    lemma_same_limits(book, replaced);
    lemma_usable_count(book.mode, peer, addresses);
    let usable = usable_addresses(book.mode, peer, addresses);
    if addresses.len() == 0 {
        assert(usable =~= Set::empty());
    }
    assert(book.learned.remove(peer).dom() =~= book.learned.dom().remove(peer));
    if book.learn_problem(peer, address) is None && book.learnable(peer, address) {
        assert(learned.within(learned.learned[peer].addresses));
    }
    if book.replace_problem(peer, addresses, expires_at_unix, now_unix) is None {
        assert(book.within(usable));
    }
}

proof fn lemma_noting_keeps_limits(
    book: BookModel,
    peer: PeerId,
    address: Seq<Component>,
    now: u64,
)
    requires
        book.bounded(),
    ensures
        book.evicted(peer) is None ==> book.noted(peer, address, now).bounded(),
        book.evicted(peer) matches Some(evicted) ==> book.opportunistic.contains_key(evicted)
            ==> book.without_opportunistic(evicted).noted(peer, address, now).bounded(),
{
    let noted = book.noted(peer, address, now);
    lemma_same_limits(book, noted);
    assert(noted.within(noted.opportunistic[peer].addresses));
    if book.evicted(peer) is Some {
        let evicted = book.evicted(peer)->0;
        let room = book.without_opportunistic(evicted);
        let after = room.noted(peer, address, now);
        lemma_same_limits(book, after);
        assert(after.within(after.opportunistic[peer].addresses));
        if book.opportunistic.contains_key(evicted) {
            assert(book.opportunistic.remove(evicted).dom() =~= book.opportunistic.dom().remove(
                evicted,
            ));
        }
    }
}

proof fn lemma_scoped_keeps_limits(
    book: BookModel,
    peer: PeerId,
    addresses: Seq<Seq<Component>>,
    scope: u128,
    expires_at_unix: u64,
    now_unix: u64,
    now: u64,
)
    requires
        book.bounded(),
    ensures
        book.scoped(scope, peer, addresses, expires_at_unix, now_unix, now).0.bounded(),
{
    let after = book.scoped(scope, peer, addresses, expires_at_unix, now_unix, now).0;
    lemma_same_limits(book, after);
    let entry = if book.recovery.contains_key(scope) {
        book.recovery[scope]
    } else {
        RecoveryModel { addresses: Map::empty(), expires_at: full_life(now) }
    };
    assert(book.attempt_within(entry));
    let known = if entry.addresses.contains_key(peer) {
        entry.addresses[peer]
    } else {
        Set::empty()
    };
    assert(book.within(known));
    lemma_filled_in_count(book.mode, book.limits.per_peer as nat, peer, known, addresses);
    let filled = filled_in(book.mode, book.limits.per_peer as nat, peer, known, addresses).0;
    let wider = entry.addresses.insert(peer, filled);
    assert(wider.dom() =~= entry.addresses.dom().insert(peer));
    if after.recovery.contains_key(scope) {
        let changed = after.recovery[scope];
        assert forall|other: PeerId| #[trigger] changed.addresses.contains_key(other) implies
            after.within(changed.addresses[other]) by {
            if other != peer {
                assert(entry.addresses.contains_key(other));
                assert(book.within(entry.addresses[other]));
            } else if changed.addresses == entry.addresses {
                assert(book.within(entry.addresses[other]));
            }
        }
    }
}

proof fn lemma_scoped_with_keeps_limits(book: BookModel, peer: PeerId, address: Seq<Component>)
    requires
        book.bounded(),
    ensures
        !book.scopes_full(peer, address) ==> book.scoped_with(peer, address).bounded(),
{
    let after = book.scoped_with(peer, address);
    lemma_same_limits(book, after);
    assert(after.recovery.dom() =~= book.recovery.dom());
    if !book.scopes_full(peer, address) {
        assert forall|scope: u128| #[trigger] after.recovery.contains_key(scope) implies
            after.attempt_within(after.recovery[scope]) by {
            assert(book.recovery.contains_key(scope));
            let before = book.recovery[scope];
            let changed = after.recovery[scope];
            assert(book.attempt_within(before));
            assert(changed.addresses.dom() =~= before.addresses.dom());
            assert forall|other: PeerId| #[trigger] changed.addresses.contains_key(other) implies
                after.within(changed.addresses[other]) by {
                assert(before.addresses.contains_key(other));
                assert(book.within(before.addresses[other]));
            }
        }
    }
}

proof fn lemma_precedes_transitive(a: PeerId, b: PeerId, c: PeerId)
    requires
        peer_precedes(a, b),
        peer_precedes(b, c),
    ensures
        peer_precedes(a, c),
{
    crate::ordered::lemma_lex_transitive(
        <PeerId as crate::ordered::Ranked>::rank_of(a),
        <PeerId as crate::ordered::Ranked>::rank_of(b),
        <PeerId as crate::ordered::Ranked>::rank_of(c),
    );
    if a == c {
        lemma_precedes_antisymmetric(a, b);
    }
}

proof fn lemma_precedes_total(a: PeerId, b: PeerId)
    requires
        a != b,
        !peer_precedes(a, b),
    ensures
        peer_precedes(b, a),
{
    crate::ordered::lemma_lex_total(
        <PeerId as crate::ordered::Ranked>::rank_of(a),
        <PeerId as crate::ordered::Ranked>::rank_of(b),
    );
}

/// Of two peers at most one comes before the other.
pub proof fn lemma_precedes_antisymmetric(a: PeerId, b: PeerId)
    requires
        peer_precedes(a, b),
    ensures
        !peer_precedes(b, a),
{
    if peer_precedes(b, a) {
        crate::ordered::lemma_lex_antisymmetric(
            <PeerId as crate::ordered::Ranked>::rank_of(a),
            <PeerId as crate::ordered::Ranked>::rank_of(b),
        );
        lemma_peer_rank_tells_apart();
    }
}

} // verus!
