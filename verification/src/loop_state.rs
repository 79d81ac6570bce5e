//! The state of a node's event loop, and what the loop asks of the transport.

use crate::address::{sorted_peers, AddressSet, Component, Multiaddr, PeerId};
use crate::book::{Book, BookModel};
use crate::endpoints::EndpointLimits;
use crate::ids::Id32;
use crate::links::{Links, LinksModel};
use crate::metrics::{ByPath, LogModel, SessionLog, TransferCounters};
use crate::policy::{path_of_address, P2pPath};
use crate::table::{EntryTest, KeySet, Stored, Table};
use crate::tor::TorMode;
use vstd::prelude::*;

verus! {

/// Why a dial was made.
#[derive(Clone, Copy, Debug, PartialEq, Eq, Structural)]
pub enum PolicyDialKind {
    /// To reach the peer at the selected tier.
    Selected,
    /// To try a tier that is preferred to the selected one.
    PreferredProbe,
}

/// A dial that the loop asked for and that is not yet decided.
#[derive(Clone, Copy, Debug)]
pub struct PolicyDial {
    pub peer: PeerId,
    pub tier: u8,
    pub path: P2pPath,
    pub kind: PolicyDialKind,
}

/// A better tier that is selected once its connection has lasted.
#[derive(Clone, Copy, Debug)]
pub struct TransportPromotion {
    pub tier: u8,
    pub deadline: u64,
}

/// A request of this node to a peer. Times are milliseconds of a steady clock.
#[derive(Clone, Copy, Debug)]
pub struct PendingRequest {
    pub cancellation_id: u128,
    pub peer: PeerId,
    /// The node key that must sign the response.
    pub recipient: Id32,
    /// The node key that the response must name.
    pub response_recipient: Id32,
    pub request_id: u128,
    pub request_hash: Id32,
    pub request_bytes: u64,
    pub transport_tier: u8,
    pub attempts: u8,
    pub deadline: u64,
    pub started_at: u64,
    /// The caller has no answer yet and still wants one.
    pub waiting: bool,
}

/// A response that was handed to the transport and is not yet sent.
#[derive(Clone, Copy, Debug)]
pub struct PendingResponse {
    pub peer: PeerId,
    pub path: Option<P2pPath>,
    pub bytes: u64,
}

/// What a caller is told of its request.
#[derive(Clone, Copy, Debug, PartialEq, Eq, Structural)]
pub enum RequestOutcome {
    DeadlineExpired,
    AttemptsExhausted,
    TiersExhausted,
    WrongPeer,
    Failed,
    /// The response does not belong to the request.
    Mismatched,
    /// The response belongs to the request, and is handed to the caller.
    Answered,
}

impl Stored for PolicyDial {
    type Model = PolicyDial;

    open spec fn stored(&self) -> PolicyDial {
        *self
    }

    open spec fn sound(&self) -> bool {
        true
    }
}

impl Stored for TransportPromotion {
    type Model = TransportPromotion;

    open spec fn stored(&self) -> TransportPromotion {
        *self
    }

    open spec fn sound(&self) -> bool {
        true
    }
}

impl Stored for PendingRequest {
    type Model = PendingRequest;

    open spec fn stored(&self) -> PendingRequest {
        *self
    }

    open spec fn sound(&self) -> bool {
        true
    }
}

impl Stored for PendingResponse {
    type Model = PendingResponse;

    open spec fn stored(&self) -> PendingResponse {
        *self
    }

    open spec fn sound(&self) -> bool {
        true
    }
}

impl Stored for P2pPath {
    type Model = P2pPath;

    open spec fn stored(&self) -> P2pPath {
        *self
    }

    open spec fn sound(&self) -> bool {
        true
    }
}

impl Stored for PeerId {
    type Model = PeerId;

    open spec fn stored(&self) -> PeerId {
        *self
    }

    open spec fn sound(&self) -> bool {
        true
    }
}

/// What the loop asks of the transport.
pub enum Action {
    /// Take addresses of a peer away and add others, for dialling and for
    /// routing in the DHT.
    Readdress { peer: PeerId, removed: AddressSet, added: AddressSet },
    /// Dial a peer at these addresses, whatever connections there are.
    Dial { connection: u64, peer: PeerId, addresses: AddressSet },
    Close { connection: u64 },
    Send { request: u64, cancellation_id: u128, peer: PeerId },
    /// Tell a caller how its request ended.
    Finish { cancellation_id: u128, outcome: RequestOutcome },
    /// Add an address of a peer for routing in the DHT alone.
    AddRoute { peer: PeerId, address: Multiaddr },
    RemoveRoutes { peer: PeerId, addresses: AddressSet },
}

/// What an action is, for contracts.
pub enum ActionModel {
    Readdress { peer: PeerId, removed: Set<Seq<Component>>, added: Set<Seq<Component>> },
    Dial { connection: u64, peer: PeerId, addresses: Set<Seq<Component>> },
    Close { connection: u64 },
    Send { request: u64, cancellation_id: u128, peer: PeerId },
    Finish { cancellation_id: u128, outcome: RequestOutcome },
    AddRoute { peer: PeerId, address: Seq<Component> },
    RemoveRoutes { peer: PeerId, addresses: Set<Seq<Component>> },
}

impl Action {
    pub open spec fn view(&self) -> ActionModel {
        match self {
            Action::Readdress { peer, removed, added } => ActionModel::Readdress {
                peer: *peer,
                removed: removed@,
                added: added@,
            },
            Action::Dial { connection, peer, addresses } => ActionModel::Dial {
                connection: *connection,
                peer: *peer,
                addresses: addresses@,
            },
            Action::Close { connection } => ActionModel::Close { connection: *connection },
            Action::Send { request, cancellation_id, peer } => ActionModel::Send {
                request: *request,
                cancellation_id: *cancellation_id,
                peer: *peer,
            },
            Action::Finish { cancellation_id, outcome } => ActionModel::Finish {
                cancellation_id: *cancellation_id,
                outcome: *outcome,
            },
            Action::AddRoute { peer, address } => ActionModel::AddRoute {
                peer: *peer,
                address: address@,
            },
            Action::RemoveRoutes { peer, addresses } => ActionModel::RemoveRoutes {
                peer: *peer,
                addresses: addresses@,
            },
        }
    }
}

/// What the actions of a list are.
pub open spec fn action_models(actions: Seq<Action>) -> Seq<ActionModel> {
    actions.map_values(|action: Action| action@)
}

/// The event loop of a node, without the transport.
pub struct P2pEventLoop {
    pub local_peer: PeerId,
    /// The relays on which the node has reservations.
    pub relay_reservation_peers: KeySet<PeerId>,
    pub book: Book,
    pub links: Links,
    pub log: SessionLog,
    /// The selected tier of each peer for which it is not the first.
    pub tiers: Table<PeerId, u8>,
    pub dials: Table<u64, PolicyDial>,
    pub promotions: Table<PeerId, TransportPromotion>,
    /// The addresses that the transport knows of each peer.
    pub installed: Table<PeerId, AddressSet>,
    pub next_connection: u64,
    /// The connections that the transport holds.
    pub open: KeySet<u64>,
    pub last_paths: Table<PeerId, P2pPath>,
    pub transfers: Table<PeerId, TransferCounters>,
    pub path_transfers: Table<PeerId, ByPath<TransferCounters>>,
    pub pending: Table<u64, PendingRequest>,
    pub queued: Vec<PendingRequest>,
    pub inbound: Table<u64, PeerId>,
    pub responses: Table<u64, PendingResponse>,
    pub next_request: u64,
    pub actions: Vec<Action>,
}

/// What the state of an event loop is, for contracts.
#[verifier::ext_equal]
pub struct LoopModel {
    pub local_peer: PeerId,
    pub relay_reservation_peers: Set<PeerId>,
    pub book: BookModel,
    pub links: LinksModel,
    pub log: LogModel,
    pub tiers: Map<PeerId, u8>,
    pub dials: Map<u64, PolicyDial>,
    pub promotions: Map<PeerId, TransportPromotion>,
    pub installed: Map<PeerId, Set<Seq<Component>>>,
    pub next_connection: u64,
    pub open: Set<u64>,
    pub last_paths: Map<PeerId, P2pPath>,
    pub transfers: Map<PeerId, TransferCounters>,
    pub path_transfers: Map<PeerId, ByPath<TransferCounters>>,
    pub pending: Map<u64, PendingRequest>,
    pub queued: Seq<PendingRequest>,
    pub inbound: Map<u64, PeerId>,
    pub responses: Map<u64, PendingResponse>,
    pub next_request: u64,
    pub actions: Seq<ActionModel>,
}

/// All addresses of a set lead to the same kind of path.
pub open spec fn uniform(addresses: Set<Seq<Component>>) -> bool {
    forall|a: Seq<Component>, b: Seq<Component>|
        addresses.contains(a) && addresses.contains(b) ==> #[trigger] path_of_address(a)
            == #[trigger] path_of_address(b)
}

/// The kind of path that the addresses of a uniform set lead to.
pub open spec fn common_path(addresses: Set<Seq<Component>>) -> P2pPath {
    path_of_address(addresses.choose())
}

impl LoopModel {
    pub open spec fn mode(self) -> TorMode {
        self.book.mode
    }

    /// The tier at which the node wants to reach the peer.
    pub open spec fn tier(self, peer: PeerId) -> u8 {
        if self.tiers.contains_key(peer) {
            self.tiers[peer]
        } else {
            0
        }
    }

    pub open spec fn with_tier(self, peer: PeerId, tier: u8) -> LoopModel {
        LoopModel {
            tiers: if tier == 0 {
                self.tiers.remove(peer)
            } else {
                self.tiers.insert(peer, tier)
            },
            ..self
        }
    }

    pub open spec fn acting(self, action: ActionModel) -> LoopModel {
        LoopModel { actions: self.actions.push(action), ..self }
    }

    /// There is an undecided dial of the peer at a tier.
    pub open spec fn dial_exists(self, peer: PeerId, tier: u8) -> bool {
        exists|connection: u64| #[trigger]
            self.dials.contains_key(connection) && self.dials[connection].peer == peer
                && self.dials[connection].tier == tier
    }

    /// There is an undecided dial of the peer.
    pub open spec fn dialling(self, peer: PeerId) -> bool {
        exists|connection: u64| #[trigger]
            self.dials.contains_key(connection) && self.dials[connection].peer == peer
    }

    /// A request to the peer is with the transport.
    pub open spec fn in_flight(self, peer: PeerId) -> bool {
        exists|request: u64| #[trigger]
            self.pending.contains_key(request) && self.pending[request].peer == peer
    }

    /// A request to the peer waits for a connection.
    pub open spec fn waits(self, peer: PeerId) -> bool {
        exists|i: int| 0 <= i < self.queued.len() && (#[trigger] self.queued[i]).peer == peer
    }

    /// A request to the peer is not yet decided.
    pub open spec fn outstanding(self, peer: PeerId) -> bool {
        self.in_flight(peer) || self.waits(peer)
    }

    /// A request to or from the peer is with the transport or being worked on.
    pub open spec fn busy(self, peer: PeerId) -> bool {
        self.in_flight(peer) || exists|request: u64| #[trigger]
            self.inbound.contains_key(request) && self.inbound[request] == peer
    }

    /// Something speaks for remembering the tier selected for the peer.
    pub open spec fn retains_selection(self, peer: PeerId) -> bool {
        ||| self.book.retained(peer) != Set::<Seq<Component>>::empty()
        ||| self.links.connected(peer)
        ||| self.dialling(peer)
        ||| self.outstanding(peer)
        ||| self.promotions.contains_key(peer)
    }

    /// The selected tier is forgotten where nothing speaks for it.
    pub open spec fn selection_forgotten(self, peer: PeerId) -> LoopModel {
        if self.retains_selection(peer) {
            self
        } else {
            LoopModel { tiers: self.tiers.remove(peer), ..self }
        }
    }

    /// The counters of a peer are forgotten where nothing speaks for them.
    pub open spec fn history_forgotten(self, peer: PeerId) -> LoopModel {
        if self.book.retains_history(peer) {
            self
        } else {
            LoopModel {
                transfers: self.transfers.remove(peer),
                path_transfers: self.path_transfers.remove(peer),
                ..self
            }
        }
    }

    /// Bytes of applications are counted: for the path, and for a peer whose
    /// counters are kept.
    pub open spec fn transferred(
        self,
        peer: PeerId,
        path: Option<P2pPath>,
        sent: u64,
        received: u64,
    ) -> LoopModel {
        let log = match path {
            Some(path) => self.log.transferred(path, sent, received),
            None => self.log,
        };
        if self.book.retains_history(peer) {
            let total = TransferCounters::plus(
                if self.transfers.contains_key(peer) {
                    Some(self.transfers[peer])
                } else {
                    None
                },
                sent,
                received,
            );
            LoopModel {
                log,
                transfers: self.transfers.insert(peer, total),
                path_transfers: match path {
                    Some(path) => {
                        let before = if self.path_transfers.contains_key(peer) {
                            self.path_transfers[peer]
                        } else {
                            ByPath::none()
                        };
                        self.path_transfers.insert(
                            peer,
                            before.with(
                                path,
                                TransferCounters::plus(before.at(path), sent, received),
                            ),
                        )
                    },
                    None => self.path_transfers,
                },
                ..self
            }
        } else {
            LoopModel { log, ..self }
        }
    }

    /// The kind of path that the installed addresses of a peer lead to.
    pub open spec fn path_hint(self, peer: PeerId) -> Option<P2pPath> {
        if self.installed.contains_key(peer) {
            Some(common_path(self.installed[peer]))
        } else {
            None
        }
    }

    /// What holds between the parts.
    pub open spec fn consistent(self) -> bool {
        &&& self.links.mode == self.book.mode
        &&& forall|peer: PeerId| #[trigger]
            self.installed.contains_key(peer) ==> uniform(self.installed[peer])
                && self.installed[peer] != Set::<Seq<Component>>::empty()
    }
}

struct DialTest {
    peer: PeerId,
    tier: Option<u8>,
}

impl EntryTest<u64, PolicyDial> for DialTest {
    closed spec fn ready(&self) -> bool {
        true
    }

    closed spec fn passes(&self, key: u64, value: PolicyDial) -> bool {
        value.peer == self.peer && (self.tier matches Some(tier) ==> value.tier == tier)
    }

    fn test(&self, key: u64, value: &PolicyDial) -> (result: bool) {
        value.peer.equals(&self.peer) && match self.tier {
            Some(tier) => value.tier == tier,
            None => true,
        }
    }
}

struct PeerTest {
    peer: PeerId,
}

impl EntryTest<u64, PendingRequest> for PeerTest {
    closed spec fn ready(&self) -> bool {
        true
    }

    closed spec fn passes(&self, key: u64, value: PendingRequest) -> bool {
        value.peer == self.peer
    }

    fn test(&self, key: u64, value: &PendingRequest) -> (result: bool) {
        value.peer.equals(&self.peer)
    }
}

impl EntryTest<u64, PeerId> for PeerTest {
    closed spec fn ready(&self) -> bool {
        true
    }

    closed spec fn passes(&self, key: u64, value: PeerId) -> bool {
        value == self.peer
    }

    fn test(&self, key: u64, value: &PeerId) -> (result: bool) {
        value.equals(&self.peer)
    }
}

impl P2pEventLoop {
    pub open spec fn view(&self) -> LoopModel {
        LoopModel {
            local_peer: self.local_peer,
            relay_reservation_peers: self.relay_reservation_peers@,
            book: self.book@,
            links: self.links@,
            log: self.log@,
            tiers: self.tiers@,
            dials: self.dials@,
            promotions: self.promotions@,
            installed: self.installed@,
            next_connection: self.next_connection,
            open: self.open@,
            last_paths: self.last_paths@,
            transfers: self.transfers@,
            path_transfers: self.path_transfers@,
            pending: self.pending@,
            queued: self.queued@,
            inbound: self.inbound@,
            responses: self.responses@,
            next_request: self.next_request,
            actions: action_models(self.actions@),
        }
    }

    pub open spec fn wf(&self) -> bool {
        &&& self.relay_reservation_peers.wf()
        &&& self.book.wf()
        &&& self.links.wf()
        &&& self.log.wf()
        &&& self.tiers.wf()
        &&& self.dials.wf()
        &&& self.promotions.wf()
        &&& self.installed.wf()
        &&& self.open.wf()
        &&& self.last_paths.wf()
        &&& self.transfers.wf()
        &&& self.path_transfers.wf()
        &&& self.pending.wf()
        &&& self.inbound.wf()
        &&& self.responses.wf()
        &&& self@.consistent()
    }

    /// The loop of a node that has no connections yet.
    pub fn new(
        local_peer: PeerId,
        mode: TorMode,
        limits: EndpointLimits,
        persistent: Table<PeerId, AddressSet>,
        relay_members: KeySet<PeerId>,
        relay_reservation_peers: KeySet<PeerId>,
    ) -> (state: Self)
        requires
            persistent.wf(),
            relay_members.wf(),
            relay_reservation_peers.wf(),
        ensures
            state.wf(),
            state@.local_peer == local_peer,
            state@.relay_reservation_peers == relay_reservation_peers@,
            state@.book == (BookModel {
                mode,
                limits,
                persistent: persistent@,
                learned: Map::empty(),
                opportunistic: Map::empty(),
                recovery: Map::empty(),
                quarantine: Map::empty(),
                relay_members: relay_members@,
            }),
            state@.links == (LinksModel {
                mode,
                paths: Map::empty(),
                closed: Map::empty(),
                dialers: Map::empty(),
                relay_retirement: Map::empty(),
                duplicate_retirement: Map::empty(),
                collapsing: Set::empty(),
                unhealthy: Set::empty(),
            }),
            state@.log == (LogModel {
                next_sequence: 1,
                sessions: Map::empty(),
                recent: Seq::empty(),
                metrics: ByPath::none(),
            }),
            state@.tiers == Map::<PeerId, u8>::empty(),
            state@.dials == Map::<u64, PolicyDial>::empty(),
            state@.promotions == Map::<PeerId, TransportPromotion>::empty(),
            state@.installed == Map::<PeerId, Set<Seq<Component>>>::empty(),
            state@.next_connection == 0,
            state@.open == Set::<u64>::empty(),
            state@.last_paths == Map::<PeerId, P2pPath>::empty(),
            state@.transfers == Map::<PeerId, TransferCounters>::empty(),
            state@.path_transfers == Map::<PeerId, ByPath<TransferCounters>>::empty(),
            state@.pending == Map::<u64, PendingRequest>::empty(),
            state@.queued == Seq::<PendingRequest>::empty(),
            state@.inbound == Map::<u64, PeerId>::empty(),
            state@.responses == Map::<u64, PendingResponse>::empty(),
            state@.next_request == 0,
            state@.actions == Seq::<ActionModel>::empty(),
            state@.orderly(),
    {
        let state = P2pEventLoop {
            local_peer,
            relay_reservation_peers,
            book: Book::new(mode, limits, persistent, relay_members),
            links: Links::new(mode),
            log: SessionLog::new(),
            tiers: Table::new(),
            dials: Table::new(),
            promotions: Table::new(),
            installed: Table::new(),
            next_connection: 0,
            open: KeySet::new(),
            last_paths: Table::new(),
            transfers: Table::new(),
            path_transfers: Table::new(),
            pending: Table::new(),
            queued: Vec::new(),
            inbound: Table::new(),
            responses: Table::new(),
            next_request: 0,
            actions: Vec::new(),
        };
        assert(state@.actions =~= Seq::empty());
        state
    }

    /// Notes what the transport is to do.
    pub fn act(&mut self, action: Action)
        requires
            old(self).wf(),
        ensures
            final(self).wf(),
            final(self)@ == old(self)@.acting(action@),
    {
        let ghost model = action@;
        self.actions.push(action);
        assert(action_models(self.actions@) =~= action_models(old(self).actions@).push(model));
    }

    /// Hands over what the transport is to do, in order.
    pub fn take_actions(&mut self) -> (actions: Vec<Action>)
        requires
            old(self).wf(),
        ensures
            final(self).wf(),
            action_models(actions@) == old(self)@.actions,
            final(self)@ == (LoopModel { actions: Seq::empty(), ..old(self)@ }),
    {
        let mut actions: Vec<Action> = Vec::new();
        std::mem::swap(&mut actions, &mut self.actions);
        assert(action_models(self.actions@) =~= Seq::empty());
        actions
    }

    /// A number for a connection that the loop did not ask for.
    pub fn new_connection(&mut self) -> (connection: u64)
        requires
            old(self).wf(),
        ensures
            final(self).wf(),
            connection == old(self)@.next_connection,
            final(self)@ == (LoopModel {
                next_connection: old(self)@.next_connection.wrapping_add(1),
                ..old(self)@
            }),
    {
        let connection: u64 = self.next_connection;
        self.next_connection = self.next_connection.wrapping_add(1);
        connection
    }

    pub fn selected_transport_tier(&self, peer: PeerId) -> (tier: u8)
        requires
            self.wf(),
        ensures
            tier == self@.tier(peer),
    {
        match self.tiers.get(peer) {
            Some(tier) => *tier,
            None => 0,
        }
    }

    pub fn policy_dial_exists(&self, peer: PeerId, tier: u8) -> (result: bool)
        requires
            self.wf(),
        ensures
            result == self@.dial_exists(peer, tier),
    {
        let test = DialTest { peer, tier: Some(tier) };
        let found = self.dials.any(&test);
        proof {
            if self@.dial_exists(peer, tier) {
                let c = choose|c: u64| #[trigger]
                    self@.dials.contains_key(c) && self@.dials[c].peer == peer
                        && self@.dials[c].tier == tier;
                assert(self.dials@.contains_key(c) && test.passes(c, self.dials@[c]));
            }
            if found {
                let c = choose|c: u64| #[trigger]
                    self.dials@.contains_key(c) && test.passes(c, self.dials@[c]);
                assert(self@.dials.contains_key(c));
            }
        }
        found
    }

    fn is_dialling(&self, peer: PeerId) -> (result: bool)
        requires
            self.wf(),
        ensures
            result == self@.dialling(peer),
    {
        let test = DialTest { peer, tier: None };
        let found = self.dials.any(&test);
        proof {
            if self@.dialling(peer) {
                let c = choose|c: u64| #[trigger]
                    self@.dials.contains_key(c) && self@.dials[c].peer == peer;
                assert(self.dials@.contains_key(c) && test.passes(c, self.dials@[c]));
            }
            if found {
                let c = choose|c: u64| #[trigger]
                    self.dials@.contains_key(c) && test.passes(c, self.dials@[c]);
                assert(self@.dials.contains_key(c));
            }
        }
        found
    }

    fn has_in_flight(&self, peer: PeerId) -> (result: bool)
        requires
            self.wf(),
        ensures
            result == self@.in_flight(peer),
    {
        let test = PeerTest { peer };
        let found = self.pending.any(&test);
        proof {
            if self@.in_flight(peer) {
                let r = choose|r: u64| #[trigger]
                    self@.pending.contains_key(r) && self@.pending[r].peer == peer;
                assert(self.pending@.contains_key(r) && <PeerTest as EntryTest<
                    u64,
                    PendingRequest,
                >>::passes(&test, r, self.pending@[r]));
            }
            if found {
                let r = choose|r: u64| #[trigger]
                    self.pending@.contains_key(r) && <PeerTest as EntryTest<
                        u64,
                        PendingRequest,
                    >>::passes(&test, r, self.pending@[r]);
                assert(self@.pending.contains_key(r));
            }
        }
        found
    }

    fn has_waiting(&self, peer: PeerId) -> (result: bool)
        ensures
            result == self@.waits(peer),
    {
        let mut i: usize = 0;
        while i < self.queued.len()
            invariant
                i <= self.queued@.len(),
                forall|k: int| 0 <= k < i ==> (#[trigger] self.queued@[k]).peer != peer,
            decreases self.queued@.len() - i,
        {
            if self.queued[i].peer.equals(&peer) {
                assert(self@.queued[i as int].peer == peer);
                return true;
            }
            i += 1;
        }
        false
    }

    pub fn has_outstanding_request(&self, peer: PeerId) -> (result: bool)
        requires
            self.wf(),
        ensures
            result == self@.outstanding(peer),
    {
        self.has_in_flight(peer) || self.has_waiting(peer)
    }

    pub fn is_busy(&self, peer: PeerId) -> (result: bool)
        requires
            self.wf(),
        ensures
            result == self@.busy(peer),
    {
        if self.has_in_flight(peer) {
            return true;
        }
        let test = PeerTest { peer };
        let found = self.inbound.any(&test);
        proof {
            if exists|r: u64| #[trigger]
                self@.inbound.contains_key(r) && self@.inbound[r] == peer {
                let r = choose|r: u64| #[trigger]
                    self@.inbound.contains_key(r) && self@.inbound[r] == peer;
                assert(self.inbound@.contains_key(r) && <PeerTest as EntryTest<
                    u64,
                    PeerId,
                >>::passes(&test, r, self.inbound@[r]));
            }
            if found {
                let r = choose|r: u64| #[trigger]
                    self.inbound@.contains_key(r) && <PeerTest as EntryTest<
                        u64,
                        PeerId,
                    >>::passes(&test, r, self.inbound@[r]);
                assert(self@.inbound.contains_key(r));
            }
        }
        found
    }

    pub fn retains_transport_selection(&self, peer: PeerId) -> (result: bool)
        requires
            self.wf(),
        ensures
            result == self@.retains_selection(peer),
    {
        let retained = self.book.retained_peer_addresses(peer);
        !retained.is_empty() || self.links.is_connected(peer) || self.is_dialling(peer)
            || self.has_outstanding_request(peer) || self.promotions.has(peer)
    }

    pub fn forget_transport_selection_if_unretained(&mut self, peer: PeerId)
        requires
            old(self).wf(),
        ensures
            final(self).wf(),
            final(self)@ == old(self)@.selection_forgotten(peer),
    {
        if !self.retains_transport_selection(peer) {
            let _ = self.tiers.remove(peer);
        }
    }

    pub fn forget_transfer_history_if_unretained(&mut self, peer: PeerId)
        requires
            old(self).wf(),
        ensures
            final(self).wf(),
            final(self)@ == old(self)@.history_forgotten(peer),
    {
        if self.book.retains_transfer_history(peer) {
            return ;
        }
        let _ = self.transfers.remove(peer);
        let _ = self.path_transfers.remove(peer);
    }

    /// Counts bytes of applications.
    pub fn record_transfer(
        &mut self,
        peer: PeerId,
        path: Option<P2pPath>,
        sent: u64,
        received: u64,
    )
        requires
            old(self).wf(),
        ensures
            final(self).wf(),
            final(self)@ == old(self)@.transferred(peer, path, sent, received),
    {
        if let Some(path) = path {
            self.log.record_path_transfer(path, sent, received);
        }
        if !self.book.retains_transfer_history(peer) {
            return ;
        }
        let before: Option<TransferCounters> = match self.transfers.get(peer) {
            Some(counters) => Some(*counters),
            None => None,
        };
        self.transfers.insert(peer, TransferCounters::add_to(before, sent, received));
        if let Some(path) = path {
            let mut by_path: ByPath<TransferCounters> = match self.path_transfers.get(peer) {
                Some(counters) => *counters,
                None => ByPath::new(),
            };
            let counters = TransferCounters::add_to(by_path.get(path), sent, received);
            by_path.set(path, counters);
            self.path_transfers.insert(peer, by_path);
        }
    }

    /// The kind of path that the installed addresses of a peer lead to.
    pub fn selected_path_hint(&self, peer: PeerId) -> (path: Option<P2pPath>)
        requires
            self.wf(),
        ensures
            path == self@.path_hint(peer),
    {
        match self.installed.get(peer) {
            Some(addresses) => Some(first_path(addresses)),
            None => None,
        }
    }
}

/// The kind of path that the addresses of a uniform set lead to.
pub fn first_path(addresses: &AddressSet) -> (path: P2pPath)
    requires
        addresses.wf(),
        uniform(addresses@),
        addresses@ != Set::<Seq<Component>>::empty(),
    ensures
        path == common_path(addresses@),
{
    proof {
        lemma_chosen(addresses@);
    }
    if addresses.is_empty() {
        proof {
            assert(addresses@ =~= Set::empty());
        }
        return P2pPath::Direct;
    }
    let first = addresses.get(0);
    let path = crate::policy::address_path(first);
    assert(addresses@.contains(first@));
    path
}

/// A set that is not empty holds what is chosen from it.
pub proof fn lemma_chosen(addresses: Set<Seq<Component>>)
    requires
        addresses != Set::<Seq<Component>>::empty(),
    ensures
        addresses.contains(addresses.choose()),
{
    if forall|a: Seq<Component>| !addresses.contains(a) {
        assert(addresses =~= Set::empty());
    }
    let a = choose|a: Seq<Component>| addresses.contains(a);
    assert(addresses.contains(a));
}

} // verus!
