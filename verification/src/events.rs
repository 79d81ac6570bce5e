//! What the transport reports to the event loop, and what the clock brings.

use crate::address::{sorted_peers, Component, Multiaddr, PeerId};
use crate::listeners::{ListenerClosure, Listeners, ListenersModel};
use crate::loop_state::{LoopModel, P2pEventLoop};
use crate::ordered::sorted_numbers;
use crate::peer_events::{InboundDecision, PeerEvent};
use crate::policy::{connected_point_path, path_of_endpoint, views, ConnectedPoint};
use crate::queries::{handle_dht_result, progressed, DhtProgress, DhtQuery, DhtStep};
use vstd::prelude::*;

verus! {

/// What the transport reports of peers and connections.
pub enum ConnectionEvent {
    /// A peer told where it listens.
    Identified { peer: PeerId, addresses: Vec<Multiaddr> },
    /// An attempt to punch a hole ended, with a connection or without.
    HolePunchEnded { peer: PeerId, connection: Option<u64> },
    ConnectionEstablished { connection: u64, peer: PeerId, endpoint: ConnectedPoint },
    /// A connection is closed; so many others to the peer remain.
    ConnectionClosed { connection: u64, peer: PeerId, remaining: u32, failed: bool },
    OutgoingConnectionError { connection: u64, peer: Option<PeerId> },
}

/// What the transport reports.
pub enum SwarmEvent {
    Connection(ConnectionEvent),
    /// Something of requests and responses.
    Peer(PeerEvent),
    NewListenAddr { listener: u64, address: Multiaddr },
    ExpiredListenAddr { listener: u64 },
    ListenerClosed { listener: u64 },
    /// What the DHT reports of a query. `last` says that no other report
    /// follows.
    QueryProgressed { query: DhtQuery, progress: DhtProgress, last: bool },
}

impl SwarmEvent {
    pub open spec fn wf(&self) -> bool {
        self matches SwarmEvent::QueryProgressed { query, .. } ==> query.wf()
    }
}

/// What follows from what the transport reports.
pub enum SwarmAnswer {
    Nothing,
    /// What is done with a request of a peer.
    Inbound(InboundDecision),
    /// A listener has an address: the port to map, where the gateway leads to
    /// it, and whether the node has started just now.
    Listening { port: Option<u16>, started: bool },
    Closed(ListenerClosure),
    /// Where a query stands.
    Query(DhtStep),
}

/// The listeners after what the transport reports.
pub open spec fn listeners_after(listeners: ListenersModel, event: SwarmEvent) -> ListenersModel {
    match event {
        SwarmEvent::NewListenAddr { listener, address } => {
            let active = listeners.listening(listener, address@);
            ListenersModel { starting: active.starting && !active.ready(), ..active }
        },
        SwarmEvent::ExpiredListenAddr { listener } => listeners.expired(listener),
        SwarmEvent::ListenerClosed { listener } => listeners.after_closing(listener),
        _ => listeners,
    }
}

/// What follows from what the transport reports to a node in a state.
pub open spec fn follows(
    answer: SwarmAnswer,
    state: LoopModel,
    listeners: ListenersModel,
    event: SwarmEvent,
    now: u64,
) -> bool {
    match event {
        SwarmEvent::Connection(_) => answer is Nothing,
        SwarmEvent::Peer(event) => match state.after_peer_event(event, now).1 {
            Some(decision) => answer == SwarmAnswer::Inbound(decision),
            None => answer is Nothing,
        },
        SwarmEvent::NewListenAddr { listener, address } => {
            let active = listeners.listening(listener, address@);
            &&& answer matches SwarmAnswer::Listening { port, started }
            &&& port is Some == listeners.maps(listener, address@)
            &&& (port matches Some(port) ==> address@[1] == Component::Udp(port))
            &&& started == (active.ready() && active.starting)
        },
        SwarmEvent::ExpiredListenAddr { .. } => answer is Nothing,
        SwarmEvent::ListenerClosed { listener } => {
            &&& answer matches SwarmAnswer::Closed(closure)
            &&& listeners.closes(listener, closure)
        },
        SwarmEvent::QueryProgressed { query, progress, last } => {
            &&& answer matches SwarmAnswer::Query(step)
            &&& step.wf()
            &&& step@ == progressed(query@, progress, last)
        },
    }
}

impl LoopModel {
    /// The state after what the transport reports.
    pub open spec fn after_swarm_event(self, event: SwarmEvent, now: u64, unix_now: u64) -> LoopModel {
        match event {
            SwarmEvent::Connection(event) => self.after(event, now, unix_now),
            SwarmEvent::Peer(event) => self.after_peer_event(event, now).0,
            _ => self,
        }
    }

    /// The addresses that a peer gave of itself are taken, one by one.
    pub open spec fn each_identified(
        self,
        peer: PeerId,
        addresses: Seq<Seq<Component>>,
        now: u64,
    ) -> LoopModel
        decreases addresses.len(),
    {
        if addresses.len() == 0 {
            self
        } else {
            self.each_identified(peer, addresses.drop_last(), now).identified(
                peer,
                addresses.last(),
                now,
            ).0
        }
    }

    /// The state after an event.
    pub open spec fn after(self, event: ConnectionEvent, now: u64, unix_now: u64) -> LoopModel {
        match event {
            ConnectionEvent::Identified { peer, addresses } => self.each_identified(
                peer,
                views(addresses@),
                now,
            ),
            ConnectionEvent::HolePunchEnded { peer, connection } => match connection {
                Some(connection) => self.upgraded(peer, connection, now),
                None => self.punch_failed(peer),
            },
            ConnectionEvent::ConnectionEstablished { connection, peer, endpoint } => self.established(
                connection,
                peer,
                path_of_endpoint(endpoint),
                endpoint is Dialer,
                now,
                unix_now,
            ),
            ConnectionEvent::ConnectionClosed { connection, peer, remaining, failed } => self.closed(
                connection,
                peer,
                remaining == 0,
                failed,
                now,
                unix_now,
            ),
            ConnectionEvent::OutgoingConnectionError { connection, peer } => self.unreachable(
                connection,
                peer,
                now,
            ),
        }
    }

    /// The promotions that are due are decided, and what is idle is closed.
    pub open spec fn settled(self, now: u64) -> LoopModel {
        let promoted = self.each_promotion_processed(
            self.promotions,
            sorted_peers(self.due_promotions(now)),
            now,
        );
        let relayed = promoted.each_relay_retired(
            promoted,
            sorted_numbers(promoted.finished_relays(now)),
            now,
        );
        relayed.each_duplicate_retired(
            relayed,
            sorted_numbers(relayed.finished_duplicates(now)),
            now,
        )
    }

    /// The addresses whose time is over are forgotten.
    pub open spec fn addresses_expired(self, now: u64) -> LoopModel {
        let learned = self.each_learned_expired(sorted_peers(self.book.expired_learned(now)));
        learned.each_unknown_forgotten(
            sorted_peers(learned.book.expired_opportunistic(now)),
        ).recovery_expired(now)
    }
}

impl P2pEventLoop {
    /// Takes the addresses that a peer gave of itself; those that cannot be
    /// used are ignored.
    pub fn identify_received(&mut self, peer: PeerId, addresses: &Vec<Multiaddr>, now: u64)
        requires
            old(self).wf(),
        ensures
            final(self).wf(),
            final(self)@ == old(self)@.each_identified(peer, views(addresses@), now),
    {
        let ghost all = views(addresses@);
        let mut i: usize = 0;
        assert(all.take(0) =~= Seq::empty());
        while i < addresses.len()
            invariant
                i <= addresses@.len(),
                all == views(addresses@),
                self.wf(),
                self@ == old(self)@.each_identified(peer, all.take(i as int), now),
            decreases addresses@.len() - i,
        {
            proof {
                assert(all.take(i + 1).drop_last() =~= all.take(i as int));
                assert(all.take(i + 1).last() == addresses@[i as int]@);
            }
            let _ = self.add_identified_address(peer, addresses[i].duplicate(), now);
            i += 1;
        }
        assert(all.take(i as int) =~= all);
    }

    /// Takes what the transport reports. Times are milliseconds of a steady
    /// clock, and seconds since 1970.
    pub fn handle_swarm_event(
        &mut self,
        listeners: &mut Listeners,
        event: SwarmEvent,
        now: u64,
        unix_now: u64,
    ) -> (answer: SwarmAnswer)
        requires
            old(self).wf(),
            old(listeners).wf(),
            event.wf(),
        ensures
            final(self).wf(),
            final(listeners).wf(),
            final(self)@ == old(self)@.after_swarm_event(event, now, unix_now),
            final(listeners)@ == listeners_after(old(listeners)@, event),
            follows(answer, old(self)@, old(listeners)@, event, now),
    {
        match event {
            SwarmEvent::Connection(event) => {
                self.handle_connection_event(event, now, unix_now);
                SwarmAnswer::Nothing
            },
            SwarmEvent::Peer(event) => {
                match self.handle_peer_event(event, now) {
                    Some(decision) => SwarmAnswer::Inbound(decision),
                    None => SwarmAnswer::Nothing,
                }
            },
            SwarmEvent::NewListenAddr { listener, address } => {
                let port = listeners.listening(listener, &address);
                let started = listeners.complete_startup_if_ready();
                SwarmAnswer::Listening { port, started }
            },
            SwarmEvent::ExpiredListenAddr { listener } => {
                listeners.expired(listener);
                SwarmAnswer::Nothing
            },
            SwarmEvent::ListenerClosed { listener } => SwarmAnswer::Closed(
                listeners.closed(listener),
            ),
            SwarmEvent::QueryProgressed { query, progress, last } => SwarmAnswer::Query(
                handle_dht_result(query, progress, last),
            ),
        }
    }

    /// Takes what the transport reports of peers and connections.
    pub fn handle_connection_event(&mut self, event: ConnectionEvent, now: u64, unix_now: u64)
        requires
            old(self).wf(),
        ensures
            final(self).wf(),
            final(self)@ == old(self)@.after(event, now, unix_now),
    {
        match event {
            ConnectionEvent::Identified { peer, addresses } => {
                self.identify_received(peer, &addresses, now);
            },
            ConnectionEvent::HolePunchEnded { peer, connection } => {
                self.hole_punch_ended(peer, connection, now);
            },
            ConnectionEvent::ConnectionEstablished { connection, peer, endpoint } => {
                let path = connected_point_path(&endpoint);
                let dialer = match endpoint {
                    ConnectedPoint::Dialer { .. } => true,
                    ConnectedPoint::Listener { .. } => false,
                };
                self.connection_established(connection, peer, path, dialer, now, unix_now);
            },
            ConnectionEvent::ConnectionClosed { connection, peer, remaining, failed } => {
                self.connection_closed(connection, peer, remaining == 0, failed, now, unix_now);
            },
            ConnectionEvent::OutgoingConnectionError { connection, peer } => {
                self.outgoing_connection_failed(connection, peer, now);
            },
        }
    }

    /// Decides the promotions that are due and closes what is idle.
    pub fn settle_connections(&mut self, now: u64)
        requires
            old(self).wf(),
        ensures
            final(self).wf(),
            final(self)@ == old(self)@.settled(now),
    {
        self.process_transport_promotions(now);
        self.retire_idle_relay_connections(now);
        self.retire_duplicate_sessions(now);
    }

    /// Forgets the addresses whose time is over.
    pub fn expire_addresses(&mut self, now: u64)
        requires
            old(self).wf(),
        ensures
            final(self).wf(),
            final(self)@ == old(self)@.addresses_expired(now),
    {
        self.expire_learned_addresses(now);
        self.expire_opportunistic_addresses(now);
        self.expire_recovery_addresses(now);
    }
}

/// What the transport reports of listeners changes the listeners alone, what it reports
/// of connections, requests and responses the state alone, and what it reports of a
/// query neither. A node has started with the first report after which it can be
/// reached, and starts only once.
pub proof fn reports_change_what_they_are_about(
    state: LoopModel,
    listeners: ListenersModel,
    event: SwarmEvent,
    now: u64,
    unix_now: u64,
)
    ensures
        event is NewListenAddr || event is ExpiredListenAddr || event is ListenerClosed
            || event is QueryProgressed ==> state.after_swarm_event(event, now, unix_now) == state,
        event is Connection || event is Peer || event is QueryProgressed ==> listeners_after(
            listeners,
            event,
        ) == listeners,
        event matches SwarmEvent::NewListenAddr { listener, address } ==> {
            let after = listeners_after(listeners, event);
            &&& after == (ListenersModel {
                starting: after.starting,
                ..listeners.listening(listener, address@)
            })
            &&& after.starting <==> listeners.starting && !after.ready()
        },
        !listeners.starting ==> !listeners_after(listeners, event).starting,
{
}

/// A node is told that it has started just when it can be reached for the first time.
pub proof fn a_start_is_told_once(
    answer: SwarmAnswer,
    state: LoopModel,
    listeners: ListenersModel,
    listener: u64,
    address: Multiaddr,
    now: u64,
)
    requires
        follows(
            answer,
            state,
            listeners,
            SwarmEvent::NewListenAddr { listener, address },
            now,
        ),
    ensures
        answer is Listening,
        answer->started <==> listeners.starting && listeners.listening(
            listener,
            address@,
        ).ready(),
        answer->started ==> !listeners_after(
            listeners,
            SwarmEvent::NewListenAddr { listener, address },
        ).starting,
        answer->port is Some <==> listeners.maps(listener, address@),
{
}

} // verus!
