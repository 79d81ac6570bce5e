//! Where a node listens, whether it can be reached, and what of that it
//! publishes.

use crate::address::{Component, Multiaddr, PeerId};
use crate::decimal::{decimal, decimal_text};
use crate::endpoints::{
    candidates, rejections, selection, status_advertised_addresses, texts, valid_texts,
    AdvertisedEndpointSelection, EndpointLimits, PublishedTransportClass,
};
use crate::ordered::sorted_texts;
use crate::policy::views;
use crate::port_mapping::{
    ipv4_quic_listener, mappable, mapped_address_valid, valid_mapped_external_address,
};
use crate::table::{EntryTest, KeySet, Stored, Table};
use crate::tor::TorMode;
use vstd::prelude::*;

verus! {

impl Stored for Multiaddr {
    type Model = Seq<Component>;

    open spec fn stored(&self) -> Seq<Component> {
        self@
    }

    open spec fn sound(&self) -> bool {
        true
    }
}

/// Why a mapped address is not published.
#[derive(Clone, Copy, Debug, PartialEq, Eq, Structural)]
pub enum MappingError {
    /// The listener that the gateway leads to is not active.
    InactiveListener,
    /// It is no address that others can dial.
    InvalidAddress,
}

/// What the closing of a listener ends.
#[derive(Clone, Copy, Debug, PartialEq, Eq, Structural)]
pub enum ListenerFailure {
    OnionListenerClosed,
    AllListenersClosed,
}

impl ListenerFailure {
    /// The message of a failure, with the reason that the transport gave.
    pub open spec fn text(self, reason: Seq<char>) -> Seq<char> {
        match self {
            ListenerFailure::OnionListenerClosed => "Arti onion listener closed: "@ + reason,
            ListenerFailure::AllListenersClosed => "all configured libp2p listeners closed: "@
                + reason,
        }
    }

    pub fn message(&self, reason: &str) -> (message: String)
        ensures
            message@ == self.text(reason@),
    {
        let mut message = match self {
            ListenerFailure::OnionListenerClosed => "Arti onion listener closed: ".to_owned(),
            ListenerFailure::AllListenersClosed =>
                "all configured libp2p listeners closed: ".to_owned(),
        };
        message.append(reason);
        message
    }
}

/// What follows from the closing of a listener.
pub struct ListenerClosure {
    /// The mapped address that is no longer published.
    pub withdrawn: Option<Multiaddr>,
    /// The gateway's listener is the one that closed: the mapping is given up,
    /// after its address is withdrawn.
    pub mapping_closed: bool,
    pub failure: Option<ListenerFailure>,
    /// Startup was not complete, and fails.
    pub startup_failed: bool,
}

/// What a node listens on.
pub struct Listeners {
    pub mode: TorMode,
    pub direct: KeySet<u64>,
    pub active_direct: KeySet<u64>,
    pub closed_direct: KeySet<u64>,
    pub reservations: Vec<Multiaddr>,
    /// The listeners on relays, by the reservation that each is for.
    pub relay: Table<u64, Multiaddr>,
    pub active_relay: KeySet<u64>,
    pub tor: Option<u64>,
    pub active_tor: bool,
    pub port_mapping_enabled: bool,
    pub mapping_listener: Option<u64>,
    pub mapping_active: bool,
    pub mapped: Option<Multiaddr>,
    /// The endpoints that were configured.
    pub advertised: Vec<Multiaddr>,
    /// Startup is not complete.
    pub starting: bool,
}

/// What the listeners are, for contracts.
#[verifier::ext_equal]
pub struct ListenersModel {
    pub mode: TorMode,
    pub direct: Set<u64>,
    pub active_direct: Set<u64>,
    pub closed_direct: Set<u64>,
    pub reservations: Seq<Seq<Component>>,
    pub relay: Map<u64, Seq<Component>>,
    pub active_relay: Set<u64>,
    pub tor: Option<u64>,
    pub active_tor: bool,
    pub port_mapping_enabled: bool,
    pub mapping_listener: Option<u64>,
    pub mapping_active: bool,
    pub mapped: Option<Seq<Component>>,
    pub advertised: Seq<Seq<Component>>,
    pub starting: bool,
}

/// The view of an optional address.
pub open spec fn address_view(address: Option<Multiaddr>) -> Option<Seq<Component>> {
    match address {
        Some(address) => Some(address@),
        None => None,
    }
}

/// How many of so many are active.
pub open spec fn active_text(what: Seq<char>, active: nat, configured: nat) -> Seq<char> {
    what + decimal(active) + "/"@ + decimal(configured)
}

impl ListenersModel {
    /// The node can be reached in a way that its mode allows.
    pub open spec fn ready(self) -> bool {
        if self.mode == TorMode::RequireTor {
            self.active_tor
        } else {
            self.active_direct.len() > 0 || self.active_relay.len() > 0 || self.active_tor
        }
    }

    /// A listener has an address.
    pub open spec fn listening(self, listener: u64, address: Seq<Component>) -> ListenersModel {
        ListenersModel {
            active_direct: if self.direct.contains(listener) {
                self.active_direct.insert(listener)
            } else {
                self.active_direct
            },
            mapping_active: self.mapping_active || self.maps(listener, address),
            active_relay: if self.relay.contains_key(listener) {
                self.active_relay.insert(listener)
            } else {
                self.active_relay
            },
            active_tor: self.active_tor || self.tor == Some(listener),
            ..self
        }
    }

    /// A listener is the one that the gateway leads to, at a port.
    pub open spec fn maps(self, listener: u64, address: Seq<Component>) -> bool {
        self.mapping_listener == Some(listener) && mappable(address) && address[1]
            != Component::Udp(0)
    }

    /// An address of a listener has expired.
    pub open spec fn expired(self, listener: u64) -> ListenersModel {
        ListenersModel { active_tor: self.active_tor && self.tor != Some(listener), ..self }
    }

    /// A listener is gone.
    pub open spec fn without(self, listener: u64) -> ListenersModel {
        ListenersModel {
            active_direct: if self.direct.contains(listener) {
                self.active_direct.remove(listener)
            } else {
                self.active_direct
            },
            closed_direct: if self.direct.contains(listener) {
                self.closed_direct.insert(listener)
            } else {
                self.closed_direct
            },
            mapping_active: self.mapping_active && self.mapping_listener != Some(listener),
            mapped: if self.mapping_listener == Some(listener) {
                None
            } else {
                self.mapped
            },
            relay: self.relay.remove(listener),
            active_relay: if self.relay.contains_key(listener) {
                self.active_relay.remove(listener)
            } else {
                self.active_relay
            },
            active_tor: self.active_tor && self.tor != Some(listener),
            tor: if self.tor == Some(listener) {
                None
            } else {
                self.tor
            },
            ..self
        }
    }

    /// Nothing is left to listen on, and nothing can come back.
    pub open spec fn exhausted(self) -> bool {
        &&& self.direct.len() == 0 || (self.active_direct.len() == 0 && self.closed_direct.len()
            == self.direct.len())
        &&& self.reservations.len() == 0
        &&& self.tor is None
    }

    /// What the closing of a listener ends: an onion listener cannot be had
    /// back, whatever else there is.
    pub open spec fn failure(self, listener: u64) -> Option<ListenerFailure> {
        if self.tor == Some(listener) {
            Some(ListenerFailure::OnionListenerClosed)
        } else if self.without(listener).exhausted() {
            Some(ListenerFailure::AllListenersClosed)
        } else {
            None
        }
    }

    /// The listeners after one was closed: where that ends the node, it does
    /// not start any more.
    pub open spec fn after_closing(self, listener: u64) -> ListenersModel {
        let gone = self.without(listener);
        if self.failure(listener) is Some {
            ListenersModel { starting: false, ..gone }
        } else {
            gone
        }
    }

    /// What follows from the closing of a listener.
    pub open spec fn closes(self, listener: u64, closure: ListenerClosure) -> bool {
        &&& closure.failure == self.failure(listener)
        &&& closure.startup_failed == (self.failure(listener) is Some && self.starting)
        &&& closure.mapping_closed == (self.mapping_listener == Some(listener))
        &&& address_view(closure.withdrawn) == (if closure.mapping_closed {
            self.mapped
        } else {
            None
        })
    }

    /// Why a mapped address is not published.
    pub open spec fn mapping_problem(self, address: Option<Seq<Component>>) -> Option<
        MappingError,
    > {
        if address == self.mapped || address is None {
            None
        } else if self.port_mapping_enabled && !self.mapping_active {
            Some(MappingError::InactiveListener)
        } else if !mapped_address_valid(address->0) {
            Some(MappingError::InvalidAddress)
        } else {
            None
        }
    }

    pub open spec fn with_mapped(self, address: Option<Seq<Component>>) -> ListenersModel {
        ListenersModel { mapped: address, ..self }
    }

    /// A listener for a reservation exists.
    pub open spec fn reserved(self, reservation: Seq<Component>) -> bool {
        exists|listener: u64| #[trigger]
            self.relay.contains_key(listener) && self.relay[listener] == reservation
    }

    /// What is wrong with the ways to reach the node.
    pub open spec fn degradation(self, rejected: Seq<Seq<char>>) -> Seq<Seq<char>> {
        let direct = if self.active_direct.len() < self.direct.len() {
            seq![
                active_text(
                    "direct listeners active "@,
                    self.active_direct.len(),
                    self.direct.len(),
                ),
            ]
        } else {
            Seq::empty()
        };
        let relay = if self.active_relay.len() < self.reservations.len() {
            seq![
                active_text(
                    "relay reservations active "@,
                    self.active_relay.len(),
                    self.reservations.len(),
                ),
            ]
        } else {
            Seq::empty()
        };
        let tor = if self.mode != TorMode::DisableTor && !self.active_tor {
            seq!["Tor onion service is not reachable"@]
        } else {
            Seq::empty()
        };
        let mapping = if self.port_mapping_enabled && self.mapped is None {
            seq!["automatic gateway port mapping is not active"@]
        } else {
            Seq::empty()
        };
        direct + relay + tor + mapping + rejected
    }

    /// The candidates for publication.
    pub open spec fn publishable(self, listen_addresses: Seq<Seq<char>>) -> Set<Seq<char>> {
        candidates(self.advertised, self.mapped, listen_addresses)
    }

    /// The messages for the candidates that are refused.
    pub open spec fn refused(
        self,
        limits: EndpointLimits,
        local_peer: PeerId,
        listen_addresses: Seq<Seq<char>>,
    ) -> Seq<Seq<char>> {
        sorted_texts(rejections(limits, local_peer, self.publishable(listen_addresses)))
    }

    /// The endpoints that are published.
    pub open spec fn published(
        self,
        limits: EndpointLimits,
        local_peer: PeerId,
        listen_addresses: Seq<Seq<char>>,
    ) -> Seq<Seq<char>> {
        let found = self.publishable(listen_addresses);
        sorted_texts(
            selection(
                limits.per_peer as nat,
                valid_texts(limits, local_peer, found, PublishedTransportClass::Direct),
                valid_texts(limits, local_peer, found, PublishedTransportClass::Relay),
                valid_texts(limits, local_peer, found, PublishedTransportClass::Onion),
            ),
        )
    }
}

/// How a node started.
#[derive(Debug)]
pub struct P2pStartup {
    pub direct_listeners_active: usize,
    pub relay_reservations_active: usize,
    pub onion_service_reachable: bool,
    pub degraded: Vec<String>,
}

struct ReservationTest<'a> {
    reservation: &'a Multiaddr,
}

impl<'a> EntryTest<u64, Multiaddr> for ReservationTest<'a> {
    closed spec fn ready(&self) -> bool {
        true
    }

    closed spec fn passes(&self, key: u64, value: Seq<Component>) -> bool {
        value == self.reservation@
    }

    fn test(&self, key: u64, value: &Multiaddr) -> (result: bool) {
        value.same(self.reservation)
    }
}

fn push_text(list: &mut Vec<String>, text: String)
    ensures
        texts(final(list)@) == texts(old(list)@).push(text@),
{
    list.push(text);
    assert(texts(list@) =~= texts(old(list)@).push(text@));
}

fn activity(what: &str, active: usize, configured: usize) -> (text: String)
    ensures
        text@ == active_text(what@, active as nat, configured as nat),
{
    let mut text = what.to_owned();
    text.append(decimal_text(active as u64).as_str());
    text.append("/");
    text.append(decimal_text(configured as u64).as_str());
    text
}

impl Listeners {
    pub open spec fn view(&self) -> ListenersModel {
        ListenersModel {
            mode: self.mode,
            direct: self.direct@,
            active_direct: self.active_direct@,
            closed_direct: self.closed_direct@,
            reservations: views(self.reservations@),
            relay: self.relay@,
            active_relay: self.active_relay@,
            tor: self.tor,
            active_tor: self.active_tor,
            port_mapping_enabled: self.port_mapping_enabled,
            mapping_listener: self.mapping_listener,
            mapping_active: self.mapping_active,
            mapped: address_view(self.mapped),
            advertised: views(self.advertised@),
            starting: self.starting,
        }
    }

    pub open spec fn wf(&self) -> bool {
        &&& self.direct.wf()
        &&& self.active_direct.wf()
        &&& self.closed_direct.wf()
        &&& self.relay.wf()
        &&& self.active_relay.wf()
    }

    /// The listeners of a node that starts: none of them is active yet.
    pub fn new(
        mode: TorMode,
        direct: KeySet<u64>,
        relay: Table<u64, Multiaddr>,
        reservations: Vec<Multiaddr>,
        tor: Option<u64>,
        port_mapping_enabled: bool,
        mapping_listener: Option<u64>,
        advertised: Vec<Multiaddr>,
    ) -> (listeners: Self)
        requires
            direct.wf(),
            relay.wf(),
        ensures
            listeners.wf(),
            listeners@ == (ListenersModel {
                mode,
                direct: direct@,
                active_direct: Set::empty(),
                closed_direct: Set::empty(),
                reservations: views(reservations@),
                relay: relay@,
                active_relay: Set::empty(),
                tor,
                active_tor: false,
                port_mapping_enabled,
                mapping_listener,
                mapping_active: false,
                mapped: None,
                advertised: views(advertised@),
                starting: true,
            }),
    {
        Listeners {
            mode,
            direct,
            active_direct: KeySet::new(),
            closed_direct: KeySet::new(),
            reservations,
            relay,
            active_relay: KeySet::new(),
            tor,
            active_tor: false,
            port_mapping_enabled,
            mapping_listener,
            mapping_active: false,
            mapped: None,
            advertised,
            starting: true,
        }
    }

    pub fn network_ready(&self) -> (ready: bool)
        requires
            self.wf(),
        ensures
            ready == self@.ready(),
    {
        if self.mode.requires_tor() {
            self.active_tor
        } else {
            self.active_direct.len() > 0 || self.active_relay.len() > 0 || self.active_tor
        }
    }

    /// Whether startup is complete just now; says so once.
    pub fn complete_startup_if_ready(&mut self) -> (complete: bool)
        requires
            old(self).wf(),
        ensures
            final(self).wf(),
            complete == (old(self)@.ready() && old(self)@.starting),
            final(self)@ == (ListenersModel {
                starting: old(self)@.starting && !old(self)@.ready(),
                ..old(self)@
            }),
    {
        let complete = self.starting && self.network_ready();
        if complete {
            self.starting = false;
        }
        complete
    }

    /// Whether startup fails; says so once.
    pub fn fail_startup(&mut self) -> (failed: bool)
        requires
            old(self).wf(),
        ensures
            final(self).wf(),
            failed == old(self)@.starting,
            final(self)@ == (ListenersModel { starting: false, ..old(self)@ }),
    {
        let failed = self.starting;
        self.starting = false;
        failed
    }

    /// Notes that a listener has an address; the port to map, if the gateway
    /// leads to this listener.
    pub fn listening(&mut self, listener: u64, address: &Multiaddr) -> (port: Option<u16>)
        requires
            old(self).wf(),
        ensures
            final(self).wf(),
            final(self)@ == old(self)@.listening(listener, address@),
            port is Some == old(self)@.maps(listener, address@),
            port matches Some(port) ==> address@[1] == Component::Udp(port),
    {
        let ghost start = self@;
        if self.direct.contains(listener) {
            self.active_direct.insert(listener);
        }
        let mut mapped_port: Option<u16> = None;
        if self.mapping_listener == Some(listener) {
            if let Some(socket) = ipv4_quic_listener(address) {
                if socket.port != 0 {
                    self.mapping_active = true;
                    mapped_port = Some(socket.port);
                }
            }
        }
        if self.relay.has(listener) {
            self.active_relay.insert(listener);
        }
        if self.tor == Some(listener) {
            self.active_tor = true;
        }
        assert(self@ =~= start.listening(listener, address@));
        mapped_port
    }

    /// Notes that an address of a listener has expired.
    pub fn expired(&mut self, listener: u64)
        requires
            old(self).wf(),
        ensures
            final(self).wf(),
            final(self)@ == old(self)@.expired(listener),
    {
        if self.tor == Some(listener) {
            self.active_tor = false;
        }
    }

    fn is_exhausted(&self) -> (result: bool)
        requires
            self.wf(),
        ensures
            result == self@.exhausted(),
    {
        (self.direct.len() == 0 || (self.active_direct.len() == 0 && self.closed_direct.len()
            == self.direct.len())) && self.reservations.len() == 0 && self.tor.is_none()
    }

    /// Notes that a listener is closed.
    pub fn closed(&mut self, listener: u64) -> (closure: ListenerClosure)
        requires
            old(self).wf(),
        ensures
            final(self).wf(),
            final(self)@ == old(self)@.after_closing(listener),
            old(self)@.closes(listener, closure),
    {
        let ghost start = self@;
        if self.direct.contains(listener) {
            let _ = self.active_direct.remove(listener);
            self.closed_direct.insert(listener);
        }
        let mapping_closed = self.mapping_listener == Some(listener);
        let mut withdrawn: Option<Multiaddr> = None;
        if mapping_closed {
            self.mapping_active = false;
            std::mem::swap(&mut withdrawn, &mut self.mapped);
        }
        if self.relay.remove(listener).is_some() {
            let _ = self.active_relay.remove(listener);
        } else {
            assert(start.relay.remove(listener) =~= start.relay);
        }
        let tor_closed = self.tor == Some(listener);
        if tor_closed {
            self.active_tor = false;
            self.tor = None;
        }
        assert(self@ =~= start.without(listener));
        let failure = if tor_closed {
            Some(ListenerFailure::OnionListenerClosed)
        } else if self.is_exhausted() {
            Some(ListenerFailure::AllListenersClosed)
        } else {
            None
        };
        let mut startup_failed = false;
        if failure.is_some() {
            startup_failed = self.fail_startup();
        }
        ListenerClosure { withdrawn, mapping_closed, failure, startup_failed }
    }

    /// Publishes another mapped address, or none; the one that was published
    /// before.
    pub fn replace_mapped_external_address(&mut self, address: Option<Multiaddr>) -> (result: Result<
        Option<Multiaddr>,
        MappingError,
    >)
        requires
            old(self).wf(),
        ensures
            final(self).wf(),
            match result {
                Err(error) => old(self)@.mapping_problem(address_view(address)) == Some(error)
                    && final(self)@ == old(self)@,
                Ok(withdrawn) => {
                    &&& old(self)@.mapping_problem(address_view(address)) is None
                    &&& final(self)@ == old(self)@.with_mapped(address_view(address))
                    &&& address_view(withdrawn) == (if address_view(address)
                        == old(self)@.mapped {
                        None
                    } else {
                        old(self)@.mapped
                    })
                },
            },
    {
        let same = match (&address, &self.mapped) {
            (Some(new), Some(current)) => new.same(current),
            (None, None) => true,
            _ => false,
        };
        if same {
            return Ok(None);
        }
        if let Some(address) = &address {
            if self.port_mapping_enabled && !self.mapping_active {
                return Err(MappingError::InactiveListener);
            }
            if !valid_mapped_external_address(address) {
                return Err(MappingError::InvalidAddress);
            }
        }
        let mut withdrawn: Option<Multiaddr> = address;
        std::mem::swap(&mut withdrawn, &mut self.mapped);
        Ok(withdrawn)
    }

    /// The first reservation, from a place on, that has no listener.
    pub fn next_missing_reservation(&self, from: usize) -> (place: Option<usize>)
        requires
            self.wf(),
        ensures
            match place {
                Some(place) => {
                    &&& from <= place < self.reservations@.len()
                    &&& !self@.reserved(self@.reservations[place as int])
                    &&& forall|i: int|
                        from <= i < place ==> self@.reserved(#[trigger] self@.reservations[i])
                },
                None => forall|i: int|
                    from <= i < self.reservations@.len() ==> self@.reserved(
                        #[trigger] self@.reservations[i],
                    ),
            },
    {
        let mut i: usize = from;
        while i < self.reservations.len()
            invariant
                self.wf(),
                from <= i,
                forall|k: int| from <= k < i && k < self.reservations@.len() ==> self@.reserved(
                    #[trigger] self@.reservations[k],
                ),
            decreases self.reservations@.len() - i,
        {
            let test = ReservationTest { reservation: &self.reservations[i] };
            let found = self.relay.any(&test);
            proof {
                assert(self@.reservations[i as int] == self.reservations@[i as int]@);
                if self@.reserved(self@.reservations[i as int]) {
                    let l = choose|l: u64| #[trigger]
                        self@.relay.contains_key(l) && self@.relay[l]
                            == self@.reservations[i as int];
                    assert(self.relay@.contains_key(l) && test.passes(l, self.relay@[l]));
                }
                if found {
                    let l = choose|l: u64| #[trigger]
                        self.relay@.contains_key(l) && test.passes(l, self.relay@[l]);
                    assert(self@.relay.contains_key(l));
                }
            }
            if !found {
                return Some(i);
            }
            i += 1;
        }
        None
    }

    /// Notes that a listener was asked for on a relay.
    pub fn relay_listening(&mut self, listener: u64, reservation: Multiaddr)
        requires
            old(self).wf(),
        ensures
            final(self).wf(),
            final(self)@ == (ListenersModel {
                relay: old(self)@.relay.insert(listener, reservation@),
                ..old(self)@
            }),
    {
        self.relay.insert(listener, reservation);
    }

    /// The endpoints to publish now, and why others are not.
    pub fn current_advertised_endpoints(
        &self,
        limits: &EndpointLimits,
        local_peer: PeerId,
        listen_addresses: &Vec<String>,
    ) -> (selected: AdvertisedEndpointSelection)
        ensures
            texts(selected.addresses@) == self@.published(
                *limits,
                local_peer,
                texts(listen_addresses@),
            ),
            texts(selected.rejected@) == self@.refused(
                *limits,
                local_peer,
                texts(listen_addresses@),
            ),
    {
        status_advertised_addresses(
            limits,
            local_peer,
            &self.advertised,
            self.mapped.as_ref(),
            listen_addresses,
        )
    }

    /// What is wrong with the ways to reach the node.
    pub fn transport_degradation(
        &self,
        limits: &EndpointLimits,
        local_peer: PeerId,
        listen_addresses: &Vec<String>,
    ) -> (degraded: Vec<String>)
        requires
            self.wf(),
        ensures
            texts(degraded@) == self@.degradation(
                self@.refused(*limits, local_peer, texts(listen_addresses@)),
            ),
    {
        let mut degraded: Vec<String> = Vec::new();
        assert(texts(degraded@) =~= Seq::empty());
        if self.active_direct.len() < self.direct.len() {
            push_text(
                &mut degraded,
                activity("direct listeners active ", self.active_direct.len(), self.direct.len()),
            );
        }
        if self.active_relay.len() < self.reservations.len() {
            push_text(
                &mut degraded,
                activity(
                    "relay reservations active ",
                    self.active_relay.len(),
                    self.reservations.len(),
                ),
            );
        }
        if self.mode.enabled() && !self.active_tor {
            push_text(&mut degraded, "Tor onion service is not reachable".to_owned());
        }
        if self.port_mapping_enabled && self.mapped.is_none() {
            push_text(&mut degraded, "automatic gateway port mapping is not active".to_owned());
        }
        let ghost own = texts(degraded@);
        let selected = self.current_advertised_endpoints(limits, local_peer, listen_addresses);
        let mut rejected = selected.rejected;
        let ghost refused = rejected@;
        degraded.append(&mut rejected);
        assert(texts(degraded@) =~= own + texts(refused));
        assert(texts(degraded@) =~= self@.degradation(texts(refused)));
        degraded
    }

    /// How the node started.
    pub fn startup(
        &self,
        limits: &EndpointLimits,
        local_peer: PeerId,
        listen_addresses: &Vec<String>,
    ) -> (startup: P2pStartup)
        requires
            self.wf(),
        ensures
            startup.direct_listeners_active == self@.active_direct.len(),
            startup.relay_reservations_active == self@.active_relay.len(),
            startup.onion_service_reachable == self@.active_tor,
            texts(startup.degraded@) == self@.degradation(
                self@.refused(*limits, local_peer, texts(listen_addresses@)),
            ),
    {
        P2pStartup {
            direct_listeners_active: self.active_direct.len(),
            relay_reservations_active: self.active_relay.len(),
            onion_service_reachable: self.active_tor,
            degraded: self.transport_degradation(limits, local_peer, listen_addresses),
        }
    }
}

/// When the listener that the gateway leads to closes, the mapped address is
/// withdrawn, and none is published before the listener is active again.
pub proof fn mapping_ends_with_its_listener(
    listeners: ListenersModel,
    listener: u64,
    address: Seq<Component>,
)
    requires
        listeners.port_mapping_enabled,
        listeners.mapping_listener == Some(listener),
    ensures
        listeners.without(listener).mapped is None,
        listeners.without(listener).mapping_problem(Some(address)) == Some(
            MappingError::InactiveListener,
        ),
{
}

/// A node that must use Tor is ready only when its onion service is reachable.
pub proof fn required_tor_is_awaited(listeners: ListenersModel)
    requires
        listeners.mode == TorMode::RequireTor,
    ensures
        listeners.ready() == listeners.active_tor,
{
}

/// An expired address leaves the listeners as they are; only a closed onion
/// listener ends the node while others remain.
pub proof fn only_a_closed_onion_listener_is_fatal_alone(listeners: ListenersModel, listener: u64)
    requires
        listeners.reservations.len() > 0,
    ensures
        listeners.failure(listener) is Some == (listeners.tor == Some(listener)),
        listeners.expired(listener).tor == listeners.tor,
{
}

/// A listener that has an address is active, in the way that it was set up for
/// and in no other; a gateway leads to its listener once that has a port. The
/// address of an onion service that expires makes the service inactive, and that
/// of any other listener changes nothing.
pub proof fn a_listener_is_active_in_its_own_way(
    listeners: ListenersModel,
    listener: u64,
    address: Seq<Component>,
    other: u64,
)
    ensures
        ({
            let after = listeners.listening(listener, address);
            &&& after.active_direct.contains(listener) == (listeners.direct.contains(listener)
                || listeners.active_direct.contains(listener))
            &&& after.active_relay.contains(listener) == (listeners.relay.contains_key(listener)
                || listeners.active_relay.contains(listener))
            &&& after.active_tor == (listeners.active_tor || listeners.tor == Some(listener))
            &&& other != listener ==> after.active_direct.contains(other)
                == listeners.active_direct.contains(other) && after.active_relay.contains(other)
                == listeners.active_relay.contains(other)
            &&& after.mapping_active == (listeners.mapping_active || (listeners.mapping_listener
                == Some(listener) && mappable(address) && address[1] != Component::Udp(0)))
            &&& after == (ListenersModel {
                active_direct: after.active_direct,
                active_relay: after.active_relay,
                active_tor: after.active_tor,
                mapping_active: after.mapping_active,
                ..listeners
            })
        }),
        listeners.tor == Some(listener) ==> listeners.expired(listener) == (ListenersModel {
            active_tor: false,
            ..listeners
        }),
        listeners.tor != Some(listener) ==> listeners.expired(listener) == listeners,
{
}

/// A listener that closes is not active any more. One that the gateway leads to
/// takes the mapped address with it. A direct one is known as closed, a relay's
/// is gone, and so is an onion service. Nothing of another listener changes.
pub proof fn a_closed_listener_is_gone(listeners: ListenersModel, listener: u64, other: u64)
    requires
        other != listener,
    ensures
        ({
            let after = listeners.after_closing(listener);
            &&& listeners.direct.contains(listener) ==> !after.active_direct.contains(listener)
                && after.closed_direct.contains(listener)
            &&& !after.relay.contains_key(listener)
            &&& listeners.relay.contains_key(listener) ==> !after.active_relay.contains(listener)
            &&& listeners.tor == Some(listener) ==> after.tor is None && !after.active_tor
            &&& listeners.tor != Some(listener) ==> after.tor == listeners.tor && after.active_tor
                == listeners.active_tor
            &&& listeners.mapping_listener == Some(listener) ==> after.mapped is None
                && !after.mapping_active
            &&& listeners.mapping_listener != Some(listener) ==> after.mapped == listeners.mapped
                && after.mapping_active == listeners.mapping_active
            &&& after.active_direct.contains(other) == listeners.active_direct.contains(other)
            &&& after.closed_direct.contains(other) == listeners.closed_direct.contains(other)
            &&& after.active_relay.contains(other) == listeners.active_relay.contains(other)
            &&& after.relay.contains_key(other) == listeners.relay.contains_key(other)
            &&& after.direct == listeners.direct && after.reservations == listeners.reservations
        }),
{
}

/// The closing of a listener ends the node only if it was the onion service's, or
/// if nothing is left: every direct listener closed, no reservation, no onion
/// service.
pub proof fn a_node_ends_with_its_last_listener(listeners: ListenersModel, listener: u64)
    requires
        listeners.direct.finite(),
        listeners.closed_direct.finite(),
        listeners.closed_direct.subset_of(listeners.direct),
    ensures
        listeners.tor == Some(listener) ==> listeners.failure(listener) == Some(
            ListenerFailure::OnionListenerClosed,
        ),
        listeners.tor is Some && listeners.tor != Some(listener) ==> listeners.failure(listener)
            is None,
        listeners.reservations.len() > 0 && listeners.tor != Some(listener)
            ==> listeners.failure(listener) is None,
        listeners.failure(listener) == Some(ListenerFailure::AllListenersClosed) ==> forall|
            direct: u64,
        |
            #[trigger] listeners.direct.contains(direct) ==> direct == listener
                || listeners.closed_direct.contains(direct),
        listeners.failure(listener) is Some ==> !listeners.after_closing(listener).starting,
        listeners.failure(listener) is None ==> listeners.after_closing(listener).starting
            == listeners.starting,
{
    let gone = listeners.without(listener);
    if listeners.failure(listener) == Some(ListenerFailure::AllListenersClosed) {
        if listeners.direct.len() > 0 {
            assert(gone.closed_direct.subset_of(listeners.direct));
            vstd::set_lib::lemma_subset_equality(gone.closed_direct, listeners.direct);
        }
        assert forall|direct: u64| #[trigger] listeners.direct.contains(direct) implies direct
            == listener || listeners.closed_direct.contains(direct) by {
            if listeners.direct.len() == 0 {
                assert(listeners.direct =~= Set::empty());
            } else {
                assert(gone.closed_direct.contains(direct));
            }
        }
    }
}

/// A node is ready once it can be reached in any way; where Tor is required, once
/// its onion service can.
pub proof fn a_node_is_ready_once_it_can_be_reached(listeners: ListenersModel)
    requires
        listeners.active_direct.finite(),
        listeners.active_relay.finite(),
    ensures
        listeners.mode == TorMode::RequireTor ==> listeners.ready() == listeners.active_tor,
        listeners.mode != TorMode::RequireTor ==> (listeners.ready() <==> listeners.active_tor || (
        exists|l: u64| #[trigger] listeners.active_direct.contains(l)) || (exists|l: u64| #[trigger]
            listeners.active_relay.contains(l))),
{
    if listeners.active_direct.len() > 0 {
        assert(listeners.active_direct.contains(listeners.active_direct.choose()));
    } else {
        assert(listeners.active_direct =~= Set::empty());
    }
    if listeners.active_relay.len() > 0 {
        assert(listeners.active_relay.contains(listeners.active_relay.choose()));
    } else {
        assert(listeners.active_relay =~= Set::empty());
    }
}

/// A mapped address is taken if nothing changes with it, or if it is withdrawn;
/// another one only if it can be dialled and the listener that it leads to is
/// active.
pub proof fn a_mapped_address_is_taken_if_it_leads_here(
    listeners: ListenersModel,
    address: Seq<Component>,
)
    ensures
        listeners.mapping_problem(None) is None,
        listeners.mapped == Some(address) ==> listeners.mapping_problem(Some(address)) is None,
        listeners.mapped != Some(address) ==> listeners.mapping_problem(Some(address)) == (
        if listeners.port_mapping_enabled && !listeners.mapping_active {
            Some(MappingError::InactiveListener)
        } else if !mapped_address_valid(address) {
            Some(MappingError::InvalidAddress)
        } else {
            None
        }),
        listeners.with_mapped(Some(address)).mapped == Some(address),
{
}

/// What is wrong with the ways to a node is told: that listeners or reservations are
/// missing, with how many there are of how many, that its service over Tor cannot be
/// reached, that no port is mapped, and what was refused. Where all is well, nothing is
/// told.
pub proof fn what_is_wrong_is_told(listeners: ListenersModel, rejected: Seq<Seq<char>>)
    ensures
        ({
            let told = listeners.degradation(rejected);
            let direct = listeners.active_direct.len() < listeners.direct.len();
            let relay = listeners.active_relay.len() < listeners.reservations.len();
            let tor = !(listeners.mode is DisableTor) && !listeners.active_tor;
            let mapping = listeners.port_mapping_enabled && listeners.mapped is None;
            &&& direct ==> told.contains(
                "direct listeners active "@ + decimal(listeners.active_direct.len()) + "/"@
                    + decimal(listeners.direct.len()),
            )
            &&& relay ==> told.contains(
                "relay reservations active "@ + decimal(listeners.active_relay.len()) + "/"@
                    + decimal(listeners.reservations.len()),
            )
            &&& tor ==> told.contains("Tor onion service is not reachable"@)
            &&& mapping ==> told.contains("automatic gateway port mapping is not active"@)
            &&& !direct && !relay && !tor && !mapping && rejected.len() == 0 ==> told.len() == 0
        }),
{
    let told = listeners.degradation(rejected);
    let a: int = if listeners.active_direct.len() < listeners.direct.len() { 1 } else { 0 };
    let b: int = if listeners.active_relay.len() < listeners.reservations.len() { 1 } else { 0 };
    let c: int = if !(listeners.mode is DisableTor) && !listeners.active_tor { 1 } else { 0 };
    if a == 1 {
        assert(told[0] == "direct listeners active "@ + decimal(listeners.active_direct.len())
            + "/"@ + decimal(listeners.direct.len()));
    }
    if b == 1 {
        assert(told[a] == "relay reservations active "@ + decimal(listeners.active_relay.len())
            + "/"@ + decimal(listeners.reservations.len()));
    }
    if c == 1 {
        assert(told[a + b] == "Tor onion service is not reachable"@);
    }
    if listeners.port_mapping_enabled && listeners.mapped is None {
        assert(told[a + b + c] == "automatic gateway port mapping is not active"@);
    }
}

} // verus!
