//! From the configuration of a node to the state in which its event loop
//! starts.

use crate::address::{
    address_of_text, address_text, last_peer, sorted_peers, terminal_peer, terminal_peer_id,
    AddressSet, Component, Multiaddr, PeerId, Protocol,
};
use crate::book::{normalize_known_address, normalized, BookModel, KnownAddressProblem};
use crate::discovery::terminal_peers;
use crate::endpoints::{
    addresses_of, bootstrap_problem, canonical_external, direct_quic, external_problem,
    first_problem, ipv4_is, local_problem, published_problem, stripped, texts,
    validate_bootstrap_addresses, validate_local_advertised_endpoints, BootstrapError,
    EndpointLimits, LocalEndpointProblem, LocalEndpoints, MAX_BOOTSTRAP_ADDRESSES,
};
use crate::links::LinksModel;
use crate::listeners::{Listeners, ListenersModel};
use crate::loop_state::{LoopModel, P2pEventLoop};
use crate::metrics::{ByPath, LogModel};
use crate::policy::{address_allowed, views};
use crate::port_mapping::{
    ipv4_quic_listener, listeners_mappable, mappable, validate_port_mapping_listeners,
};
use crate::table::{KeySet, Table};
use crate::tor::{NodeId, TorMode};
use crate::transport::sorted_vec;
use vstd::prelude::*;

verus! {

/// How a node takes part in the network.
pub struct P2pConfig {
    pub listen_addresses: Vec<Multiaddr>,
    pub external_addresses: Vec<Multiaddr>,
    pub bootstrap_addresses: Vec<Multiaddr>,
    pub relay_reservation_addresses: Vec<Multiaddr>,
    pub enable_dht_maintenance: bool,
    pub enable_relay_server: bool,
    pub enable_hole_punching: bool,
    pub enable_port_mapping: bool,
    pub public_endpoint: String,
    pub failure_domain: String,
    pub configure_failure_domain: bool,
    pub max_connections: usize,
    pub tor_mode: TorMode,
}

/// Why an address that is to be kept for good is refused.
#[derive(Clone, Copy, Debug, PartialEq, Eq, Structural)]
pub enum KeptAddressProblem {
    NoPeer,
    Known(KnownAddressProblem),
}

/// Why a configuration is refused.
#[derive(Clone, Copy, Debug)]
pub enum ConfigError {
    Bootstrap(BootstrapError),
    /// A gateway exposes the node, and only Tor may be used.
    MappingWithRequiredTor,
    /// There is not exactly one listener for a gateway to lead to.
    MappingListeners,
    Invalid,
    Local(LocalEndpointProblem),
    TooManyConnections,
    /// The relay at a place in the list.
    Relay(usize, KeptAddressProblem),
}

/// What a node starts with.
pub struct P2pPlan {
    pub state: P2pEventLoop,
    pub listeners: Listeners,
    /// What to listen on: the listener of a number is at that place.
    pub listen: Vec<Multiaddr>,
    /// The endpoints that are known to lead to the node.
    pub external: Vec<Multiaddr>,
    pub bootstrap: Vec<Multiaddr>,
    pub max_connections: u32,
    /// The DHT looks for its neighbours at once.
    pub find_neighbours: bool,
    pub relay_server: bool,
    pub hole_punching: bool,
}

/// What is wrong with an address that is to be kept for good.
pub open spec fn kept_problem(address: Seq<Component>) -> Option<KeptAddressProblem> {
    match terminal_peer(address) {
        None => Some(KeptAddressProblem::NoPeer),
        Some(peer) => match normalized(peer, address) {
            Err(problem) => Some(KeptAddressProblem::Known(problem)),
            Ok(_) => None,
        },
    }
}

/// One of some addresses leads to the peer by way of the base.
pub open spec fn leads_to(
    addresses: Set<Seq<Component>>,
    peer: PeerId,
    base: Seq<Component>,
) -> bool {
    exists|address: Seq<Component>| #[trigger]
        addresses.contains(address) && terminal_peer(address) == Some(peer) && normalized(
            peer,
            address,
        ) == Ok::<Seq<Component>, KnownAddressProblem>(base)
}

/// Some of the addresses leads to the peer.
pub open spec fn is_led_to(addresses: Set<Seq<Component>>, peer: PeerId) -> bool {
    exists|address: Seq<Component>| #[trigger]
        addresses.contains(address) && terminal_peer(address) == Some(peer) && normalized(
            peer,
            address,
        ) is Ok
}

/// Addresses by the peers to which they lead.
pub open spec fn by_peer(addresses: Set<Seq<Component>>) -> Map<PeerId, Set<Seq<Component>>> {
    Map::new(
        |peer: PeerId| is_led_to(addresses, peer),
        |peer: PeerId| Set::new(|base: Seq<Component>| leads_to(addresses, peer, base)),
    )
}

/// A table of addresses with one more.
pub open spec fn keeping(
    table: Map<PeerId, Set<Seq<Component>>>,
    peer: PeerId,
    base: Seq<Component>,
) -> Map<PeerId, Set<Seq<Component>>> {
    table.insert(
        peer,
        (if table.contains_key(peer) {
            table[peer]
        } else {
            Set::empty()
        }).insert(base),
    )
}

proof fn lemma_by_peer_insert(
    addresses: Set<Seq<Component>>,
    address: Seq<Component>,
    peer: PeerId,
    base: Seq<Component>,
)
    requires
        terminal_peer(address) == Some(peer),
        normalized(peer, address) == Ok::<Seq<Component>, KnownAddressProblem>(base),
    ensures
        by_peer(addresses.insert(address)) == keeping(by_peer(addresses), peer, base),
{
    let after = addresses.insert(address);
    let left = by_peer(after);
    let right = keeping(by_peer(addresses), peer, base);
    assert(after.contains(address));
    assert forall|p: PeerId| is_led_to(addresses, p) implies is_led_to(after, p) by {
        let a = choose|a: Seq<Component>| #[trigger]
            addresses.contains(a) && terminal_peer(a) == Some(p) && normalized(p, a) is Ok;
        assert(after.contains(a));
    }
    assert forall|p: PeerId, b: Seq<Component>| leads_to(addresses, p, b) implies leads_to(
        after,
        p,
        b,
    ) by {
        let a = choose|a: Seq<Component>| #[trigger]
            addresses.contains(a) && terminal_peer(a) == Some(p) && normalized(p, a) == Ok::<
                Seq<Component>,
                KnownAddressProblem,
            >(b);
        assert(after.contains(a));
    }
    assert(left.dom() =~= right.dom()) by {
        assert forall|p: PeerId| left.dom().contains(p) implies right.dom().contains(p) by {
            let a = choose|a: Seq<Component>| #[trigger]
                after.contains(a) && terminal_peer(a) == Some(p) && normalized(p, a) is Ok;
            if a != address {
                assert(addresses.contains(a));
            }
        }
    }
    assert forall|p: PeerId| left.dom().contains(p) implies left[p] == right[p] by {
        assert forall|b: Seq<Component>| left[p].contains(b) == right[p].contains(b) by {
            if leads_to(after, p, b) {
                let a = choose|a: Seq<Component>| #[trigger]
                    after.contains(a) && terminal_peer(a) == Some(p) && normalized(p, a) == Ok::<
                        Seq<Component>,
                        KnownAddressProblem,
                    >(b);
                if a != address {
                    assert(addresses.contains(a));
                    assert(leads_to(addresses, p, b));
                    assert(is_led_to(addresses, p));
                }
            }
            if leads_to(addresses, p, b) {
                let a = choose|a: Seq<Component>| #[trigger]
                    addresses.contains(a) && terminal_peer(a) == Some(p) && normalized(p, a)
                        == Ok::<Seq<Component>, KnownAddressProblem>(b);
                assert(is_led_to(addresses, p));
            }
        }
        assert(left[p] =~= right[p]);
    }
    assert(left =~= right);
}

/// Adds an address to those that are kept for good.
fn keep_address(table: &mut Table<PeerId, AddressSet>, address: &Multiaddr) -> (result: Result<
    PeerId,
    KeptAddressProblem,
>)
    requires
        old(table).wf(),
    ensures
        final(table).wf(),
        match result {
            Ok(peer) => {
                &&& terminal_peer(address@) == Some(peer)
                &&& normalized(peer, address@) is Ok
                &&& final(table)@ == keeping(old(table)@, peer, normalized(peer, address@)->Ok_0)
                &&& kept_problem(address@) is None
            },
            Err(problem) => kept_problem(address@) == Some(problem),
        },
{
    let peer = match terminal_peer_id(address) {
        Some(peer) => peer,
        None => {
            return Err(KeptAddressProblem::NoPeer);
        },
    };
    let base = match normalize_known_address(peer, address.duplicate()) {
        Ok(base) => base,
        Err(problem) => {
            return Err(KeptAddressProblem::Known(problem));
        },
    };
    let ghost start = table@;
    let mut kept = match table.remove(peer) {
        Some(kept) => kept,
        None => AddressSet::new(),
    };
    let _ = kept.insert(base);
    table.insert(peer, kept);
    assert(table@ =~= keeping(start, peer, base@));
    Ok(peer)
}

/// The configured entry points are accepted.
pub open spec fn bootstrap_accepted(
    limits: EndpointLimits,
    mode: TorMode,
    values: Seq<Seq<char>>,
) -> bool {
    &&& values.len() <= MAX_BOOTSTRAP_ADDRESSES
    &&& forall|i: int|
        0 <= i < values.len() ==> bootstrap_problem(limits, mode, #[trigger] values[i]) is None
}

/// The configured entry points are refused for this reason, which is the
/// first.
pub open spec fn bootstrap_refused(
    limits: EndpointLimits,
    mode: TorMode,
    values: Seq<Seq<char>>,
    error: BootstrapError,
) -> bool {
    match error {
        BootstrapError::TooMany(count) => count == values.len() && count > MAX_BOOTSTRAP_ADDRESSES,
        BootstrapError::Address(index, problem) => {
            &&& values.len() <= MAX_BOOTSTRAP_ADDRESSES
            &&& index < values.len()
            &&& bootstrap_problem(limits, mode, values[index as int]) == Some(problem)
            &&& forall|i: int|
                0 <= i < index ==> bootstrap_problem(limits, mode, #[trigger] values[i]) is None
        },
    }
}

/// The texts of addresses.
pub open spec fn address_texts(addresses: Seq<Multiaddr>) -> Seq<Seq<char>> {
    addresses.map_values(|address: Multiaddr| address_text(address@))
}

/// The relays on which reservations are asked for.
pub open spec fn relays_of(config: P2pConfig) -> Seq<Seq<Component>> {
    if config.tor_mode == TorMode::RequireTor {
        Seq::empty()
    } else {
        views(config.relay_reservation_addresses@)
    }
}

/// The addresses that the node listens on itself.
pub open spec fn direct_of(config: P2pConfig) -> Seq<Seq<Component>> {
    if config.tor_mode == TorMode::RequireTor {
        Seq::empty()
    } else {
        views(config.listen_addresses@)
    }
}

/// The reservations on relays.
pub open spec fn reservations_of(relays: Seq<Seq<Component>>) -> Seq<Seq<Component>> {
    relays.map_values(|relay: Seq<Component>| relay.push(Component::P2pCircuit))
}

/// The addresses of the onion service, where there is one.
pub open spec fn service_of(tor: Option<Seq<Component>>) -> Seq<Seq<Component>> {
    match tor {
        Some(address) => seq![address],
        None => Seq::empty(),
    }
}

/// What a configuration says of local endpoints.
pub open spec fn local_of(config: P2pConfig) -> LocalEndpoints {
    LocalEndpoints {
        listen_addresses: config.listen_addresses,
        external_addresses: config.external_addresses,
        relay_reservation_addresses: config.relay_reservation_addresses,
        enable_port_mapping: config.enable_port_mapping,
    }
}

/// The first relay that cannot be kept.
pub open spec fn first_refused(relays: Seq<Seq<Component>>) -> Option<(usize, KeptAddressProblem)>
    decreases relays.len(),
{
    if relays.len() == 0 {
        None
    } else {
        match first_refused(relays.drop_last()) {
            Some(error) => Some(error),
            None => match kept_problem(relays.last()) {
                Some(problem) => Some(((relays.len() - 1) as usize, problem)),
                None => None,
            },
        }
    }
}

/// The first thing, behind its entry points, for which a configuration is
/// refused.
pub open spec fn config_problem(
    limits: EndpointLimits,
    node: NodeId,
    config: P2pConfig,
    tor: bool,
) -> Option<ConfigError> {
    let mode = config.tor_mode;
    if config.enable_port_mapping && mode == TorMode::RequireTor {
        Some(ConfigError::MappingWithRequiredTor)
    } else if config.enable_port_mapping && !listeners_mappable(views(config.listen_addresses@)) {
        Some(ConfigError::MappingListeners)
    } else if (config.listen_addresses@.len() == 0 && config.relay_reservation_addresses@.len() == 0
        && !tor) || (config.configure_failure_domain && config.failure_domain@.len() == 0)
        || config.max_connections == 0 || (mode != TorMode::DisableTor) != tor {
        Some(ConfigError::Invalid)
    } else if local_problem(limits, node, mode, local_of(config)) is Some {
        Some(ConfigError::Local(local_problem(limits, node, mode, local_of(config))->0))
    } else if config.max_connections > u32::MAX {
        Some(ConfigError::TooManyConnections)
    } else {
        match first_refused(relays_of(config)) {
            Some((place, problem)) => Some(ConfigError::Relay(place, problem)),
            None => None,
        }
    }
}

/// The loop of a node that has no connections yet and has told the transport
/// nothing.
pub open spec fn idle(
    local_peer: PeerId,
    mode: TorMode,
    limits: EndpointLimits,
    persistent: Map<PeerId, Set<Seq<Component>>>,
    relay_members: Set<PeerId>,
    relay_reservation_peers: Set<PeerId>,
) -> LoopModel {
    LoopModel {
        local_peer,
        relay_reservation_peers,
        book: BookModel {
            mode,
            limits,
            persistent,
            learned: Map::empty(),
            opportunistic: Map::empty(),
            recovery: Map::empty(),
            quarantine: Map::empty(),
            relay_members,
        },
        links: LinksModel {
            mode,
            paths: Map::empty(),
            closed: Map::empty(),
            dialers: Map::empty(),
            relay_retirement: Map::empty(),
            duplicate_retirement: Map::empty(),
            collapsing: Set::empty(),
            unhealthy: Set::empty(),
        },
        log: LogModel {
            next_sequence: 1,
            sessions: Map::empty(),
            recent: Seq::empty(),
            metrics: ByPath::none(),
        },
        tiers: Map::empty(),
        dials: Map::empty(),
        promotions: Map::empty(),
        installed: Map::empty(),
        next_connection: 0,
        open: Set::empty(),
        last_paths: Map::empty(),
        transfers: Map::empty(),
        path_transfers: Map::empty(),
        pending: Map::empty(),
        queued: Seq::empty(),
        inbound: Map::empty(),
        responses: Map::empty(),
        next_request: 0,
        actions: Seq::empty(),
    }
}

impl LoopModel {
    /// The choice of transport is made for peers, one after the other.
    pub open spec fn each_reconciled(self, peers: Seq<PeerId>) -> LoopModel
        decreases peers.len(),
    {
        if peers.len() == 0 {
            self
        } else {
            self.each_reconciled(peers.drop_last()).reconciled(peers.last())
        }
    }

    /// The transport is told of the peers that are kept for good, and those at
    /// the entry points are dialled.
    pub open spec fn started(self, entry_points: Set<PeerId>) -> LoopModel {
        self.each_reconciled(sorted_peers(self.book.persistent.dom())).each_ensured(
            sorted_peers(entry_points),
        )
    }
}

/// The numbers of the first listeners.
pub open spec fn first_numbers(count: nat) -> Set<u64> {
    Set::new(|number: u64| number < count)
}

/// The listeners on relays: their numbers follow those of the others.
pub open spec fn numbered(reservations: Seq<Seq<Component>>, from: nat) -> Map<
    u64,
    Seq<Component>,
> {
    Map::new(
        |number: u64| from <= number < from + reservations.len(),
        |number: u64| reservations[number - from],
    )
}

/// What a node with a configuration starts with.
pub open spec fn plan_follows(
    plan: P2pPlan,
    limits: EndpointLimits,
    node: NodeId,
    config: P2pConfig,
    tor: Option<Seq<Component>>,
    members: Set<PeerId>,
) -> bool {
    let mode = config.tor_mode;
    let bootstrap = views(plan.bootstrap@);
    let relays = relays_of(config);
    let direct = direct_of(config);
    let onion = service_of(tor);
    &&& crate::address::peer_of_key(node.key@) is Some
    &&& bootstrap.to_set() == addresses_of(address_texts(config.bootstrap_addresses@))
    &&& crate::ordered::distinct(bootstrap)
    &&& crate::ordered::in_rank_order::<Multiaddr>(bootstrap)
    &&& plan.state.wf()
    &&& plan.state@ == idle(
        crate::address::peer_of_key(node.key@)->0,
        mode,
        limits,
        by_peer(bootstrap.to_set().union(relays.to_set())),
        members,
        terminal_peers(relays),
    ).started(terminal_peers(bootstrap))
    &&& views(plan.listen@) == direct + onion + reservations_of(relays)
    &&& views(plan.external@).to_set() == canonical_external(views(config.external_addresses@))
    &&& crate::ordered::distinct(views(plan.external@))
    &&& crate::ordered::in_rank_order::<Multiaddr>(views(plan.external@))
    &&& plan.max_connections == config.max_connections
    &&& plan.find_neighbours == (config.enable_dht_maintenance && bootstrap.len() > 0)
    &&& plan.relay_server == config.enable_relay_server
    &&& plan.hole_punching == config.enable_hole_punching
    &&& plan.listeners.wf()
    &&& plan.listeners@ == (ListenersModel {
        mode,
        direct: first_numbers(direct.len()),
        active_direct: Set::empty(),
        closed_direct: Set::empty(),
        reservations: reservations_of(relays),
        relay: numbered(reservations_of(relays), direct.len() + onion.len()),
        active_relay: Set::empty(),
        tor: if tor is Some {
            Some(direct.len() as u64)
        } else {
            None
        },
        active_tor: false,
        port_mapping_enabled: config.enable_port_mapping,
        mapping_listener: plan.listeners@.mapping_listener,
        mapping_active: false,
        mapped: None,
        advertised: views(plan.external@),
        starting: true,
    })
    &&& plan.listeners@.mapping_listener is Some == config.enable_port_mapping
    &&& plan.listeners@.mapping_listener matches Some(number) ==> number < direct.len() && mappable(
        direct[number as int],
    )
}

fn texts_of(addresses: &Vec<Multiaddr>) -> (list: Vec<String>)
    ensures
        texts(list@) == address_texts(addresses@),
{
    let mut list: Vec<String> = Vec::new();
    let mut i: usize = 0;
    while i < addresses.len()
        invariant
            i <= addresses@.len(),
            texts(list@) == address_texts(addresses@).take(i as int),
        decreases addresses@.len() - i,
    {
        let text = addresses[i].text();
        let ghost before = texts(list@);
        list.push(text);
        assert(texts(list@) =~= before.push(text@));
        assert(texts(list@) =~= address_texts(addresses@).take(i + 1));
        i += 1;
    }
    assert(texts(list@) =~= address_texts(addresses@));
    list
}

/// Whatever is published can be kept.
proof fn lemma_bootstrap_is_kept(limits: EndpointLimits, mode: TorMode, value: Seq<char>)
    requires
        bootstrap_problem(limits, mode, value) is None,
    ensures
        kept_problem(address_of_text(value)->0) is None,
        address_of_text(value) is Some,
{
    let address = address_of_text(value)->0;
    let peer = terminal_peer(address)->0;
    assert(published_problem(limits, peer, value) is None);
    let base = address.drop_last();
    assert(last_peer(address) == Some(peer));
    if crate::address::is_onion(base) {
        let k = choose|k: int| 0 <= k < base.len() && #[trigger] base[k] is Onion3;
        assert(address[k] == base[k]);
        assert(crate::address::is_onion(address));
        assert(address[0] == base[0]);
    }
}

fn keep_bootstrap(
    table: &mut Table<PeerId, AddressSet>,
    bootstrap: &Vec<Multiaddr>,
)
    requires
        old(table).wf(),
        old(table)@ == by_peer(Set::empty()),
        forall|i: int|
            0 <= i < bootstrap@.len() ==> kept_problem(#[trigger] bootstrap@[i]@) is None,
    ensures
        final(table).wf(),
        final(table)@ == by_peer(views(bootstrap@).to_set()),
{
    let ghost all = views(bootstrap@);
    let mut i: usize = 0;
    assert(all.take(0).to_set() =~= Set::empty());
    while i < bootstrap.len()
        invariant
            i <= bootstrap@.len(),
            all == views(bootstrap@),
            table.wf(),
            table@ == by_peer(all.take(i as int).to_set()),
            forall|k: int|
                0 <= k < bootstrap@.len() ==> kept_problem(#[trigger] bootstrap@[k]@) is None,
        decreases bootstrap@.len() - i,
    {
        let result = keep_address(table, &bootstrap[i]);
        proof {
            let taken = all.take(i as int);
            assert(kept_problem(bootstrap@[i as int]@) is None);
            assert(all.take(i + 1) =~= taken.push(all[i as int]));
            crate::ordered::lemma_push_set(taken, all[i as int]);
            let peer = result->Ok_0;
            lemma_by_peer_insert(
                taken.to_set(),
                all[i as int],
                peer,
                normalized(peer, all[i as int])->Ok_0,
            );
        }
        i += 1;
    }
    assert(all.take(i as int) =~= all);
}

proof fn lemma_first_refused_stays(relays: Seq<Seq<Component>>, n: int)
    requires
        0 <= n <= relays.len(),
        first_refused(relays.take(n)) is Some,
    ensures
        first_refused(relays) == first_refused(relays.take(n)),
    decreases relays.len() - n,
{
    if n < relays.len() {
        assert(relays.take(n + 1).drop_last() =~= relays.take(n));
        lemma_first_refused_stays(relays, n + 1);
    } else {
        assert(relays.take(n) =~= relays);
    }
}

/// Adds the relays to the addresses that are kept for good; the relays' peers
/// and the reservations on them.
fn keep_relays(
    table: &mut Table<PeerId, AddressSet>,
    relays: &Vec<Multiaddr>,
    Ghost(before): Ghost<Set<Seq<Component>>>,
) -> (result: Result<(KeySet<PeerId>, Vec<Multiaddr>), (usize, KeptAddressProblem)>)
    requires
        old(table).wf(),
        old(table)@ == by_peer(before),
    ensures
        final(table).wf(),
        match result {
            Ok((peers, reservations)) => {
                &&& first_refused(views(relays@)) is None
                &&& final(table)@ == by_peer(before.union(views(relays@).to_set()))
                &&& peers.wf()
                &&& peers@ == terminal_peers(views(relays@))
                &&& views(reservations@) == reservations_of(views(relays@))
            },
            Err(error) => first_refused(views(relays@)) == Some(error),
        },
{
    let ghost all = views(relays@);
    let mut peers: KeySet<PeerId> = KeySet::new();
    let mut reservations: Vec<Multiaddr> = Vec::new();
    let mut i: usize = 0;
    proof {
        assert(before.union(all.take(0).to_set()) =~= before);
        assert(peers@ =~= terminal_peers(all.take(0)));
        assert(views(reservations@) =~= reservations_of(all.take(0)));
    }
    while i < relays.len()
        invariant
            i <= relays@.len(),
            all == views(relays@),
            table.wf(),
            table@ == by_peer(before.union(all.take(i as int).to_set())),
            first_refused(all.take(i as int)) is None,
            peers.wf(),
            peers@ == terminal_peers(all.take(i as int)),
            views(reservations@) == reservations_of(all.take(i as int)),
        decreases relays@.len() - i,
    {
        let ghost taken = all.take(i as int);
        let ghost next = all.take(i + 1);
        let ghost known = peers@;
        proof {
            assert(next.drop_last() =~= taken);
            assert(next.last() == relays@[i as int]@);
        }
        match keep_address(table, &relays[i]) {
            Ok(peer) => {
                peers.insert(peer);
                let reservation = relays[i].duplicate().with(Protocol::P2pCircuit);
                let ghost asked = views(reservations@);
                reservations.push(reservation);
                proof {
                    assert(views(reservations@) =~= asked.push(reservation@));
                    assert(reservations_of(next) =~= reservations_of(taken).push(
                        all[i as int].push(Component::P2pCircuit),
                    ));
                    assert(next =~= taken.push(all[i as int]));
                    crate::ordered::lemma_push_set(taken, all[i as int]);
                    lemma_by_peer_insert(
                        before.union(taken.to_set()),
                        all[i as int],
                        peer,
                        normalized(peer, all[i as int])->Ok_0,
                    );
                    assert(before.union(taken.to_set()).insert(all[i as int]) =~= before.union(
                        next.to_set(),
                    ));
                    assert forall|p: PeerId| peers@.contains(p) == terminal_peers(next).contains(
                        p,
                    ) by {
                        if terminal_peers(taken).contains(p) {
                            let k = choose|k: int|
                                0 <= k < taken.len() && terminal_peer(#[trigger] taken[k]) == Some(
                                    p,
                                );
                            assert(next[k] == taken[k]);
                        }
                        assert(next[i as int] == all[i as int]);
                        if terminal_peers(next).contains(p) {
                            let k = choose|k: int|
                                0 <= k < next.len() && terminal_peer(#[trigger] next[k]) == Some(p);
                            if k < i {
                                assert(taken[k] == next[k]);
                            }
                        }
                    }
                    assert(peers@ =~= terminal_peers(next));
                    assert(views(reservations@) =~= reservations_of(next));
                }
            },
            Err(problem) => {
                proof {
                    assert(first_refused(next) == Some((i, problem)));
                    lemma_first_refused_stays(all, i + 1);
                }
                return Err((i, problem));
            },
        }
        i += 1;
    }
    assert(all.take(i as int) =~= all);
    Ok((peers, reservations))
}

/// The numbers of the first listeners.
fn count_up(count: usize) -> (numbers: KeySet<u64>)
    ensures
        numbers.wf(),
        numbers@ == first_numbers(count as nat),
{
    let mut numbers: KeySet<u64> = KeySet::new();
    let mut i: usize = 0;
    assert(numbers@ =~= first_numbers(0));
    while i < count
        invariant
            i <= count,
            numbers.wf(),
            numbers@ == first_numbers(i as nat),
        decreases count - i,
    {
        numbers.insert(i as u64);
        assert(numbers@ =~= first_numbers((i + 1) as nat));
        i += 1;
    }
    numbers
}

/// Appends copies of addresses.
fn append_addresses(list: &mut Vec<Multiaddr>, addresses: &Vec<Multiaddr>)
    ensures
        views(final(list)@) == views(old(list)@) + views(addresses@),
{
    let ghost start = views(list@);
    let mut i: usize = 0;
    assert(views(list@) =~= start + views(addresses@).take(0));
    while i < addresses.len()
        invariant
            i <= addresses@.len(),
            views(list@) == start + views(addresses@).take(i as int),
        decreases addresses@.len() - i,
    {
        let copy = addresses[i].duplicate();
        let ghost before = views(list@);
        list.push(copy);
        assert(views(list@) =~= before.push(copy@));
        assert(views(list@) =~= start + views(addresses@).take(i + 1));
        i += 1;
    }
    assert(views(addresses@).take(i as int) =~= views(addresses@));
}

/// The reservations, by the numbers of the listeners that are for them.
fn number_reservations(reservations: &Vec<Multiaddr>, from: usize) -> (table: Table<u64, Multiaddr>)
    requires
        from + reservations@.len() <= u64::MAX,
    ensures
        table.wf(),
        table@ == numbered(views(reservations@), from as nat),
{
    let mut table: Table<u64, Multiaddr> = Table::new();
    let ghost all = views(reservations@);
    let mut i: usize = 0;
    assert(table@ =~= numbered(all.take(0), from as nat));
    while i < reservations.len()
        invariant
            i <= reservations@.len(),
            from + reservations@.len() <= u64::MAX,
            all == views(reservations@),
            table.wf(),
            table@ == numbered(all.take(i as int), from as nat),
        decreases reservations@.len() - i,
    {
        let number: u64 = from as u64 + i as u64;
        let copy = reservations[i].duplicate();
        table.insert(number, copy);
        assert(table@ =~= numbered(all.take(i + 1), from as nat));
        i += 1;
    }
    assert(all.take(i as int) =~= all);
    table
}

/// The listener that a gateway leads to.
fn mapping_place(listeners: &Vec<Multiaddr>) -> (place: Option<usize>)
    ensures
        place matches Some(place) ==> place < listeners@.len() && mappable(
            listeners@[place as int]@,
        ),
        listeners_mappable(views(listeners@)) ==> place is Some,
{
    let ghost all = views(listeners@);
    let mut i: usize = 0;
    while i < listeners.len()
        invariant
            i <= listeners@.len(),
            all == views(listeners@),
            forall|k: int|
                0 <= k < i ==> !(mappable(#[trigger] all[k]) && all[k][0] == Component::Ip4(
                    seq![0u8, 0u8, 0u8, 0u8],
                )),
        decreases listeners@.len() - i,
    {
        assert(all[i as int] == listeners@[i as int]@);
        if let Some(socket) = ipv4_quic_listener(&listeners[i]) {
            if ipv4_is(&socket.ip, 0) {
                return Some(i);
            }
        }
        i += 1;
    }
    None
}

impl P2pEventLoop {
    /// Tells the transport of the peers that are kept for good, and dials
    /// those at the entry points.
    fn start(&mut self, bootstrap: &Vec<Multiaddr>)
        requires
            old(self).wf(),
        ensures
            final(self).wf(),
            final(self)@ == old(self)@.started(terminal_peers(views(bootstrap@))),
    {
        proof {
            crate::address::lemma_peer_rank_tells_apart();
        }
        let keys = self.book.persistent.sorted_keys();
        let peers = sorted_vec(&keys);
        let mut i: usize = 0;
        assert(peers@.take(0) =~= Seq::empty());
        while i < peers.len()
            invariant
                i <= peers@.len(),
                self.wf(),
                self@ == old(self)@.each_reconciled(peers@.take(i as int)),
            decreases peers@.len() - i,
        {
            assert(peers@.take(i + 1).drop_last() =~= peers@.take(i as int));
            self.reconcile_policy_addresses(peers[i]);
            i += 1;
        }
        assert(peers@.take(i as int) =~= peers@);
        self.retry_bootstrap(bootstrap);
    }
}

/// Prepares a node: checks its configuration, and says what it listens on,
/// whom it dials, and in which state its event loop starts. The onion
/// service's address is given where the node has one; the members are those
/// of its guild, once that is active.
pub fn build_p2p_with_tor(
    limits: &EndpointLimits,
    node: &NodeId,
    config: P2pConfig,
    tor: Option<Multiaddr>,
    members: KeySet<PeerId>,
) -> (result: Result<P2pPlan, ConfigError>)
    requires
        members.wf(),
        config.listen_addresses@.len() + config.relay_reservation_addresses@.len() < usize::MAX,
    ensures
        ({
            let entry = address_texts(config.bootstrap_addresses@);
            match result {
                Err(ConfigError::Bootstrap(error)) => bootstrap_refused(
                    *limits,
                    config.tor_mode,
                    entry,
                    error,
                ),
                Err(error) => {
                    &&& bootstrap_accepted(*limits, config.tor_mode, entry)
                    &&& config_problem(*limits, *node, config, tor is Some) == Some(error)
                },
                Ok(plan) => {
                    &&& bootstrap_accepted(*limits, config.tor_mode, entry)
                    &&& config_problem(*limits, *node, config, tor is Some) is None
                    &&& plan_follows(
                        plan,
                        *limits,
                        *node,
                        config,
                        crate::listeners::address_view(tor),
                        members@,
                    )
                },
            }
        }),
{
    let mode = config.tor_mode;
    let values = texts_of(&config.bootstrap_addresses);
    let ghost entry = address_texts(config.bootstrap_addresses@);
    let bootstrap = match validate_bootstrap_addresses(limits, mode, &values) {
        Ok(bootstrap) => bootstrap,
        Err(error) => {
            return Err(ConfigError::Bootstrap(error));
        },
    };
    assert(bootstrap_accepted(*limits, mode, entry));
    if config.enable_port_mapping {
        if mode.requires_tor() {
            return Err(ConfigError::MappingWithRequiredTor);
        }
        if !validate_port_mapping_listeners(&config.listen_addresses) {
            return Err(ConfigError::MappingListeners);
        }
    }
    let empty_domain = config.failure_domain.as_str().is_empty();
    if (config.listen_addresses.len() == 0 && config.relay_reservation_addresses.len() == 0
        && tor.is_none()) || (config.configure_failure_domain && empty_domain)
        || config.max_connections == 0 || mode.enabled() != tor.is_some() {
        return Err(ConfigError::Invalid);
    }
    let ghost whole = config;
    let local = LocalEndpoints {
        listen_addresses: config.listen_addresses,
        external_addresses: config.external_addresses,
        relay_reservation_addresses: config.relay_reservation_addresses,
        enable_port_mapping: config.enable_port_mapping,
    };
    let external = match validate_local_advertised_endpoints(limits, node, mode, &local) {
        Ok(external) => external,
        Err(problem) => {
            return Err(ConfigError::Local(problem));
        },
    };
    if config.max_connections > u32::MAX as usize {
        return Err(ConfigError::TooManyConnections);
    }
    let peer = match node.peer_id() {
        Some(peer) => peer,
        None => {
            return Err(ConfigError::Local(LocalEndpointProblem::NoIdentity));
        },
    };
    let mut direct: Vec<Multiaddr> = Vec::new();
    let mut relays: Vec<Multiaddr> = Vec::new();
    if !mode.requires_tor() {
        direct = local.listen_addresses;
        relays = local.relay_reservation_addresses;
    }
    assert(views(direct@) =~= direct_of(whole));
    assert(views(relays@) =~= relays_of(whole));
    let mut persistent: Table<PeerId, AddressSet> = Table::new();
    proof {
        assert(persistent@ =~= by_peer(Set::empty()));
        assert forall|i: int| 0 <= i < bootstrap@.len() implies kept_problem(
            #[trigger] bootstrap@[i]@,
        ) is None by {
            assert(views(bootstrap@)[i] == bootstrap@[i]@);
            assert(views(bootstrap@).to_set().contains(bootstrap@[i]@));
            let k = choose|k: int|
                0 <= k < entry.len() && address_of_text(#[trigger] entry[k]) == Some(
                    bootstrap@[i]@,
                );
            assert(texts(values@)[k] == entry[k]);
            lemma_bootstrap_is_kept(*limits, mode, entry[k]);
        }
    }
    keep_bootstrap(&mut persistent, &bootstrap);
    let (reservation_peers, reservations) = match keep_relays(
        &mut persistent,
        &relays,
        Ghost(views(bootstrap@).to_set()),
    ) {
        Ok(kept) => kept,
        Err((place, problem)) => {
            return Err(ConfigError::Relay(place, problem));
        },
    };
    let mut state = P2pEventLoop::new(
        peer,
        mode,
        *limits,
        persistent,
        members,
        reservation_peers,
    );
    assert(state@ =~= idle(
        peer,
        mode,
        *limits,
        by_peer(views(bootstrap@).to_set().union(relays_of(whole).to_set())),
        members@,
        terminal_peers(relays_of(whole)),
    ));
    state.start(&bootstrap);
    let mapping: Option<u64> = if config.enable_port_mapping {
        match mapping_place(&direct) {
            Some(place) => Some(place as u64),
            None => None,
        }
    } else {
        None
    };
    let direct_count: usize = direct.len();
    let mut listen: Vec<Multiaddr> = direct;
    let mut from: usize = direct_count;
    let mut onion: Option<u64> = None;
    let ghost service = service_of(crate::listeners::address_view(tor));
    if let Some(address) = tor {
        onion = Some(direct_count as u64);
        from = direct_count + 1;
        listen.push(address);
    }
    assert(views(listen@) =~= direct_of(whole) + service);
    append_addresses(&mut listen, &reservations);
    let relay = number_reservations(&reservations, from);
    let mut advertised: Vec<Multiaddr> = Vec::new();
    append_addresses(&mut advertised, &external);
    assert(views(advertised@) =~= views(external@));
    let listeners = Listeners::new(
        mode,
        count_up(direct_count),
        relay,
        reservations,
        onion,
        config.enable_port_mapping,
        mapping,
        advertised,
    );
    let find_neighbours = config.enable_dht_maintenance && bootstrap.len() > 0;
    Ok(
        P2pPlan {
            state,
            listeners,
            listen,
            external,
            bootstrap,
            max_connections: config.max_connections as u32,
            find_neighbours,
            relay_server: config.enable_relay_server,
            hole_punching: config.enable_hole_punching,
        },
    )
}

/// Prepares a node that does not use Tor.
pub fn build_p2p(
    limits: &EndpointLimits,
    node: &NodeId,
    config: P2pConfig,
    members: KeySet<PeerId>,
) -> (result: Result<P2pPlan, ConfigError>)
    requires
        members.wf(),
        config.listen_addresses@.len() + config.relay_reservation_addresses@.len() < usize::MAX,
    ensures
        ({
            let plain = P2pConfig { tor_mode: TorMode::DisableTor, ..config };
            let entry = address_texts(config.bootstrap_addresses@);
            match result {
                Err(ConfigError::Bootstrap(error)) => bootstrap_refused(
                    *limits,
                    TorMode::DisableTor,
                    entry,
                    error,
                ),
                Err(error) => {
                    &&& bootstrap_accepted(*limits, TorMode::DisableTor, entry)
                    &&& config_problem(*limits, *node, plain, false) == Some(error)
                },
                Ok(plan) => {
                    &&& bootstrap_accepted(*limits, TorMode::DisableTor, entry)
                    &&& config_problem(*limits, *node, plain, false) is None
                    &&& plan_follows(plan, *limits, *node, plain, None, members@)
                },
            }
        }),
{
    let mut plain = config;
    plain.tor_mode = TorMode::DisableTor;
    build_p2p_with_tor(limits, node, plain, None, members)
}

/// The endpoints that a node announces without having heard of them from its
/// transport are direct ones, and its mode lets it use them.
pub proof fn announced_endpoints_are_direct(
    plan: P2pPlan,
    limits: EndpointLimits,
    node: NodeId,
    config: P2pConfig,
    tor: Option<Seq<Component>>,
    members: Set<PeerId>,
    place: int,
)
    requires
        plan_follows(plan, limits, node, config, tor, members),
        config_problem(limits, node, config, tor is Some) is None,
        0 <= place < plan.external@.len(),
    ensures
        direct_quic(plan.external@[place]@),
        address_allowed(config.tor_mode, plan.external@[place]@),
        config.tor_mode != TorMode::RequireTor,
{
    let address = plan.external@[place]@;
    assert(views(plan.external@)[place] == address);
    assert(views(plan.external@).to_set().contains(address));
    let external = views(config.external_addresses@);
    let k = choose|k: int| 0 <= k < external.len() && stripped(#[trigger] external[k]) == address;
    let peer = crate::address::peer_of_key(node.key@)->0;
    let problem = |address: Seq<Component>|
        external_problem(limits, peer, config.tor_mode, address);
    lemma_no_first_problem(external, problem, k);
}

proof fn lemma_no_first_problem(
    items: Seq<Seq<Component>>,
    problem: spec_fn(Seq<Component>) -> Option<LocalEndpointProblem>,
    k: int,
)
    requires
        first_problem(items, problem) is None,
        0 <= k < items.len(),
    ensures
        problem(items[k]) is None,
    decreases items.len(),
{
    if k < items.len() - 1 {
        lemma_no_first_problem(items.drop_last(), problem, k);
    }
}

/// A node starts with an address book that holds what its configuration
/// names and nothing else, and has no connections; what it tells its transport
/// obeys its mode.
pub proof fn a_started_node_is_orderly(
    plan: P2pPlan,
    limits: EndpointLimits,
    node: NodeId,
    config: P2pConfig,
    tor: Option<Seq<Component>>,
    members: Set<PeerId>,
)
    requires
        plan_follows(plan, limits, node, config, tor, members),
    ensures
        plan.state@.orderly(),
        plan.state@.mode() == config.tor_mode,
        plan.state@.book.persistent == by_peer(
            views(plan.bootstrap@).to_set().union(relays_of(config).to_set()),
        ),
{
    let peer = crate::address::peer_of_key(node.key@)->0;
    let start = idle(
        peer,
        config.tor_mode,
        limits,
        by_peer(views(plan.bootstrap@).to_set().union(relays_of(config).to_set())),
        members,
        terminal_peers(relays_of(config)),
    );
    assert(start.orderly());
    crate::laws::starting_keeps_order(start, terminal_peers(views(plan.bootstrap@)));
}

/// A configuration is refused for the first thing that is wrong with it: a mapping
/// that Tor rules out, or that has not just one listener to lead to; nothing to
/// listen on, an empty failure domain, no connections, or a service over Tor where
/// none is wanted or none where one is; local endpoints that are refused; more
/// connections than can be counted; and a relay that cannot be kept.
pub proof fn a_configuration_is_refused_for_the_first_thing_wrong(
    limits: EndpointLimits,
    node: NodeId,
    config: P2pConfig,
    tor: bool,
)
    ensures
        ({
            let problem = config_problem(limits, node, config, tor);
            let maps = config.enable_port_mapping;
            let hidden = config.tor_mode is RequireTor;
            let led = listeners_mappable(views(config.listen_addresses@));
            let silent = config.listen_addresses@.len() == 0
                && config.relay_reservation_addresses@.len() == 0 && !tor;
            let nowhere = config.configure_failure_domain && config.failure_domain@.len() == 0;
            let torn = tor == (config.tor_mode is DisableTor);
            let wrong = silent || nowhere || config.max_connections == 0 || torn;
            let local = local_problem(
                limits,
                node,
                config.tor_mode,
                (LocalEndpoints {
                    listen_addresses: config.listen_addresses,
                    external_addresses: config.external_addresses,
                    relay_reservation_addresses: config.relay_reservation_addresses,
                    enable_port_mapping: config.enable_port_mapping,
                }),
            );
            &&& maps && hidden ==> problem == Some(ConfigError::MappingWithRequiredTor)
            &&& maps && !hidden && !led ==> problem == Some(ConfigError::MappingListeners)
            &&& !(maps && (hidden || !led)) && wrong ==> problem == Some(ConfigError::Invalid)
            &&& !(maps && (hidden || !led)) && !wrong ==> {
                &&& local matches Some(found) ==> problem == Some(ConfigError::Local(found))
                &&& local is None && config.max_connections > 4294967295 ==> problem == Some(
                    ConfigError::TooManyConnections,
                )
                &&& local is None && config.max_connections <= 4294967295 && hidden
                    ==> problem is None
                &&& local is None && config.max_connections <= 4294967295 && !hidden ==> match first_refused(
                    views(config.relay_reservation_addresses@),
                ) {
                    Some((place, found)) => problem == Some(ConfigError::Relay(place, found)),
                    None => problem is None,
                }
            }
        }),
{
}

/// A relay is refused at the first place at which one names no peer, or cannot be
/// known as an address of the peer that it names.
pub proof fn the_first_relay_that_cannot_be_kept_is_told(
    relays: Seq<Seq<Component>>,
    at: int,
    address: Seq<Component>,
    peer: PeerId,
)
    requires
        relays.len() <= usize::MAX,
    ensures
        first_refused(relays) is None <==> (forall|i: int|
            0 <= i < relays.len() ==> kept_problem(#[trigger] relays[i]) is None),
        0 <= at < relays.len() && kept_problem(relays[at]) is Some && (forall|i: int|
            0 <= i < at ==> kept_problem(#[trigger] relays[i]) is None) ==> first_refused(relays)
            == Some((at as usize, kept_problem(relays[at])->0)),
        terminal_peer(address) is None ==> kept_problem(address) == Some(KeptAddressProblem::NoPeer),
        terminal_peer(address) == Some(peer) ==> kept_problem(address) == match normalized(
            peer,
            address,
        ) {
            Err(problem) => Some(KeptAddressProblem::Known(problem)),
            Ok(_) => None,
        },
    decreases relays.len(),
{
    if relays.len() > 0 {
        let before = relays.drop_last();
        the_first_relay_that_cannot_be_kept_is_told(before, at, address, peer);
        assert(relays.last() == relays[relays.len() - 1]);
        assert(forall|i: int| 0 <= i < before.len() ==> before[i] == relays[i]);
        if forall|i: int| 0 <= i < before.len() ==> kept_problem(#[trigger] before[i]) is None {
            assert forall|i: int| 0 <= i < relays.len() - 1 implies kept_problem(
                #[trigger] relays[i],
            ) is None by {
                assert(before[i] == relays[i]);
            }
        } else {
            let i = choose|i: int|
                0 <= i < before.len() && kept_problem(#[trigger] before[i]) is Some;
            assert(relays[i] == before[i]);
        }
        if 0 <= at < relays.len() && kept_problem(relays[at]) is Some && (forall|i: int|
            0 <= i < at ==> kept_problem(#[trigger] relays[i]) is None) {
            assert forall|i: int| 0 <= i < at && i < before.len() implies kept_problem(
                #[trigger] before[i],
            ) is None by {
                assert(before[i] == relays[i]);
            }
        }
    }
}

/// A node listens on what it was told to, in this order: on its own addresses, for
/// its service over Tor, and by way of each relay; where everything must go over
/// Tor, for the service alone. None of these is there yet, and the relays are known
/// by their numbers.
pub proof fn a_node_listens_where_it_was_told_to(
    plan: P2pPlan,
    limits: EndpointLimits,
    node: NodeId,
    config: P2pConfig,
    tor: Option<Seq<Component>>,
    members: Set<PeerId>,
)
    requires
        plan_follows(plan, limits, node, config, tor, members),
    ensures
        ({
            let hidden = config.tor_mode is RequireTor;
            let own = if hidden {
                0
            } else {
                config.listen_addresses@.len() as int
            };
            let service: int = if tor is Some {
                1
            } else {
                0
            };
            let relays = if hidden {
                0
            } else {
                config.relay_reservation_addresses@.len() as int
            };
            let listeners = plan.listeners@;
            &&& plan.listen@.len() == own + service + relays
            &&& forall|i: int|
                0 <= i < own ==> #[trigger] plan.listen@[i]@ == config.listen_addresses@[i]@
            &&& tor matches Some(address) ==> plan.listen@[own]@ == address
            &&& forall|i: int|
                #![trigger config.relay_reservation_addresses@[i]]
                0 <= i < relays ==> plan.listen@[own + service + i]@
                    == config.relay_reservation_addresses@[i]@.push(Component::P2pCircuit)
            &&& forall|number: u64| #[trigger] listeners.direct.contains(number) <==> number < own
            &&& listeners.tor == (if tor is Some {
                Some(own as u64)
            } else {
                None
            })
            &&& forall|number: u64| #[trigger]
                listeners.relay.contains_key(number) <==> own + service <= number < own + service
                    + relays
            &&& forall|number: u64| #[trigger]
                listeners.relay.contains_key(number) ==> listeners.relay[number]
                    == plan.listen@[number as int]@
            &&& listeners.active_direct.is_empty() && listeners.active_relay.is_empty()
                && !listeners.active_tor && listeners.mapped is None && !listeners.mapping_active
            &&& listeners.mode == config.tor_mode && listeners.starting
        }),
{
    let hidden = config.tor_mode is RequireTor;
    let relays = relays_of(config);
    let direct = direct_of(config);
    let onion = service_of(tor);
    let all = views(plan.listen@);
    assert(all.len() == plan.listen@.len());
    assert forall|i: int| 0 <= i < direct.len() implies #[trigger] plan.listen@[i]@
        == config.listen_addresses@[i]@ by {
        assert(all[i] == direct[i]);
        assert(views(config.listen_addresses@)[i] == config.listen_addresses@[i]@);
    }
    if tor is Some {
        assert(all[direct.len() as int] == onion[0]);
    }
    assert forall|i: int|
        #![trigger config.relay_reservation_addresses@[i]]
        0 <= i < relays.len() implies plan.listen@[direct.len() + onion.len() + i]@
        == config.relay_reservation_addresses@[i]@.push(Component::P2pCircuit) by {
        assert(all[direct.len() + onion.len() + i] == reservations_of(relays)[i]);
        assert(views(config.relay_reservation_addresses@)[i]
            == config.relay_reservation_addresses@[i]@);
    }
    assert forall|number: u64| #[trigger]
        plan.listeners@.relay.contains_key(number) implies plan.listeners@.relay[number]
        == plan.listen@[number as int]@ by {
        assert(all[number as int] == reservations_of(relays)[number - direct.len() - onion.len()]);
    }
}

/// A node keeps the addresses of its entry points and relays for good, each under
/// the peer that it leads to, and nothing else; it does what else it was told.
pub proof fn a_node_keeps_what_it_was_told(
    plan: P2pPlan,
    limits: EndpointLimits,
    node: NodeId,
    config: P2pConfig,
    tor: Option<Seq<Component>>,
    members: Set<PeerId>,
    peer: PeerId,
    base: Seq<Component>,
)
    requires
        plan_follows(plan, limits, node, config, tor, members),
        base.len() > 0,
        last_peer(base) is None,
    ensures
        ({
            let address = base.push(Component::P2p(peer));
            let kept = plan.state@.book.persistent;
            let given = views(plan.bootstrap@).contains(address) || !(config.tor_mode is RequireTor)
                && views(config.relay_reservation_addresses@).contains(address);
            &&& given && normalized(peer, address) is Ok ==> kept.contains_key(peer)
                && kept[peer].contains(base)
            &&& plan.max_connections == config.max_connections
            &&& plan.relay_server == config.enable_relay_server
            &&& plan.hole_punching == config.enable_hole_punching
            &&& plan.find_neighbours <==> config.enable_dht_maintenance && plan.bootstrap@.len() > 0
        }),
        forall|i: int|
            #![trigger config.bootstrap_addresses@[i]]
            0 <= i < config.bootstrap_addresses@.len() && address_of_text(
                address_text(config.bootstrap_addresses@[i]@),
            ) == Some(config.bootstrap_addresses@[i]@) ==> views(plan.bootstrap@).contains(
                config.bootstrap_addresses@[i]@,
            ),
{
    a_started_node_is_orderly(plan, limits, node, config, tor, members);
    let address = base.push(Component::P2p(peer));
    let known = views(plan.bootstrap@).to_set().union(relays_of(config).to_set());
    assert(address.last() == Component::P2p(peer));
    assert(address.drop_last() =~= base);
    if views(plan.bootstrap@).contains(address) || !(config.tor_mode is RequireTor) && views(
        config.relay_reservation_addresses@,
    ).contains(address) {
        assert(known.contains(address));
        if normalized(peer, address) is Ok {
            assert(terminal_peer(address) == Some(peer));
            assert(leads_to(known, peer, base));
            assert(is_led_to(known, peer));
        }
    }
    let values = address_texts(config.bootstrap_addresses@);
    assert forall|i: int|
        #![trigger config.bootstrap_addresses@[i]]
        0 <= i < config.bootstrap_addresses@.len() && address_of_text(
            address_text(config.bootstrap_addresses@[i]@),
        ) == Some(config.bootstrap_addresses@[i]@) implies views(plan.bootstrap@).contains(
        config.bootstrap_addresses@[i]@,
    ) by {
        assert(values[i] == address_text(config.bootstrap_addresses@[i]@));
        assert(addresses_of(values).contains(config.bootstrap_addresses@[i]@));
        assert(views(plan.bootstrap@).to_set().contains(config.bootstrap_addresses@[i]@));
    }
}

} // verus!
