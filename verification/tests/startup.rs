//! From a configuration to listeners, and from listeners to published
//! endpoints.

use mb_node::address::{Multiaddr, PeerId, Protocol};
use mb_node::book::KnownAddressProblem;
use mb_node::config::{build_p2p, build_p2p_with_tor, ConfigError, KeptAddressProblem, P2pConfig};
use mb_node::endpoints::{BootstrapError, EndpointLimits, EndpointProblem, LocalEndpointProblem};
use mb_node::listeners::{ListenerFailure, Listeners, MappingError};
use mb_node::loop_state::Action;
use mb_node::publication::{
    advertised_p2p_endpoints, available_p2p_endpoints, publication_expiry, PublicationError,
};
use mb_node::table::{KeySet, Table};
use mb_node::tor::{onion_listener_address, InboundStream, NodeId, OnionEvent, OnionListeners, TorMode};

const LIMITS: EndpointLimits = EndpointLimits { per_peer: 8, bytes: 512 };

/// The SHA3-256 hash, from which the checksum of an onion address is taken.
fn sha3_256(input: &[u8]) -> [u8; 32] {
    const ROUNDS: [u64; 24] = [
        0x0000000000000001, 0x0000000000008082, 0x800000000000808a, 0x8000000080008000,
        0x000000000000808b, 0x0000000080000001, 0x8000000080008081, 0x8000000000008009,
        0x000000000000008a, 0x0000000000000088, 0x0000000080008009, 0x000000008000000a,
        0x000000008000808b, 0x800000000000008b, 0x8000000000008089, 0x8000000000008003,
        0x8000000000008002, 0x8000000000000080, 0x000000000000800a, 0x800000008000000a,
        0x8000000080008081, 0x8000000000008080, 0x0000000080000001, 0x8000000080008008,
    ];
    let rate = 136;
    let mut padded = input.to_vec();
    padded.push(0x06);
    while padded.len() % rate != 0 {
        padded.push(0);
    }
    let last = padded.len() - 1;
    padded[last] |= 0x80;
    let mut lanes = [[0_u64; 5]; 5];
    for block in padded.chunks(rate) {
        for (index, chunk) in block.chunks(8).enumerate() {
            lanes[index % 5][index / 5] ^= u64::from_le_bytes(chunk.try_into().unwrap());
        }
        for constant in ROUNDS {
            let mut columns = [0_u64; 5];
            for x in 0..5 {
                columns[x] = lanes[x].iter().fold(0, |sum, lane| sum ^ lane);
            }
            for x in 0..5 {
                let mixed = columns[(x + 4) % 5] ^ columns[(x + 1) % 5].rotate_left(1);
                for y in 0..5 {
                    lanes[x][y] ^= mixed;
                }
            }
            let (mut x, mut y, mut current) = (1, 0, lanes[1][0]);
            for turn in 0..24_u32 {
                (x, y) = (y, (2 * x + 3 * y) % 5);
                let rotated = current.rotate_left((turn + 1) * (turn + 2) / 2 % 64);
                current = lanes[x][y];
                lanes[x][y] = rotated;
            }
            for y in 0..5 {
                let row = [lanes[0][y], lanes[1][y], lanes[2][y], lanes[3][y], lanes[4][y]];
                for x in 0..5 {
                    lanes[x][y] = row[x] ^ (!row[(x + 1) % 5] & row[(x + 2) % 5]);
                }
            }
            lanes[0][0] ^= constant;
        }
    }
    let mut hash = [0_u8; 32];
    for (index, chunk) in hash.chunks_mut(8).enumerate() {
        chunk.copy_from_slice(&lanes[index % 5][index / 5].to_le_bytes());
    }
    hash
}

fn key_of(seed: [u8; 32]) -> [u8; 32] {
    let pair = libp2p::identity::Keypair::ed25519_from_bytes(seed).unwrap();
    pair.public().try_into_ed25519().unwrap().to_bytes()
}

fn node(seed: u8) -> NodeId {
    let key = key_of([seed; 32]);
    let mut material = b".onion checksum".to_vec();
    material.extend_from_slice(&key);
    material.push(3);
    let hash = sha3_256(&material);
    NodeId { key, onion_checksum: [hash[0], hash[1]] }
}

fn peer(seed: u8) -> PeerId {
    node(seed).peer_id().unwrap()
}

fn address(text: &str) -> Multiaddr {
    Multiaddr::parse(text).unwrap()
}

fn config() -> P2pConfig {
    P2pConfig {
        listen_addresses: vec![address("/ip4/127.0.0.1/udp/0/quic-v1")],
        external_addresses: Vec::new(),
        bootstrap_addresses: Vec::new(),
        relay_reservation_addresses: Vec::new(),
        enable_dht_maintenance: true,
        enable_relay_server: true,
        enable_hole_punching: true,
        enable_port_mapping: false,
        public_endpoint: "/ip4/127.0.0.1/udp/0/quic-v1".into(),
        failure_domain: "rack".into(),
        configure_failure_domain: true,
        max_connections: 8,
        tor_mode: TorMode::DisableTor,
    }
}

fn texts_of(addresses: &[Multiaddr]) -> Vec<String> {
    addresses.iter().map(Multiaddr::text).collect()
}

fn mapping_listeners() -> Listeners {
    let mut config = config();
    config.listen_addresses = vec![
        address("/ip4/0.0.0.0/udp/44000/quic-v1"),
        address("/ip6/::1/udp/44001/quic-v1"),
    ];
    config.enable_port_mapping = true;
    build_p2p(&LIMITS, &node(213), config, KeySet::new()).ok().unwrap().listeners
}

#[test]
fn a_configuration_becomes_listeners_addresses_and_dials() {
    let entry = format!("/ip4/198.51.100.10/udp/44000/quic-v1/p2p/{}", peer(2).text());
    let relay = format!("/ip4/198.51.100.11/udp/44000/quic-v1/p2p/{}", peer(3).text());
    let mut wanted = config();
    wanted.bootstrap_addresses = vec![address(&entry)];
    wanted.relay_reservation_addresses = vec![address(&relay)];
    wanted.external_addresses = vec![address("/ip4/198.51.100.1/udp/44000/quic-v1")];
    wanted.tor_mode = TorMode::Auto;
    let onion = onion_listener_address(&node(1));
    let plan = build_p2p_with_tor(
        &LIMITS,
        &node(1),
        wanted,
        Some(onion.duplicate()),
        KeySet::new(),
    )
    .ok()
    .unwrap();
    assert_eq!(
        texts_of(&plan.listen),
        vec![
            "/ip4/127.0.0.1/udp/0/quic-v1".to_owned(),
            onion.text(),
            format!("{relay}/p2p-circuit"),
        ]
    );
    assert!(plan.listeners.direct.contains(0));
    assert_eq!(plan.listeners.tor, Some(1));
    assert_eq!(plan.listeners.relay.get(2).unwrap().text(), format!("{relay}/p2p-circuit"));
    assert_eq!(texts_of(&plan.external), vec!["/ip4/198.51.100.1/udp/44000/quic-v1".to_owned()]);
    assert_eq!(texts_of(&plan.bootstrap), vec![entry]);
    assert_eq!(plan.max_connections, 8);
    assert!(plan.find_neighbours);

    let mut state = plan.state;
    assert_eq!(state.book.persistent.len(), 2);
    assert_eq!(state.installed.len(), 2);
    assert!(state.relay_reservation_peers.contains(peer(3)));
    let dialled: Vec<PeerId> = state
        .take_actions()
        .into_iter()
        .filter_map(|action| match action {
            Action::Dial { peer, .. } => Some(peer),
            _ => None,
        })
        .collect();
    assert_eq!(dialled, vec![peer(2)]);
}

#[test]
fn a_node_that_must_use_tor_listens_nowhere_else() {
    let mut wanted = config();
    wanted.tor_mode = TorMode::RequireTor;
    wanted.relay_reservation_addresses = vec![address(&format!(
        "/ip4/198.51.100.11/udp/44000/quic-v1/p2p/{}",
        peer(3).text()
    ))];
    let onion = onion_listener_address(&node(1));
    let plan =
        build_p2p_with_tor(&LIMITS, &node(1), wanted, Some(onion.duplicate()), KeySet::new())
            .ok()
            .unwrap();
    assert_eq!(texts_of(&plan.listen), vec![onion.text()]);
    assert!(plan.listeners.reservations.is_empty());
    assert_eq!(plan.listeners.tor, Some(0));
    assert!(plan.state.book.persistent.is_empty());
}

#[test]
fn every_problem_of_a_configuration_is_told() {
    let refused = |config: P2pConfig, tor: Option<Multiaddr>| {
        build_p2p_with_tor(&LIMITS, &node(1), config, tor, KeySet::new()).err().unwrap()
    };
    let onion = || Some(onion_listener_address(&node(1)));

    let mut wanted = config();
    wanted.bootstrap_addresses = vec![address("/ip4/198.51.100.10/udp/44000/quic-v1")];
    assert!(matches!(
        refused(wanted, None),
        ConfigError::Bootstrap(BootstrapError::Address(0, _))
    ));

    let mut wanted = config();
    wanted.enable_port_mapping = true;
    wanted.tor_mode = TorMode::RequireTor;
    assert!(matches!(refused(wanted, onion()), ConfigError::MappingWithRequiredTor));

    let mut wanted = config();
    wanted.enable_port_mapping = true;
    assert!(matches!(refused(wanted, None), ConfigError::MappingListeners));

    let mut wanted = config();
    wanted.listen_addresses = Vec::new();
    assert!(matches!(refused(wanted, None), ConfigError::Invalid));
    let mut wanted = config();
    wanted.failure_domain = String::new();
    assert!(matches!(refused(wanted, None), ConfigError::Invalid));
    let mut wanted = config();
    wanted.max_connections = 0;
    assert!(matches!(refused(wanted, None), ConfigError::Invalid));
    assert!(matches!(refused(config(), onion()), ConfigError::Invalid));

    let mut wanted = config();
    wanted.external_addresses = vec![address("/memory/1")];
    assert!(matches!(
        refused(wanted, None),
        ConfigError::Local(LocalEndpointProblem::NotDirect)
    ));

    let mut wanted = config();
    wanted.max_connections = u32::MAX as usize + 1;
    assert!(matches!(refused(wanted, None), ConfigError::TooManyConnections));
    assert_ne!(KeptAddressProblem::NoPeer, KeptAddressProblem::Known(KnownAddressProblem::NoTransport));
}

#[test]
fn mapped_external_address_is_replaceable_and_controls_degraded_status() {
    let mut wanted = config();
    wanted.listen_addresses = vec![address("/ip4/0.0.0.0/udp/0/quic-v1")];
    wanted.enable_port_mapping = true;
    let mut listeners =
        build_p2p(&LIMITS, &node(203), wanted, KeySet::new()).ok().unwrap().listeners;
    let complains = |listeners: &Listeners| {
        listeners
            .transport_degradation(&LIMITS, peer(203), &Vec::new())
            .iter()
            .any(|reason| reason.contains("port mapping"))
    };

    assert!(complains(&listeners));
    listeners.mapping_active = true;
    let first = "/ip4/198.51.100.8/udp/44000/quic-v1";
    listeners.replace_mapped_external_address(Some(address(first))).unwrap();
    assert_eq!(listeners.mapped.as_ref().unwrap().text(), first);
    assert!(!complains(&listeners));

    let second = "/ip4/203.0.113.9/udp/44001/quic-v1";
    let withdrawn = listeners.replace_mapped_external_address(Some(address(second))).unwrap();
    assert_eq!(withdrawn.unwrap().text(), first);
    assert_eq!(listeners.mapped.as_ref().unwrap().text(), second);
    listeners.replace_mapped_external_address(None).unwrap();
    assert!(listeners.mapped.is_none());
    assert!(complains(&listeners));
    assert_eq!(
        listeners
            .replace_mapped_external_address(Some(address("/ip4/0.0.0.0/udp/1/quic-v1")))
            .err(),
        Some(MappingError::InvalidAddress)
    );
}

#[test]
fn mapped_listener_close_withdraws_the_endpoint_before_mapper_cleanup() {
    let mut listeners = mapping_listeners();
    let listener = listeners.mapping_listener.unwrap();
    let port = listeners.listening(listener, &address("/ip4/0.0.0.0/udp/44000/quic-v1"));
    assert_eq!(port, Some(44000));
    let mapped = || Some(address("/ip4/198.51.100.8/udp/44000/quic-v1"));
    listeners.replace_mapped_external_address(mapped()).unwrap();

    let closure = listeners.closed(listener);

    assert!(listeners.mapped.is_none());
    assert!(closure.mapping_closed);
    assert_eq!(closure.withdrawn.unwrap().text(), "/ip4/198.51.100.8/udp/44000/quic-v1");
    assert_eq!(
        listeners.replace_mapped_external_address(mapped()).err(),
        Some(MappingError::InactiveListener),
        "a late mapper update must not revive the closed listener endpoint"
    );
    assert!(closure.failure.is_none());
}

#[test]
fn the_closing_of_listeners_ends_a_node_that_has_no_other() {
    let mut direct = KeySet::new();
    direct.insert(0);
    direct.insert(1);
    let mut listeners = Listeners::new(
        TorMode::DisableTor,
        direct,
        Table::new(),
        Vec::new(),
        None,
        false,
        None,
        Vec::new(),
    );
    assert!(!listeners.network_ready());
    listeners.listening(0, &address("/ip4/192.0.2.1/udp/4000/quic-v1"));
    assert!(listeners.network_ready());
    assert!(listeners.complete_startup_if_ready());
    assert!(!listeners.complete_startup_if_ready());
    let startup = listeners.startup(&LIMITS, peer(1), &Vec::new());
    assert_eq!(startup.direct_listeners_active, 1);
    assert_eq!(startup.degraded, vec!["direct listeners active 1/2".to_owned()]);
    assert!(listeners.closed(0).failure.is_none());
    let closure = listeners.closed(1);
    assert_eq!(closure.failure, Some(ListenerFailure::AllListenersClosed));
    assert!(!closure.startup_failed);
    assert_eq!(
        closure.failure.unwrap().message("gone"),
        "all configured libp2p listeners closed: gone"
    );
}

#[test]
fn a_closed_onion_listener_ends_a_node_whatever_else_there_is() {
    let mut direct = KeySet::new();
    direct.insert(0);
    let mut listeners = Listeners::new(
        TorMode::RequireTor,
        direct,
        Table::new(),
        Vec::new(),
        Some(1),
        false,
        None,
        Vec::new(),
    );
    listeners.listening(0, &address("/ip4/192.0.2.1/udp/4000/quic-v1"));
    assert!(!listeners.network_ready());
    listeners.listening(1, &onion_listener_address(&node(1)));
    assert!(listeners.network_ready());
    listeners.expired(1);
    assert!(!listeners.network_ready());
    let closure = listeners.closed(1);
    assert_eq!(closure.failure, Some(ListenerFailure::OnionListenerClosed));
    assert!(closure.startup_failed);
}

#[test]
fn reservations_without_a_listener_are_asked_for_again() {
    let reservation = || {
        address(&format!(
            "/ip4/198.51.100.11/udp/44000/quic-v1/p2p/{}/p2p-circuit",
            peer(3).text()
        ))
    };
    let mut relay = Table::new();
    relay.insert(4, reservation());
    let mut listeners = Listeners::new(
        TorMode::DisableTor,
        KeySet::new(),
        relay,
        vec![reservation()],
        None,
        false,
        None,
        Vec::new(),
    );
    assert_eq!(listeners.next_missing_reservation(0), None);
    listeners.closed(4);
    assert_eq!(listeners.next_missing_reservation(0), Some(0));
    assert_eq!(listeners.next_missing_reservation(1), None);
    listeners.relay_listening(5, reservation());
    assert_eq!(listeners.next_missing_reservation(0), None);
}

#[test]
fn publication_rejects_one_bad_runtime_candidate_without_suppressing_valid_ones() {
    let mut listeners =
        build_p2p(&LIMITS, &node(204), config(), KeySet::new()).ok().unwrap().listeners;
    listeners.advertised = vec![
        address("/ip4/198.51.100.8/udp/44000/quic-v1"),
        address("/ip4/198.51.100.9/udp/0/quic-v1"),
    ];
    let selected = listeners.current_advertised_endpoints(&LIMITS, peer(204), &Vec::new());
    let endpoints =
        available_p2p_endpoints(&LIMITS, &peer(204).text(), &selected.addresses).unwrap();
    assert_eq!(endpoints.len(), 1);
    assert!(endpoints[0].contains("198.51.100.8"));
    assert!(listeners
        .transport_degradation(&LIMITS, peer(204), &Vec::new())
        .iter()
        .any(|reason| reason.contains("198.51.100.9")));
}

#[test]
fn available_endpoints_name_the_node_and_nobody_else() {
    let own = peer(5).text();
    let bare = "/ip4/198.51.100.8/udp/44000/quic-v1".to_owned();
    let check = |values: Vec<String>| available_p2p_endpoints(&LIMITS, &own, &values);
    assert_eq!(
        check(vec![
            format!("{bare}/p2p/{own}"),
            bare.clone(),
            "/ip4/0.0.0.0/udp/44000/quic-v1".to_owned(),
            "/ip6/::/udp/44000/quic-v1".to_owned(),
        ]),
        Ok(vec![format!("{bare}/p2p/{own}")])
    );
    assert_eq!(check(Vec::new()), Ok(Vec::new()));
    assert_eq!(
        check(vec![format!("{bare}/p2p/{}", peer(6).text())]),
        Err(PublicationError::OtherIdentity)
    );
    assert_eq!(check(vec!["nonsense".to_owned()]), Err(PublicationError::Spelling));
    assert_eq!(
        check(vec!["/ip4/198.51.100.8/tcp/44000".to_owned()]),
        Err(PublicationError::Endpoint(EndpointProblem::Unsupported))
    );
    assert_eq!(
        available_p2p_endpoints(&LIMITS, "nobody", &Vec::new()),
        Err(PublicationError::Identity)
    );
    assert_eq!(advertised_p2p_endpoints(Vec::new()), None);
    assert_eq!(advertised_p2p_endpoints(vec![bare.clone()]), Some(vec![bare]));
    assert_eq!(publication_expiry(1000), Some(1900));
    assert_eq!(publication_expiry(u64::MAX), None);
}

#[test]
fn the_onion_transport_tells_its_listeners_when_it_can_be_reached() {
    let listener = onion_listener_address(&node(1));
    let mut state = OnionListeners::new(listener.duplicate(), false);
    assert!(!state.listen_on(7, &address("/ip4/192.0.2.1/udp/1/quic-v1")));
    assert!(state.listen_on(7, &listener));
    assert!(state.next_event().is_none());
    state.change_reachability(true);
    assert!(matches!(state.next_event(), Some(OnionEvent::NewAddress(7))));
    state.change_reachability(true);
    assert!(state.next_event().is_none());
    assert!(matches!(state.accept(InboundStream::Stream), OnionEvent::Incoming(7)));
    assert!(matches!(
        state.accept(InboundStream::Error("broken".to_owned())),
        OnionEvent::ListenerError(7, _)
    ));
    assert!(matches!(state.accept(InboundStream::Stopped), OnionEvent::AddressExpired(7)));
    assert!(matches!(state.next_event(), Some(OnionEvent::ListenerClosed(7))));
    assert!(!state.remove_listener(7));
    assert!(listener.with(Protocol::P2pCircuit).is_circuit());
}
