//! Which transports a mode allows and prefers, and which endpoints a node
//! publishes.

use mb_node::address::{terminal_peer_id, AddressSet, Multiaddr, PeerId, Protocol};
use mb_node::endpoints::{
    status_advertised_addresses, validate_bootstrap_addresses,
    validate_local_advertised_endpoints, validate_published_endpoint, BootstrapError,
    BootstrapProblem, EndpointLimits, EndpointProblem, LocalEndpointProblem, LocalEndpoints,
    MAX_BOOTSTRAP_ADDRESSES,
};
use mb_node::policy::{
    connected_point_path, guild_relay_admission, merge_established_path, next_preferred_addresses,
    path_preference_rank, policy_address_tiers, selected_policy_addresses,
    should_retire_non_policy_connection, transport_path_allowed, ConnectedPoint, P2pPath,
    PolicyTransport,
};
use mb_node::port_mapping::{
    mapped_address, release_barrier, task_outcome, valid_mapped_external_address,
    withdraw_gateway_mapping,
    validate_port_mapping_listeners, Ipv4Socket, MapperEvent, MapperStep, PortMapper,
    ReleaseAction, ReleaseError, ReleaseEvent, ReleaseProbe,
};
use mb_node::table::KeySet;
use mb_node::tor::{onion_listener_address, NodeId, TorMode};

const LIMITS: EndpointLimits = EndpointLimits { per_peer: 8, bytes: 512 };

/// The SHA3-256 hash, from which the checksum of an onion address is taken.
fn sha3_256(input: &[u8]) -> [u8; 32] {
    const ROUNDS: [u64; 24] = [
        0x0000000000000001, 0x0000000000008082, 0x800000000000808a, 0x8000000080008000,
        0x000000000000808b, 0x0000000080000001, 0x8000000080008081, 0x8000000000008009,
        0x000000000000008a, 0x0000000000000088, 0x0000000080008009, 0x000000008000000a,
        0x000000008000808b, 0x800000000000008b, 0x8000000000008089, 0x8000000000008003,
        0x8000000000008002, 0x8000000000000080, 0x000000000000800a, 0x800000008000000a,
        0x8000000080008081, 0x8000000000008080, 0x0000000080000001, 0x8000000080008008,
    ];
    let rate = 136;
    let mut padded = input.to_vec();
    padded.push(0x06);
    while padded.len() % rate != 0 {
        padded.push(0);
    }
    let last = padded.len() - 1;
    padded[last] |= 0x80;
    let mut lanes = [[0_u64; 5]; 5];
    for block in padded.chunks(rate) {
        for (index, chunk) in block.chunks(8).enumerate() {
            lanes[index % 5][index / 5] ^= u64::from_le_bytes(chunk.try_into().unwrap());
        }
        for constant in ROUNDS {
            let mut columns = [0_u64; 5];
            for x in 0..5 {
                columns[x] = lanes[x].iter().fold(0, |sum, lane| sum ^ lane);
            }
            for x in 0..5 {
                let mixed = columns[(x + 4) % 5] ^ columns[(x + 1) % 5].rotate_left(1);
                for y in 0..5 {
                    lanes[x][y] ^= mixed;
                }
            }
            let (mut x, mut y, mut current) = (1, 0, lanes[1][0]);
            for turn in 0..24_u32 {
                (x, y) = (y, (2 * x + 3 * y) % 5);
                let rotated = current.rotate_left((turn + 1) * (turn + 2) / 2 % 64);
                current = lanes[x][y];
                lanes[x][y] = rotated;
            }
            for y in 0..5 {
                let row = [lanes[0][y], lanes[1][y], lanes[2][y], lanes[3][y], lanes[4][y]];
                for x in 0..5 {
                    lanes[x][y] = row[x] ^ (!row[(x + 1) % 5] & row[(x + 2) % 5]);
                }
            }
            lanes[0][0] ^= constant;
        }
    }
    let mut hash = [0_u8; 32];
    for (index, chunk) in hash.chunks_mut(8).enumerate() {
        chunk.copy_from_slice(&lanes[index % 5][index / 5].to_le_bytes());
    }
    hash
}

fn key_of(seed: [u8; 32]) -> [u8; 32] {
    let pair = libp2p::identity::Keypair::ed25519_from_bytes(seed).unwrap();
    pair.public().try_into_ed25519().unwrap().to_bytes()
}

fn node(seed: u8) -> NodeId {
    let key = key_of([seed; 32]);
    let mut material = b".onion checksum".to_vec();
    material.extend_from_slice(&key);
    material.push(3);
    let hash = sha3_256(&material);
    NodeId { key, onion_checksum: [hash[0], hash[1]] }
}

fn peer(seed: u8) -> PeerId {
    node(seed).peer_id().unwrap()
}

fn address(text: &str) -> Multiaddr {
    Multiaddr::parse(text).unwrap()
}

fn texts_of(addresses: &[Multiaddr]) -> Vec<String> {
    addresses.iter().map(Multiaddr::text).collect()
}

fn set_texts(addresses: &AddressSet) -> Vec<String> {
    texts_of(&addresses.to_vec())
}

fn copies(addresses: &[&Multiaddr]) -> Vec<Multiaddr> {
    addresses.iter().map(|address| address.duplicate()).collect()
}

fn local(
    listen: Vec<Multiaddr>,
    external: Vec<Multiaddr>,
    relays: Vec<Multiaddr>,
    mapping: bool,
) -> LocalEndpoints {
    LocalEndpoints {
        listen_addresses: listen,
        external_addresses: external,
        relay_reservation_addresses: relays,
        enable_port_mapping: mapping,
    }
}

#[test]
fn tor_policy_selects_one_transport_class_and_a_bounded_fallback() {
    let ip = address("/ip4/192.0.2.1/udp/44000/quic-v1");
    let relay = address(&format!(
        "/ip4/192.0.2.2/udp/44001/quic-v1/p2p/{}/p2p-circuit",
        peer(201).text()
    ));
    let onion = onion_listener_address(&node(201));
    let all = copies(&[&relay, &onion, &ip]);
    let expect = |mode: TorMode, from: &Vec<Multiaddr>, requested: u8, tier: u8, one: &Multiaddr| {
        let (selected, addresses) = selected_policy_addresses(mode, from, requested);
        assert_eq!(selected, tier);
        assert_eq!(set_texts(&addresses), vec![one.text()]);
    };

    expect(TorMode::Auto, &all, 0, 0, &ip);
    expect(TorMode::Auto, &all, 1, 1, &relay);
    expect(TorMode::Auto, &all, 2, 2, &onion);
    expect(TorMode::PreferTor, &all, 0, 0, &onion);
    expect(TorMode::PreferTor, &all, 1, 1, &ip);
    expect(TorMode::PreferTor, &all, 2, 2, &relay);
    expect(TorMode::RequireTor, &all, 0, 0, &onion);
    expect(TorMode::DisableTor, &all, 0, 0, &ip);
    expect(TorMode::DisableTor, &all, 1, 1, &relay);
    expect(TorMode::Auto, &copies(&[&onion]), 1, 2, &onion);
    let tiers = policy_address_tiers(TorMode::Auto, &all);
    assert_eq!(
        texts_of(&next_preferred_addresses(&tiers, 2)),
        vec![ip.text(), relay.text()]
    );
    assert_eq!(texts_of(&next_preferred_addresses(&tiers, 1)), vec![ip.text()]);
}

#[test]
fn fallback_session_waits_for_a_live_preferred_replacement_before_retirement() {
    assert!(!should_retire_non_policy_connection(
        TorMode::Auto,
        P2pPath::RelayFallback,
        Some(0),
        false,
    ));
    assert!(should_retire_non_policy_connection(
        TorMode::Auto,
        P2pPath::RelayFallback,
        Some(0),
        true,
    ));
    assert!(should_retire_non_policy_connection(
        TorMode::RequireTor,
        P2pPath::RelayFallback,
        Some(0),
        false,
    ));
}

/// A transport that notes what it was asked for.
struct Recording {
    dialed: Vec<String>,
    listened: Vec<String>,
}

fn dial(transport: &mut PolicyTransport<Recording>, address: &Multiaddr) -> bool {
    let admitted = transport.admits(address);
    if admitted {
        transport.inner.dialed.push(address.text());
    }
    admitted
}

fn listen(transport: &mut PolicyTransport<Recording>, address: &Multiaddr) -> bool {
    let admitted = transport.admits(address);
    if admitted {
        transport.inner.listened.push(address.text());
    }
    admitted
}

#[test]
fn require_tor_blocks_mixed_discovery_dials_at_transport_boundary() {
    let id = peer(200).text();
    let ip = address(&format!("/ip4/192.0.2.1/udp/44000/quic-v1/p2p/{id}"));
    let relay = address(&format!(
        "/ip4/192.0.2.2/udp/44001/quic-v1/p2p/{id}/p2p-circuit/p2p/{id}"
    ));
    let onion = onion_listener_address(&node(200));
    let invalid_onion = onion.duplicate().with(Protocol::P2pCircuit);
    let inner = Recording { dialed: Vec::new(), listened: Vec::new() };
    let mut transport = PolicyTransport::new(inner, TorMode::RequireTor);

    for forbidden in [ip, relay, invalid_onion] {
        assert!(!dial(&mut transport, &forbidden));
    }
    assert!(dial(&mut transport, &onion));
    assert_eq!(transport.inner.dialed, vec![onion.text()]);

    let forbidden_listener = address("/ip4/0.0.0.0/udp/44000/quic-v1");
    assert!(!listen(&mut transport, &forbidden_listener));
    assert!(listen(&mut transport, &onion));
    assert_eq!(transport.inner.listened, vec![onion.text()]);
}

#[test]
fn configured_ip_endpoint_does_not_hide_active_onion_listener() {
    let onion = onion_listener_address(&node(202)).text();
    let direct_listener = "/ip4/0.0.0.0/udp/44000/quic-v1".to_owned();
    let relay_listener = format!(
        "/ip4/192.0.2.2/udp/44001/quic-v1/p2p/{}/p2p-circuit",
        peer(202).text()
    );
    let external = address("/ip4/198.51.100.7/udp/44000/quic-v1");
    let mapped = address("/ip4/203.0.113.8/udp/44002/quic-v1");
    let advertised = status_advertised_addresses(
        &LIMITS,
        peer(202),
        &vec![external.duplicate()],
        Some(&mapped),
        &vec![direct_listener, onion.clone(), relay_listener.clone()],
    );
    let mut expected = vec![external.text(), mapped.text(), onion, relay_listener];
    expected.sort();
    assert_eq!(advertised.addresses, expected);
    assert!(advertised.rejected.is_empty());
}

#[test]
fn local_endpoint_configuration_is_identity_bound_canonical_and_bounded() {
    let id = node(201);
    let own = peer(201).text();
    let other = node(202);
    let check = |mode: TorMode, local: LocalEndpoints| {
        validate_local_advertised_endpoints(&LIMITS, &id, mode, &local)
    };
    let direct = address(&format!("/ip4/198.51.100.1/udp/44000/quic-v1/p2p/{own}"));
    let canonical = check(
        TorMode::DisableTor,
        local(vec![], vec![direct.duplicate(), direct], vec![], false),
    )
    .unwrap();
    assert_eq!(
        texts_of(&canonical),
        vec!["/ip4/198.51.100.1/udp/44000/quic-v1".to_owned()]
    );

    let wrong_peer = address(&format!(
        "/ip4/198.51.100.2/udp/44000/quic-v1/p2p/{}",
        peer(202).text()
    ));
    assert!(check(TorMode::DisableTor, local(vec![], vec![wrong_peer], vec![], false)).is_err());
    assert!(check(
        TorMode::Auto,
        local(vec![], vec![onion_listener_address(&other)], vec![], false)
    )
    .is_err());
    let configured_circuit = address(&format!(
        "/ip4/198.51.100.2/udp/44000/quic-v1/p2p/{}/p2p-circuit",
        peer(202).text()
    ));
    assert!(check(TorMode::Auto, local(vec![], vec![configured_circuit], vec![], false)).is_err());

    for unusable in [
        "/memory/1",
        "/ip4/198.51.100.3/tcp/44000",
        "/ip4/0.0.0.0/udp/44000/quic-v1",
        "/ip4/198.51.100.3/udp/0/quic-v1",
        "/ip4/224.0.0.1/udp/44000/quic-v1",
        "/ip6/ff02::1/udp/44000/quic-v1",
        "/ip6/fe80::1/udp/44000/quic-v1",
    ] {
        assert!(check(
            TorMode::DisableTor,
            local(vec![], vec![address(unusable)], vec![], false)
        )
        .is_err());
    }

    let peer_suffix = format!("/p2p/{own}");
    let dns_prefix = "/dns4/";
    let quic_suffix = "/udp/44000/quic-v1";
    let target_base_len = LIMITS.bytes - peer_suffix.len() + 1;
    let host_len = target_base_len - dns_prefix.len() - quic_suffix.len();
    let overlong_base = format!("{dns_prefix}{}{quic_suffix}", "a".repeat(host_len));
    assert!(overlong_base.len() <= LIMITS.bytes);
    assert!(overlong_base.len() + peer_suffix.len() > LIMITS.bytes);
    let error =
        validate_published_endpoint(&LIMITS, &id, &format!("{overlong_base}{peer_suffix}"))
            .unwrap()
            .unwrap_err();
    assert!(error.message().contains("too long"));

    let noncanonical = format!("/ip6/0:0:0:0:0:0:0:1/udp/44000/quic-v1/p2p/{own}");
    assert!(validate_published_endpoint(&LIMITS, &id, &noncanonical).unwrap().is_err());

    let wildcard = "/ip4/0.0.0.0/udp/0/quic-v1";
    assert!(
        check(TorMode::DisableTor, local(vec![address(wildcard)], vec![], vec![], false)).is_err(),
        "a wildcard listener alone can never become a signed endpoint"
    );
    check(TorMode::DisableTor, local(vec![address(wildcard)], vec![], vec![], true)).unwrap();
    check(
        TorMode::DisableTor,
        local(vec![address("/ip4/127.0.0.1/udp/0/quic-v1")], vec![], vec![], false),
    )
    .unwrap();

    let eight = || {
        (0..LIMITS.per_peer)
            .map(|index| address(&format!("/ip4/198.51.100.3/udp/{}/quic-v1", 44000 + index)))
            .collect::<Vec<_>>()
    };
    check(TorMode::Auto, local(vec![], eight(), vec![], false)).unwrap();
    check(TorMode::DisableTor, local(vec![], eight(), vec![], true)).unwrap();
    let mut too_many = eight();
    too_many.push(address("/ip4/198.51.100.3/udp/45000/quic-v1"));
    assert!(check(TorMode::DisableTor, local(vec![], too_many, vec![], false)).is_err());

    let overflow = status_advertised_addresses(
        &LIMITS,
        peer(201),
        &vec![],
        None,
        &(0..LIMITS.per_peer + 3)
            .map(|index| format!("/ip4/203.0.113.1/udp/{}/quic-v1", 45000 + index))
            .collect::<Vec<_>>(),
    );
    assert_eq!(overflow.addresses.len(), LIMITS.per_peer);
    assert!(overflow.addresses.windows(2).all(|pair| pair[0] < pair[1]));
}

#[test]
fn every_problem_of_a_local_configuration_is_told() {
    let id = node(201);
    let check = |mode: TorMode, local: LocalEndpoints| {
        validate_local_advertised_endpoints(&LIMITS, &id, mode, &local).unwrap_err()
    };
    let relay = peer(203).text();
    assert_eq!(
        check(
            TorMode::RequireTor,
            local(vec![], vec![address("/ip4/198.51.100.1/udp/1/quic-v1")], vec![], false)
        ),
        LocalEndpointProblem::RequiresTor
    );
    assert_eq!(
        check(
            TorMode::DisableTor,
            local(vec![], vec![], vec![address("/ip4/198.51.100.1/udp/1/quic-v1")], false)
        ),
        LocalEndpointProblem::RelayWithoutPeer
    );
    assert_eq!(
        check(
            TorMode::DisableTor,
            local(
                vec![],
                vec![],
                vec![address(&format!("/p2p/{relay}/ip4/198.51.100.1"))],
                false
            )
        ),
        LocalEndpointProblem::RelayPeerNotLast
    );
    assert_eq!(
        check(
            TorMode::DisableTor,
            local(
                vec![],
                vec![],
                vec![address(&format!("/ip4/198.51.100.1/tcp/1/p2p/{relay}"))],
                false
            )
        ),
        LocalEndpointProblem::Endpoint(EndpointProblem::Unsupported)
    );
    assert_eq!(
        check(TorMode::DisableTor, local(vec![], vec![], vec![], false)),
        LocalEndpointProblem::NothingPublishable
    );
}

#[test]
fn runtime_endpoint_selection_preserves_classes_and_rejects_candidates_independently() {
    let onion = onion_listener_address(&node(210)).text();
    let direct = "/ip4/198.51.100.40/udp/44000/quic-v1".to_owned();
    let mut listeners = vec![
        direct.clone(),
        onion.clone(),
        "/ip4/0.0.0.0/udp/44000/quic-v1".to_owned(),
    ];
    for index in 0_u8..10 {
        listeners.push(format!(
            "/ip4/192.0.2.{}/udp/{}/quic-v1/p2p/{}/p2p-circuit",
            index + 1,
            45000 + u16::from(index),
            peer(index + 1).text()
        ));
    }

    let selected = status_advertised_addresses(&LIMITS, peer(210), &vec![], None, &listeners);
    assert_eq!(selected.addresses.len(), LIMITS.per_peer);
    assert!(selected.addresses.contains(&onion));
    assert!(selected.addresses.contains(&direct));
    assert!(selected.addresses.iter().any(|address| address.contains("/p2p-circuit")));
    assert_eq!(selected.rejected.len(), 1);
    assert!(selected.rejected[0].contains("0.0.0.0"));
}

#[test]
fn a_refused_listener_holds_nothing_back() {
    let relayed = |index: u8| {
        let relay = peer(index).text();
        format!("/ip4/192.0.2.{index}/udp/45000/quic-v1/p2p/{relay}/p2p-circuit")
    };
    let direct = |index: u8| format!("/ip4/198.51.100.{index}/udp/44000/quic-v1");
    let mut listeners: Vec<String> = (10..30).map(direct).chain((10..30).map(relayed)).collect();
    let whole = status_advertised_addresses(&LIMITS, peer(210), &vec![], None, &listeners);
    assert!(whole.addresses.contains(&direct(10)));
    assert!(whole.addresses.contains(&relayed(10)));
    assert!(whole.rejected.is_empty());
    listeners.insert(3, "/ip4/0.0.0.0/udp/1/quic-v1".to_owned());
    listeners.insert(0, "nonsense".to_owned());
    let again = status_advertised_addresses(&LIMITS, peer(210), &vec![], None, &listeners);
    assert_eq!(again.addresses, whole.addresses);
    assert_eq!(again.rejected.len(), 2);
    assert!(again.rejected.iter().any(|message| message.contains(" nonsense was rejected: ")));
}

#[test]
fn bootstrap_addresses_are_canonical_bounded_supported_and_policy_compatible() {
    let destination = peer(211).text();
    let relay = peer(212).text();
    let direct = format!("/ip4/198.51.100.10/udp/44000/quic-v1/p2p/{destination}");
    let circuit = format!(
        "/ip4/198.51.100.11/udp/44001/quic-v1/p2p/{relay}/p2p-circuit/p2p/{destination}"
    );
    let onion = onion_listener_address(&node(211)).with(Protocol::P2p(peer(211))).text();
    let check = |mode: TorMode, values: &Vec<String>| validate_bootstrap_addresses(&LIMITS, mode, values);

    assert_eq!(
        check(TorMode::Auto, &vec![direct.clone(), circuit.clone(), onion.clone()])
            .unwrap()
            .len(),
        3
    );
    for invalid in [
        "/ip4/198.51.100.10/udp/44000/quic-v1".to_owned(),
        format!("/ip4/198.51.100.10/p2p/{destination}/udp/44000/quic-v1"),
        format!("/ip4/0.0.0.0/udp/44000/quic-v1/p2p/{destination}"),
        format!("/ip4/198.51.100.10/udp/0/quic-v1/p2p/{destination}"),
        format!("/ip4/198.51.100.10/tcp/44000/p2p/{destination}"),
        format!("/ip6/0:0:0:0:0:0:0:1/udp/44000/quic-v1/p2p/{destination}"),
    ] {
        assert!(check(TorMode::Auto, &vec![invalid.clone()]).is_err(), "accepted {invalid}");
    }

    let wrong_onion = onion_listener_address(&node(211)).with(Protocol::P2p(peer(212))).text();
    assert!(check(TorMode::Auto, &vec![wrong_onion]).is_err());
    assert!(check(TorMode::RequireTor, &vec![direct.clone()]).is_err());
    assert!(check(TorMode::DisableTor, &vec![onion]).is_err());
    assert!(check(TorMode::Auto, &vec![direct; MAX_BOOTSTRAP_ADDRESSES + 1]).is_err());
}

#[test]
fn a_refused_entry_point_is_told_with_its_place() {
    let good = format!("/ip4/198.51.100.10/udp/44000/quic-v1/p2p/{}", peer(211).text());
    let bad = "/ip4/198.51.100.10/udp/44000/quic-v1".to_owned();
    match validate_bootstrap_addresses(&LIMITS, TorMode::Auto, &vec![good.clone(), bad]) {
        Err(BootstrapError::Address(place, problem)) => {
            assert_eq!(place, 1);
            assert_eq!(problem, BootstrapProblem::NoPeer);
        }
        _ => panic!("a bare address was accepted"),
    }
    match validate_bootstrap_addresses(&LIMITS, TorMode::RequireTor, &vec![good]) {
        Err(BootstrapError::Address(place, problem)) => {
            assert_eq!(place, 0);
            assert_eq!(problem, BootstrapProblem::Incompatible);
        }
        _ => panic!("a direct address was accepted"),
    }
    match validate_bootstrap_addresses(&LIMITS, TorMode::Auto, &vec![String::new()]) {
        Err(BootstrapError::Address(place, problem)) => {
            assert_eq!(place, 0);
            assert_eq!(problem, BootstrapProblem::EmptyOrTooLong);
        }
        _ => panic!("an empty text was accepted"),
    }
}

#[test]
fn relay_admission_uses_replaceable_membership_snapshot() {
    let allowed = peer(74);
    let denied = peer(75);
    let mut members: KeySet<PeerId> = KeySet::new();
    members.insert(allowed);
    assert!(guild_relay_admission(Some(&members), allowed));
    assert!(!guild_relay_admission(Some(&members), denied));

    members = KeySet::new();
    members.insert(denied);
    assert!(!guild_relay_admission(Some(&members), allowed));
    assert!(guild_relay_admission(Some(&members), denied));
    assert!(!guild_relay_admission(None, denied));
}

#[test]
fn generic_connection_event_does_not_erase_dcutr_classification() {
    assert_eq!(
        merge_established_path(Some(P2pPath::HolePunched), P2pPath::Direct),
        P2pPath::HolePunched
    );
    assert_eq!(
        merge_established_path(Some(P2pPath::Relayed), P2pPath::Direct),
        P2pPath::Direct,
    );
}

#[test]
fn circuit_address_is_associated_with_its_destination() {
    let circuit = address(&format!(
        "/ip4/127.0.0.1/udp/4100/quic-v1/p2p/{}/p2p-circuit/p2p/{}",
        peer(70).text(),
        peer(71).text()
    ));
    assert_eq!(terminal_peer_id(&circuit).unwrap(), peer(71));
    assert!(terminal_peer_id(&address("/ip4/127.0.0.1/udp/4100/quic-v1")).is_none());
}

#[test]
fn port_mapping_listener_must_be_one_unambiguous_ipv4_quic_socket() {
    let wildcard = || address("/ip4/0.0.0.0/udp/0/quic-v1");
    assert!(validate_port_mapping_listeners(&vec![wildcard()]));

    let ipv6 = address("/ip6/::/udp/44000/quic-v1");
    assert!(validate_port_mapping_listeners(&vec![wildcard(), ipv6]));

    let second = || address("/ip4/192.0.2.4/udp/44001/quic-v1");
    assert!(!validate_port_mapping_listeners(&vec![wildcard(), second()]));
    assert!(!validate_port_mapping_listeners(&vec![second()]));
    assert!(!validate_port_mapping_listeners(&vec![address("/ip4/127.0.0.1/udp/44000/quic-v1")]));
    assert!(!validate_port_mapping_listeners(&vec![]));
}

#[test]
fn the_mapping_loop_publishes_what_changed_and_tries_again_without_a_mapping() {
    let mut mapper = PortMapper::new();
    let socket = Ipv4Socket { ip: [198, 51, 100, 7], port: 44000 };
    assert!(mapper.publication(None).is_none());
    assert_eq!(
        mapper.publication(Some(socket)).unwrap().unwrap().text(),
        "/ip4/198.51.100.7/udp/44000/quic-v1"
    );
    assert_eq!(mapper.step(MapperEvent::Retry), MapperStep::Reacquire);
    mapper.published(Some(socket));
    assert!(mapper.publication(Some(socket)).is_none());
    assert!(mapper.publication(None).unwrap().is_none());
    assert_eq!(mapper.step(MapperEvent::Retry), MapperStep::Continue);
    assert_eq!(mapper.step(MapperEvent::ServiceStopped), MapperStep::Fail);
    assert_eq!(mapper.step(MapperEvent::ShutdownChanged(true)), MapperStep::Stop);
    assert_eq!(mapper.step(MapperEvent::ShutdownChanged(false)), MapperStep::Continue);
    assert_eq!(mapper.step(MapperEvent::ShutdownClosed), MapperStep::Stop);
    assert!(valid_mapped_external_address(&mapped_address(&socket)));
    assert!(!valid_mapped_external_address(&address("/ip4/0.0.0.0/udp/44000/quic-v1")));
}

#[test]
fn an_error_of_a_task_goes_before_that_of_its_cleanup() {
    assert_eq!(task_outcome::<u8>(Err(1), Err(2)), Err(1));
    assert_eq!(task_outcome::<u8>(Err(1), Ok(())), Err(1));
    assert_eq!(task_outcome::<u8>(Ok(()), Err(2)), Err(2));
    assert_eq!(task_outcome::<u8>(Ok(()), Ok(())), Ok(()));
    assert_eq!(release_barrier(ReleaseProbe::Answered), Ok(()));
    assert_eq!(release_barrier(ReleaseProbe::NotAccepted), Err(ReleaseError::NotAccepted));
    assert_eq!(release_barrier(ReleaseProbe::Stopped), Err(ReleaseError::Stopped));
    assert_eq!(release_barrier(ReleaseProbe::TimedOut), Err(ReleaseError::TimedOut));
    let run = |events: &[ReleaseEvent]| {
        let mut release = withdraw_gateway_mapping();
        let mut actions = Vec::new();
        for event in events {
            actions.push(release.next());
            release.take(*event);
        }
        (actions, release.next())
    };
    let answered = ReleaseEvent::Probed(ReleaseProbe::Answered);
    let (actions, end) = run(&[
        answered,
        answered,
        ReleaseEvent::External(true),
        answered,
        ReleaseEvent::External(false),
        ReleaseEvent::Withdrawn(true),
    ]);
    assert_eq!(
        actions,
        vec![
            ReleaseAction::LetGo,
            ReleaseAction::LetGo,
            ReleaseAction::ReadExternal,
            ReleaseAction::AwaitChange,
            ReleaseAction::ReadExternal,
            ReleaseAction::Withdraw,
        ]
    );
    assert_eq!(end, ReleaseAction::Done(Ok(())));
    let refused = ReleaseEvent::Probed(ReleaseProbe::NotAccepted);
    for withdrawn in [true, false] {
        assert_eq!(
            run(&[answered, refused, ReleaseEvent::Withdrawn(withdrawn)]),
            (
                vec![ReleaseAction::LetGo, ReleaseAction::LetGo, ReleaseAction::Withdraw],
                ReleaseAction::Done(Err(ReleaseError::NotAccepted))
            )
        );
    }
    let (_, end) = run(&[
        answered,
        answered,
        ReleaseEvent::External(false),
        ReleaseEvent::Withdrawn(false),
    ]);
    assert_eq!(end, ReleaseAction::Done(Err(ReleaseError::NotWithdrawn)));
}

#[test]
fn paths_are_told_apart_and_ranked() {
    let circuit = address(&format!(
        "/ip4/192.0.2.2/udp/44001/quic-v1/p2p/{}/p2p-circuit",
        peer(1).text()
    ));
    assert_eq!(
        connected_point_path(&ConnectedPoint::Dialer { address: circuit }),
        P2pPath::Relayed
    );
    assert_eq!(
        connected_point_path(&ConnectedPoint::Listener {
            local_addr: onion_listener_address(&node(1))
        }),
        P2pPath::Tor
    );
    assert_eq!(path_preference_rank(TorMode::PreferTor, P2pPath::Tor), 0);
    assert_eq!(path_preference_rank(TorMode::Auto, P2pPath::Tor), 2);
    assert!(!transport_path_allowed(TorMode::DisableTor, P2pPath::Tor));
    assert!(!transport_path_allowed(TorMode::RequireTor, P2pPath::Direct));
}
