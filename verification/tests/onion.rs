//! Onion addresses, Tor modes and the listeners of the onion transport.

use mb_node::address::{Multiaddr, PeerId, Protocol};
use mb_node::tor::{
    anonymous_inbound_address, hostname_of_hash, is_canonical_onion_address, is_onion_address,
    onion_address_matches_node, onion_address_matches_peer, onion_listener_address,
    parse_onion_target, NodeId, TorMode, ONION_SERVICE_PORT,
};

/// The SHA3-256 hash, from which the checksum of an onion address is taken.
fn sha3_256(input: &[u8]) -> [u8; 32] {
    const ROUNDS: [u64; 24] = [
        0x0000000000000001, 0x0000000000008082, 0x800000000000808a, 0x8000000080008000,
        0x000000000000808b, 0x0000000080000001, 0x8000000080008081, 0x8000000000008009,
        0x000000000000008a, 0x0000000000000088, 0x0000000080008009, 0x000000008000000a,
        0x000000008000808b, 0x800000000000008b, 0x8000000000008089, 0x8000000000008003,
        0x8000000000008002, 0x8000000000000080, 0x000000000000800a, 0x800000008000000a,
        0x8000000080008081, 0x8000000000008080, 0x0000000080000001, 0x8000000080008008,
    ];
    let rate = 136;
    let mut padded = input.to_vec();
    padded.push(0x06);
    while padded.len() % rate != 0 {
        padded.push(0);
    }
    let last = padded.len() - 1;
    padded[last] |= 0x80;
    let mut lanes = [[0_u64; 5]; 5];
    for block in padded.chunks(rate) {
        for (index, chunk) in block.chunks(8).enumerate() {
            lanes[index % 5][index / 5] ^= u64::from_le_bytes(chunk.try_into().unwrap());
        }
        for constant in ROUNDS {
            let mut columns = [0_u64; 5];
            for x in 0..5 {
                columns[x] = lanes[x].iter().fold(0, |sum, lane| sum ^ lane);
            }
            for x in 0..5 {
                let mixed = columns[(x + 4) % 5] ^ columns[(x + 1) % 5].rotate_left(1);
                for y in 0..5 {
                    lanes[x][y] ^= mixed;
                }
            }
            let (mut x, mut y, mut current) = (1, 0, lanes[1][0]);
            for turn in 0..24_u32 {
                (x, y) = (y, (2 * x + 3 * y) % 5);
                let rotated = current.rotate_left((turn + 1) * (turn + 2) / 2 % 64);
                current = lanes[x][y];
                lanes[x][y] = rotated;
            }
            for y in 0..5 {
                let row = [lanes[0][y], lanes[1][y], lanes[2][y], lanes[3][y], lanes[4][y]];
                for x in 0..5 {
                    lanes[x][y] = row[x] ^ (!row[(x + 1) % 5] & row[(x + 2) % 5]);
                }
            }
            lanes[0][0] ^= constant;
        }
    }
    let mut hash = [0_u8; 32];
    for (index, chunk) in hash.chunks_mut(8).enumerate() {
        chunk.copy_from_slice(&lanes[index % 5][index / 5].to_le_bytes());
    }
    hash
}

fn key_of(seed: [u8; 32]) -> [u8; 32] {
    let pair = libp2p::identity::Keypair::ed25519_from_bytes(seed).unwrap();
    pair.public().try_into_ed25519().unwrap().to_bytes()
}

fn node(seed: u8) -> NodeId {
    let key = key_of([seed; 32]);
    let mut material = b".onion checksum".to_vec();
    material.extend_from_slice(&key);
    material.push(3);
    let hash = sha3_256(&material);
    NodeId { key, onion_checksum: [hash[0], hash[1]] }
}

fn peer(seed: u8) -> PeerId {
    node(seed).peer_id().unwrap()
}

fn address(text: &str) -> Multiaddr {
    Multiaddr::parse(text).unwrap()
}

#[test]
fn onion_multiaddress_is_bound_to_node_identity() {
    let id = node(7);
    let listener = onion_listener_address(&id);
    assert!(is_onion_address(&listener));
    assert!(onion_address_matches_node(&listener, &id));
    assert_eq!(parse_onion_target(&listener).unwrap().0, id.onion_hostname());
    assert!(!onion_address_matches_node(&listener, &node(8)));
}

#[test]
fn onion_dial_target_accepts_only_an_optional_terminal_peer_id() {
    let bare = onion_listener_address(&node(9));
    let with_peer = address(&format!("{}/p2p/{}", bare.text(), peer(9).text()));
    assert_eq!(parse_onion_target(&bare), parse_onion_target(&with_peer));
    assert!(parse_onion_target(&bare).is_some());

    let with_suffix = address(&format!("{}/p2p/{}/p2p-circuit", bare.text(), peer(9).text()));
    assert!(parse_onion_target(&with_suffix).is_none());

    let mismatched_peer = address(&format!("{}/p2p/{}", bare.text(), peer(10).text()));
    assert!(parse_onion_target(&mismatched_peer).is_none());
}

#[test]
fn onion_endpoint_rejects_corrupt_v3_bytes_and_wrong_port() {
    let id = node(11);
    let valid = onion_listener_address(&id);
    let hash = match &valid.protocols[0] {
        Protocol::Onion3(hash, _) => *hash,
        _ => panic!("generated address is not onion3"),
    };

    for index in [32, 34] {
        let mut corrupt = hash;
        corrupt[index] ^= 1;
        let changed = Multiaddr::empty().with(Protocol::Onion3(corrupt, ONION_SERVICE_PORT));
        assert!(parse_onion_target(&changed).is_none());
        assert!(!onion_address_matches_node(&changed, &id));
        assert!(!onion_address_matches_peer(&changed, peer(11)));
    }

    let wrong_port = Multiaddr::empty().with(Protocol::Onion3(hash, ONION_SERVICE_PORT + 1));
    assert!(parse_onion_target(&wrong_port).is_none());
    assert!(!onion_address_matches_node(&wrong_port, &id));

    let prefixed = address("/memory/7").with(Protocol::Onion3(hash, ONION_SERVICE_PORT));
    assert!(!onion_address_matches_node(&prefixed, &id));
}

#[test]
fn anonymous_inbound_address_is_not_the_onion_listener() {
    let listener = onion_listener_address(&node(12));
    let remote = anonymous_inbound_address();
    assert!(remote.is_empty());
    assert!(!remote.same(&listener));
}

#[test]
fn tor_mode_text_is_stable() {
    for (text, mode) in [
        ("auto", TorMode::Auto),
        ("prefer-tor", TorMode::PreferTor),
        ("require-tor", TorMode::RequireTor),
        ("disable-tor", TorMode::DisableTor),
    ] {
        assert_eq!(TorMode::parse(text).unwrap(), mode);
        assert_eq!(mode.text(), text);
    }
    assert!(TorMode::parse("sometimes").is_err());
}

#[test]
fn a_refused_mode_is_quoted() {
    let error = TorMode::parse("some\"times").unwrap_err();
    assert!(error.message().contains("\"some\\\"times\""));
}

#[test]
fn modes_say_whether_tor_is_used() {
    assert!(TorMode::Auto.enabled() && !TorMode::Auto.requires_tor());
    assert!(TorMode::PreferTor.enabled() && !TorMode::PreferTor.requires_tor());
    assert!(TorMode::RequireTor.enabled() && TorMode::RequireTor.requires_tor());
    assert!(!TorMode::DisableTor.enabled() && !TorMode::DisableTor.requires_tor());
    assert_eq!(TorMode::default(), TorMode::Auto);
}

#[test]
fn an_onion_hostname_is_lower_case_base_32() {
    let hostname = node(13).onion_hostname();
    assert_eq!(hostname.len(), 62);
    assert!(hostname.ends_with(".onion"));
    assert!(hostname.chars().all(|c| c.is_ascii_lowercase() || c.is_ascii_digit() || c == '.'));
    assert!(hostname.parse::<tor_hscrypto::pk::HsId>().is_ok());
}

#[test]
fn a_host_name_spells_the_bytes_of_its_address() {
    let mut hash = [0_u8; 35];
    assert_eq!(hostname_of_hash(&hash), format!("{}.onion", "a".repeat(56)));
    hash[0] = 0b0000_1000;
    hash[34] = 0b0001_1111;
    assert_eq!(hostname_of_hash(&hash), format!("b{}7.onion", "a".repeat(54)));
    hash[34] = 0b0011_0001;
    assert_eq!(hostname_of_hash(&hash), format!("b{}br.onion", "a".repeat(53)));
}

#[test]
fn a_canonical_onion_address_stays_one_with_its_peer() {
    let bare = onion_listener_address(&node(14));
    assert!(is_canonical_onion_address(&bare));
    assert!(onion_address_matches_peer(&bare, peer(14)));
    assert!(!onion_address_matches_peer(&bare, peer(15)));
    assert!(is_canonical_onion_address(&bare.duplicate().with(Protocol::P2p(peer(14)))));
    assert!(!is_canonical_onion_address(&bare.with(Protocol::P2p(peer(15)))));
}

#[test]
fn addresses_spell_and_parse_to_the_same_parts() {
    for text in [
        "/ip4/192.0.2.1/udp/44000/quic-v1",
        "/ip6/2001:db8::1/udp/44000/quic-v1",
        "/dns4/example.org/tcp/443/ws",
    ] {
        assert_eq!(address(text).text(), text);
    }
    assert!(Multiaddr::parse("ip4/192.0.2.1").is_none());
    assert!(Multiaddr::parse("/ip4/192.0.2.256").is_none());
    let id = peer(16);
    assert_eq!(PeerId::from_text(&id.text()).unwrap(), id);
    assert!(PeerId::from_text("no peer").is_none());
    let outside: libp2p::PeerId = id.text().parse().unwrap();
    assert_eq!(outside.to_string(), id.text());
}
