//! The event loop, driven by hand.

use mb_node::address::{AddressSet, Multiaddr, PeerId};
use mb_node::book::{
    LearnError, LearnedAddresses, DHT_TTL_SECONDS, MAX_LEARNED_ENDPOINT_PEERS,
    MAX_OPPORTUNISTIC_ENDPOINT_PEERS,
};
use mb_node::commands::{Command, CommandAnswer, OutboundRequest};
use mb_node::endpoints::EndpointLimits;
use mb_node::events::{ConnectionEvent, SwarmAnswer, SwarmEvent};
use mb_node::ids::Id32;
use mb_node::links::{LinkPath, Retirement};
use mb_node::listeners::Listeners;
use mb_node::loop_state::{Action, P2pEventLoop, PolicyDial, PolicyDialKind, RequestOutcome};
use mb_node::metrics::{P2pSessionDirection, P2pSessionOutcome};
use mb_node::ordered::OrderedSet;
use mb_node::peer_events::{
    InboundDecision, PeerEvent, ResponseContext, PEER_WIRE_FORMAT_VERSION,
};
use mb_node::policy::{path_preference_rank, ConnectedPoint, P2pPath};
use mb_node::queries::{DhtAnswer, DhtProgress, DhtQuery, DhtStep};
use mb_node::requests::{LOGICAL_REQUEST_TIMEOUT_MILLIS, MAX_REQUEST_TRANSPORT_ATTEMPTS};
use mb_node::status::P2pPathTransfer;
use mb_node::table::{KeySet, Table};
use mb_node::tor::{onion_listener_address, NodeId, TorMode};

const LIMITS: EndpointLimits = EndpointLimits { per_peer: 8, bytes: 512 };
const NOW: u64 = 1_000_000;
const UNIX: u64 = 1_700_000_000;

/// The SHA3-256 hash, from which the checksum of an onion address is taken.
fn sha3_256(input: &[u8]) -> [u8; 32] {
    const ROUNDS: [u64; 24] = [
        0x0000000000000001, 0x0000000000008082, 0x800000000000808a, 0x8000000080008000,
        0x000000000000808b, 0x0000000080000001, 0x8000000080008081, 0x8000000000008009,
        0x000000000000008a, 0x0000000000000088, 0x0000000080008009, 0x000000008000000a,
        0x000000008000808b, 0x800000000000008b, 0x8000000000008089, 0x8000000000008003,
        0x8000000000008002, 0x8000000000000080, 0x000000000000800a, 0x800000008000000a,
        0x8000000080008081, 0x8000000000008080, 0x0000000080000001, 0x8000000080008008,
    ];
    let rate = 136;
    let mut padded = input.to_vec();
    padded.push(0x06);
    while padded.len() % rate != 0 {
        padded.push(0);
    }
    let last = padded.len() - 1;
    padded[last] |= 0x80;
    let mut lanes = [[0_u64; 5]; 5];
    for block in padded.chunks(rate) {
        for (index, chunk) in block.chunks(8).enumerate() {
            lanes[index % 5][index / 5] ^= u64::from_le_bytes(chunk.try_into().unwrap());
        }
        for constant in ROUNDS {
            let mut columns = [0_u64; 5];
            for x in 0..5 {
                columns[x] = lanes[x].iter().fold(0, |sum, lane| sum ^ lane);
            }
            for x in 0..5 {
                let mixed = columns[(x + 4) % 5] ^ columns[(x + 1) % 5].rotate_left(1);
                for y in 0..5 {
                    lanes[x][y] ^= mixed;
                }
            }
            let (mut x, mut y, mut current) = (1, 0, lanes[1][0]);
            for turn in 0..24_u32 {
                (x, y) = (y, (2 * x + 3 * y) % 5);
                let rotated = current.rotate_left((turn + 1) * (turn + 2) / 2 % 64);
                current = lanes[x][y];
                lanes[x][y] = rotated;
            }
            for y in 0..5 {
                let row = [lanes[0][y], lanes[1][y], lanes[2][y], lanes[3][y], lanes[4][y]];
                for x in 0..5 {
                    lanes[x][y] = row[x] ^ (!row[(x + 1) % 5] & row[(x + 2) % 5]);
                }
            }
            lanes[0][0] ^= constant;
        }
    }
    let mut hash = [0_u8; 32];
    for (index, chunk) in hash.chunks_mut(8).enumerate() {
        chunk.copy_from_slice(&lanes[index % 5][index / 5].to_le_bytes());
    }
    hash
}

fn key_of(seed: [u8; 32]) -> [u8; 32] {
    let pair = libp2p::identity::Keypair::ed25519_from_bytes(seed).unwrap();
    pair.public().try_into_ed25519().unwrap().to_bytes()
}

fn node(seed: u8) -> NodeId {
    let key = key_of([seed; 32]);
    let mut material = b".onion checksum".to_vec();
    material.extend_from_slice(&key);
    material.push(3);
    let hash = sha3_256(&material);
    NodeId { key, onion_checksum: [hash[0], hash[1]] }
}

fn peer(seed: u8) -> PeerId {
    node(seed).peer_id().unwrap()
}

fn address(text: &str) -> Multiaddr {
    Multiaddr::parse(text).unwrap()
}

fn event_loop(local: u8, mode: TorMode) -> P2pEventLoop {
    P2pEventLoop::new(peer(local), mode, LIMITS, Table::new(), KeySet::new(), KeySet::new())
}

fn no_listeners(mode: TorMode) -> Listeners {
    Listeners::new(mode, KeySet::new(), Table::new(), Vec::new(), None, false, None, Vec::new())
}

fn link(peer: PeerId, path: P2pPath) -> LinkPath {
    LinkPath { peer, path }
}

fn outbound(cancellation_id: u128, local: u8, remote: u8) -> OutboundRequest {
    OutboundRequest {
        cancellation_id,
        peer: peer(remote),
        recipient: Id32(node(remote).key),
        response_recipient: Id32(node(local).key),
        request_id: 1000 + cancellation_id,
        request_hash: Id32([9; 32]),
        request_bytes: 100,
        wanted: true,
    }
}

fn call(state: &mut P2pEventLoop, cancellation_id: u128, local: u8, remote: u8) {
    let mut listeners = no_listeners(TorMode::DisableTor);
    let answer = state.handle_command(
        &mut listeners,
        Command::Request { request: outbound(cancellation_id, local, remote) },
        NOW,
        UNIX,
    );
    assert!(matches!(answer, CommandAnswer::Done));
}

fn direct(host: u8, id: &PeerId) -> Multiaddr {
    address(&format!("/ip4/192.0.2.{host}/udp/44000/quic-v1/p2p/{}", id.text()))
}

fn relayed(host: u8, relay: &PeerId, id: &PeerId) -> Multiaddr {
    address(&format!(
        "/ip4/192.0.2.{host}/udp/44001/quic-v1/p2p/{}/p2p-circuit/p2p/{}",
        relay.text(),
        id.text()
    ))
}

fn learn(state: &mut P2pEventLoop, id: PeerId, addresses: Vec<Multiaddr>) {
    for address in addresses {
        state.add_learned_address(id, address, NOW).unwrap();
    }
}

fn only_pending(state: &P2pEventLoop) -> u64 {
    assert_eq!(state.pending.len(), 1);
    state.pending.key_at(0)
}

fn outcomes(state: &mut P2pEventLoop) -> Vec<(u128, RequestOutcome)> {
    state
        .take_actions()
        .into_iter()
        .filter_map(|action| match action {
            Action::Finish { cancellation_id, outcome } => Some((cancellation_id, outcome)),
            _ => None,
        })
        .collect()
}

fn dials(state: &P2pEventLoop) -> Vec<(u64, PolicyDial)> {
    (0..state.dials.len())
        .map(|index| (state.dials.key_at(index), *state.dials.value_at(index)))
        .collect()
}

#[test]
fn abandoned_callers_cannot_evade_the_dispatched_request_bound() {
    let mut state = event_loop(79, TorMode::DisableTor);
    let remote = peer(80);
    state.links.paths.insert(780, link(remote, P2pPath::Direct));

    call(&mut state, 1, 79, 80);
    assert_eq!(state.pending.len(), 1);
    assert!(state.is_held(1));

    state.cancel_request(1);
    assert_eq!(state.pending.len(), 1);
    assert!(state.is_held(1));

    state.cancel_request(2);
    let mut gone = outbound(2, 79, 80);
    gone.wanted = false;
    let mut listeners = no_listeners(TorMode::DisableTor);
    state.handle_command(&mut listeners, Command::Request { request: gone }, NOW, UNIX);
    assert_eq!(state.pending.len(), 1);
    assert!(state.queued.is_empty());
    assert!(state.is_held(1));
    assert!(!state.is_held(2));
}

#[test]
fn a_retirement_without_a_close_event_resumes_queued_requests() {
    let mut state = event_loop(84, TorMode::DisableTor);
    let remote = peer(85);
    learn(&mut state, remote, vec![direct(85, &remote)]);

    state.links.paths.insert(799, link(remote, P2pPath::Direct));
    state
        .links
        .duplicate_retirement
        .insert(799, Retirement { peer: remote, deadline: NOW - 1000 });
    call(&mut state, 1, 84, 85);
    assert!(state.pending.is_empty());
    assert_eq!(state.queued.len(), 1);

    state.retire_duplicate_sessions(NOW);
    assert!(state.links.duplicate_retirement.is_empty());
    assert!(state.queued.is_empty());
    assert_eq!(state.pending.len(), 1);
}

#[test]
fn duplicate_collapse_preserves_the_connection_owning_a_relay_reservation() {
    let relay = peer(87);
    let mut relays: KeySet<PeerId> = KeySet::new();
    relays.insert(relay);
    let mut state = P2pEventLoop::new(
        peer(86),
        TorMode::DisableTor,
        LIMITS,
        Table::new(),
        KeySet::new(),
        relays,
    );
    state.links.paths.insert(801, link(relay, P2pPath::Direct));
    state.links.dialers.insert(801, true);
    state.links.paths.insert(802, link(relay, P2pPath::Direct));
    state.links.dialers.insert(802, false);

    let prefers = state.prefers_dialer(relay);
    let is_relay = state.relay_reservation_peers.contains(relay);
    state.links.schedule_duplicate_session_collapse(relay, 802, is_relay, prefers, NOW);

    assert!(state.links.duplicate_retirement.is_empty());
}

#[test]
fn duplicate_sessions_between_two_nodes_collapse_to_one() {
    let remote = peer(87);
    let mut state = event_loop(86, TorMode::DisableTor);
    state.connection_established(1, remote, P2pPath::Direct, true, NOW, UNIX);
    state.connection_established(2, remote, P2pPath::Direct, false, NOW, UNIX);
    assert_eq!(state.links.duplicate_retirement.len(), 1);
    let retiring = state.links.duplicate_retirement.key_at(0);
    assert_eq!(retiring == 2, state.prefers_dialer(remote));
    state.take_actions();
    state.settle_connections(NOW + 10_000);
    let closed: Vec<u64> = state
        .take_actions()
        .into_iter()
        .filter_map(|action| match action {
            Action::Close { connection } => Some(connection),
            _ => None,
        })
        .collect();
    assert_eq!(closed, vec![retiring]);
}

#[test]
fn retiring_and_unhealthy_connections_are_not_collapse_replacements() {
    let mut state = event_loop(88, TorMode::DisableTor);
    let remote = peer(89);
    let (retiring, candidate) = (811, 812);
    state.links.paths.insert(retiring, link(remote, P2pPath::RelayFallback));
    state.links.paths.insert(candidate, link(remote, P2pPath::HolePunched));
    let rank = path_preference_rank(TorMode::DisableTor, P2pPath::RelayFallback);

    assert!(state.links.healthy_path_exists(remote, P2pPath::HolePunched));
    assert!(state.links.healthy_replacement_exists(remote, retiring, rank));

    state
        .links
        .duplicate_retirement
        .insert(candidate, Retirement { peer: remote, deadline: NOW + 1000 });
    assert!(!state.links.healthy_path_exists(remote, P2pPath::HolePunched));
    assert!(!state.links.healthy_replacement_exists(remote, retiring, rank));

    state.links.duplicate_retirement.remove(candidate);
    state.links.unhealthy.insert(candidate);
    assert!(!state.links.healthy_path_exists(remote, P2pPath::HolePunched));
    assert!(!state.links.healthy_replacement_exists(remote, retiring, rank));
}

/// All that a pending request holds of the request that was signed.
fn signed_request(state: &P2pEventLoop, id: u64) -> (u128, [u8; 32], [u8; 32], [u8; 32], u64, PeerId) {
    let pending = state.pending.get(id).unwrap();
    (
        pending.request_id,
        pending.request_hash.0,
        pending.recipient.0,
        pending.response_recipient.0,
        pending.request_bytes,
        pending.peer,
    )
}

#[test]
fn request_failure_uses_healthy_duplicate_then_advances_each_transport_once() {
    let mut state = event_loop(81, TorMode::Auto);
    let remote = peer(82);
    let relay = peer(83);
    learn(
        &mut state,
        remote,
        vec![
            direct(10, &remote),
            relayed(11, &relay, &remote),
            onion_listener_address(&node(82)),
        ],
    );
    state.links.paths.insert(800, link(remote, P2pPath::Direct));

    call(&mut state, 1, 81, 82);
    let first = only_pending(&state);
    let signed = signed_request(&state, first);

    // A race onto another tier than the selected one is retried at the
    // selected tier.
    state.links.remember_closed_connection_path(801, remote, P2pPath::RelayFallback, NOW);
    state.outbound_failed(first, remote, 801, NOW);
    assert_eq!(state.selected_transport_tier(remote), 0);
    let after_wrong_tier = only_pending(&state);
    assert_eq!(signed_request(&state, after_wrong_tier), signed);

    state.links.remember_closed_connection_path(802, remote, P2pPath::Direct, NOW);
    state.outbound_failed(after_wrong_tier, remote, 802, NOW);
    assert_eq!(state.selected_transport_tier(remote), 0);
    let second = only_pending(&state);
    assert_eq!(signed_request(&state, second), signed);

    state.links.paths.remove(800);
    state.links.remember_closed_connection_path(803, remote, P2pPath::Direct, NOW);
    state.links.paths.insert(804, link(remote, P2pPath::RelayFallback));
    state.outbound_failed(second, remote, 803, NOW);
    assert_eq!(state.tiers.get(remote), Some(&1));
    let third = only_pending(&state);
    assert_eq!(signed_request(&state, third), signed);

    state.links.paths.remove(804);
    state.links.remember_closed_connection_path(805, remote, P2pPath::RelayFallback, NOW);
    state.links.paths.insert(806, link(remote, P2pPath::Tor));
    state.outbound_failed(third, remote, 805, NOW);
    assert_eq!(state.tiers.get(remote), Some(&2));
    let fourth = only_pending(&state);
    assert_eq!(signed_request(&state, fourth), signed);
    assert_eq!(state.pending.get(fourth).unwrap().attempts, 5);

    state.links.paths.remove(806);
    state.links.remember_closed_connection_path(807, remote, P2pPath::Tor, NOW);
    state.outbound_failed(fourth, remote, 807, NOW);
    assert!(state.pending.is_empty());
    let ended = outcomes(&mut state);
    assert_eq!(ended.len(), 1);
    assert_eq!(ended[0].0, 1);
    assert!(!state.is_held(1));
}

#[test]
fn prefer_tor_does_not_dispatch_on_a_retained_direct_connection() {
    let mut state = event_loop(90, TorMode::PreferTor);
    let remote = peer(91);
    learn(&mut state, remote, vec![direct(90, &remote), onion_listener_address(&node(91))]);
    state.set_transport_tier(remote, 0);
    state.links.paths.insert(901, link(remote, P2pPath::Direct));
    state.observe_established_transport(remote, 901, NOW);

    call(&mut state, 1, 90, 91);

    assert!(state.pending.is_empty());
    assert_eq!(state.queued.len(), 1);
    assert!(dials(&state).iter().any(|(_, dial)| dial.peer == remote
        && dial.tier == 0
        && dial.kind == PolicyDialKind::Selected));
}

#[test]
fn fallback_dials_advance_in_order_despite_a_retained_worse_connection() {
    let mut state = event_loop(92, TorMode::Auto);
    let remote = peer(93);
    let relay = peer(94);
    learn(
        &mut state,
        remote,
        vec![
            direct(92, &remote),
            relayed(93, &relay, &remote),
            onion_listener_address(&node(93)),
        ],
    );
    state.links.paths.insert(921, link(remote, P2pPath::Tor));

    call(&mut state, 1, 92, 93);
    assert_eq!(state.queued.len(), 1);
    let dial_at = |state: &P2pEventLoop, tier: u8| {
        dials(state)
            .iter()
            .find(|(_, dial)| dial.peer == remote && dial.tier == tier)
            .map(|(connection, _)| *connection)
            .unwrap()
    };
    let direct_dial = dial_at(&state, 0);
    let failed = |connection: u64| ConnectionEvent::OutgoingConnectionError {
        connection,
        peer: Some(remote),
    };

    state.handle_connection_event(failed(direct_dial), NOW, UNIX);
    assert_eq!(state.selected_transport_tier(remote), 1);
    assert_eq!(state.queued.len(), 1);
    let relay_dial = dial_at(&state, 1);

    let stale_direct_dial = 922;
    state.dials.insert(
        stale_direct_dial,
        PolicyDial {
            peer: remote,
            tier: 0,
            path: P2pPath::Direct,
            kind: PolicyDialKind::Selected,
        },
    );
    state.handle_connection_event(failed(stale_direct_dial), NOW, UNIX);
    assert_eq!(state.selected_transport_tier(remote), 1);
    assert!(state.dials.has(relay_dial));

    state.handle_connection_event(failed(relay_dial), NOW, UNIX);
    assert_eq!(state.selected_transport_tier(remote), 2);
    assert!(state.queued.is_empty());
    assert_eq!(state.pending.len(), 1);
}

#[test]
fn closed_connection_path_survives_until_outbound_failure() {
    let mut state = event_loop(95, TorMode::DisableTor);
    let remote = peer(96);
    let relay = peer(97);
    learn(&mut state, remote, vec![direct(95, &remote), relayed(96, &relay, &remote)]);
    state.links.paths.insert(951, link(remote, P2pPath::Direct));

    call(&mut state, 1, 95, 96);
    let request = only_pending(&state);

    state.handle_connection_event(
        ConnectionEvent::ConnectionClosed { connection: 951, peer: remote, remaining: 0, failed: false },
        NOW,
        UNIX,
    );
    assert_eq!(state.selected_transport_tier(remote), 1);
    assert!(state.links.closed.has(951));

    state.outbound_failed(request, remote, 951, NOW);
    assert_eq!(state.log.metrics.get(P2pPath::Direct).unwrap().requests_failed, 1);
    assert_eq!(
        state.log.metrics.get(P2pPath::RelayFallback).map_or(0, |metrics| metrics.requests_failed),
        0
    );
    assert!(state.pending.is_empty());
    assert_eq!(state.queued.len(), 1);
}

#[test]
fn selected_close_reuses_same_tier_duplicate_before_request_failure() {
    let mut state = event_loop(106, TorMode::DisableTor);
    let remote = peer(107);
    let relay = peer(108);
    learn(&mut state, remote, vec![direct(106, &remote), relayed(107, &relay, &remote)]);
    let (selected, duplicate) = (1061, 1062);
    state.links.paths.insert(selected, link(remote, P2pPath::Direct));
    state.links.paths.insert(duplicate, link(remote, P2pPath::Direct));

    call(&mut state, 1, 106, 107);
    let request = only_pending(&state);
    state
        .links
        .duplicate_retirement
        .insert(duplicate, Retirement { peer: remote, deadline: NOW + 1000 });

    state.handle_connection_event(
        ConnectionEvent::ConnectionClosed {
            connection: selected,
            peer: remote,
            remaining: 1,
            failed: false,
        },
        NOW,
        UNIX,
    );
    assert_eq!(state.selected_transport_tier(remote), 0);
    assert!(state.links.healthy_connection_at_tier(remote, 0, None));
    assert!(!state.links.duplicate_retirement.has(duplicate));
    assert!(dials(&state).iter().all(|(_, dial)| dial.tier == 0));

    state.outbound_failed(request, remote, selected, NOW);
    assert_eq!(state.selected_transport_tier(remote), 0);
    assert_eq!(state.pending.len(), 1);
    assert!(state.queued.is_empty());
}

#[test]
fn failed_preferred_promotion_keeps_the_retained_fallback() {
    let mut state = event_loop(98, TorMode::DisableTor);
    let remote = peer(99);
    let relay = peer(100);
    learn(&mut state, remote, vec![direct(98, &remote), relayed(99, &relay, &remote)]);
    state.set_transport_tier(remote, 1);
    state.links.paths.insert(981, link(remote, P2pPath::RelayFallback));
    state.links.paths.insert(982, link(remote, P2pPath::Direct));
    state.observe_established_transport(remote, 982, NOW);

    assert_eq!(state.selected_transport_tier(remote), 1);
    assert_eq!(state.promotions.get(remote).unwrap().tier, 0);
    assert!(!state.links.duplicate_retirement.has(982));

    state.handle_connection_event(
        ConnectionEvent::ConnectionClosed { connection: 982, peer: remote, remaining: 1, failed: false },
        NOW,
        UNIX,
    );
    assert_eq!(state.selected_transport_tier(remote), 1);
    assert!(!state.promotions.has(remote));
    assert!(state.links.healthy_connection_at_tier(remote, 1, None));

    state.retry_preferred_paths(NOW);
    assert!(dials(&state).iter().any(|(_, dial)| dial.peer == remote
        && dial.tier == 0
        && dial.kind == PolicyDialKind::PreferredProbe));
}

#[test]
fn a_preferred_connection_that_lasts_is_selected() {
    let mut state = event_loop(98, TorMode::DisableTor);
    let remote = peer(99);
    let relay = peer(100);
    learn(&mut state, remote, vec![direct(98, &remote), relayed(99, &relay, &remote)]);
    state.set_transport_tier(remote, 1);
    state.connection_established(1, remote, P2pPath::Relayed, true, NOW, UNIX);
    state.connection_established(2, remote, P2pPath::Direct, true, NOW, UNIX);
    assert_eq!(state.selected_transport_tier(remote), 1);
    state.settle_connections(NOW + 499);
    assert_eq!(state.selected_transport_tier(remote), 1);
    state.settle_connections(NOW + 500);
    assert_eq!(state.selected_transport_tier(remote), 0);
    assert!(state.promotions.is_empty());
}

#[test]
fn selected_fallback_close_adopts_an_established_preferred_probe() {
    let mut state = event_loop(103, TorMode::Auto);
    let remote = peer(104);
    let relay = peer(105);
    learn(
        &mut state,
        remote,
        vec![relayed(104, &relay, &remote), onion_listener_address(&node(104))],
    );
    state.set_transport_tier(remote, 2);
    let relay_connection = 1031;
    state.links.paths.insert(relay_connection, link(remote, P2pPath::RelayFallback));
    state
        .links
        .duplicate_retirement
        .insert(relay_connection, Retirement { peer: remote, deadline: NOW + 1000 });

    state.restore_selected_transport_after_close(remote, Some(P2pPath::Tor), NOW);

    assert_eq!(state.selected_transport_tier(remote), 1);
    assert!(state.links.healthy_connection_at_tier(remote, 1, None));
    assert!(!state.links.duplicate_retirement.has(relay_connection));
}

#[test]
fn logical_request_attempt_budget_is_bounded() {
    let mut state = event_loop(101, TorMode::DisableTor);
    let remote = peer(102);
    state.links.paths.insert(1001, link(remote, P2pPath::Direct));

    call(&mut state, 1, 101, 102);
    let request = only_pending(&state);
    let mut pending = state.pending.remove(request).unwrap();
    pending.attempts = MAX_REQUEST_TRANSPORT_ATTEMPTS;
    state.take_actions();
    state.queue_or_dispatch_request(pending, NOW);

    assert_eq!(outcomes(&mut state), vec![(1, RequestOutcome::AttemptsExhausted)]);
    assert!(state.pending.is_empty());
    assert!(state.queued.is_empty());
    assert!(!state.is_held(1));
}

#[test]
fn a_request_that_nobody_answers_runs_out_of_time() {
    let mut state = event_loop(101, TorMode::DisableTor);
    let remote = peer(102);
    learn(&mut state, remote, vec![direct(102, &remote)]);
    call(&mut state, 1, 101, 102);
    assert_eq!(state.queued.len(), 1);
    state.take_actions();
    state.maintain_requests(NOW + LOGICAL_REQUEST_TIMEOUT_MILLIS - 1);
    assert!(outcomes(&mut state).is_empty());
    state.maintain_requests(NOW + LOGICAL_REQUEST_TIMEOUT_MILLIS);
    assert_eq!(outcomes(&mut state), vec![(1, RequestOutcome::DeadlineExpired)]);
    assert!(state.queued.is_empty());
}

#[test]
fn failed_dcutr_updates_active_history_metrics_and_transfer_provenance() {
    let mut state = event_loop(64, TorMode::DisableTor);
    let remote = peer(65);
    let connection = 700;
    state.book.persistent.insert(remote, AddressSet::new());
    state.links.paths.insert(connection, link(remote, P2pPath::Relayed));
    state.log.record_session_open(
        connection,
        remote,
        P2pPath::Relayed,
        P2pSessionDirection::Outbound,
        NOW,
        UNIX,
    );
    state.record_transfer(remote, Some(P2pPath::Relayed), 10, 20);

    state.classify_failed_dcutr(remote);
    state.last_paths.insert(remote, P2pPath::RelayFallback);
    state.record_transfer(remote, Some(P2pPath::RelayFallback), 30, 40);

    let mut listeners = no_listeners(TorMode::DisableTor);
    let asked = Command::Status { listen_addresses: Vec::new(), connected: OrderedSet::new() };
    let status = match state.handle_command(&mut listeners, asked, NOW, UNIX) {
        CommandAnswer::Status(status) => status,
        _ => panic!("the status was not told"),
    };
    let told = status.peers.iter().find(|told| told.peer_id == remote.text()).unwrap();
    assert_eq!(told.active_paths, vec![P2pPath::RelayFallback]);
    assert_eq!(told.last_application_path, Some(P2pPath::RelayFallback));
    assert_eq!(status.active_sessions[0].path, P2pPath::RelayFallback);
    assert_eq!(
        told.path_transfers,
        vec![
            P2pPathTransfer {
                path: P2pPath::Relayed,
                application_bytes_sent: 10,
                application_bytes_received: 20,
            },
            P2pPathTransfer {
                path: P2pPath::RelayFallback,
                application_bytes_sent: 30,
                application_bytes_received: 40,
            },
        ]
    );

    state.links.paths.remove(connection);
    state.log.record_session_close(connection, false, false, NOW, UNIX);
    assert_eq!(state.log.recent.last().unwrap().path, P2pPath::RelayFallback);
    let at = |path: P2pPath| state.log.metrics.get(path).unwrap();
    assert_eq!(at(P2pPath::Relayed).sessions_opened, 0);
    assert_eq!(at(P2pPath::RelayFallback).sessions_opened, 1);
    assert_eq!(at(P2pPath::RelayFallback).sessions_closed, 1);
    assert_eq!(at(P2pPath::Relayed).application_bytes_sent, 10);
    assert_eq!(at(P2pPath::RelayFallback).application_bytes_sent, 30);
}

#[test]
fn an_unhealthy_session_closed_locally_is_recorded_as_a_transport_error() {
    let mut state = event_loop(62, TorMode::DisableTor);
    let remote = peer(63);
    let connection = 701;
    state.links.paths.insert(connection, link(remote, P2pPath::Direct));
    state.log.record_session_open(
        connection,
        remote,
        P2pPath::Direct,
        P2pSessionDirection::Outbound,
        NOW,
        UNIX,
    );
    state.links.unhealthy.insert(connection);

    state.handle_connection_event(
        ConnectionEvent::ConnectionClosed { connection, peer: remote, remaining: 0, failed: false },
        NOW,
        UNIX,
    );
    assert_eq!(state.log.recent.last().unwrap().outcome, P2pSessionOutcome::TransportError);
    assert_eq!(state.log.metrics.get(P2pPath::Direct).unwrap().sessions_closed, 1);
}

#[test]
fn transfer_history_does_not_retain_unknown_peers() {
    let mut state = event_loop(75, TorMode::DisableTor);
    let remote = peer(76);

    state.record_transfer(remote, Some(P2pPath::Direct), 10, 20);
    assert!(!state.transfers.has(remote));
    assert!(!state.path_transfers.has(remote));

    state.book.persistent.insert(remote, AddressSet::new());
    state.record_transfer(remote, Some(P2pPath::Direct), 10, 20);
    assert_eq!(state.transfers.get(remote).unwrap().sent, 10);
    assert_eq!(
        state.path_transfers.get(remote).unwrap().get(P2pPath::Direct).unwrap().received,
        20
    );
}

#[test]
fn learned_endpoint_cache_replaces_and_expires_addresses() {
    let mut state = event_loop(73, TorMode::PreferTor);
    let remote = peer(72);
    let at = |port: usize| {
        address(&format!("/ip4/127.0.0.1/udp/{port}/quic-v1/p2p/{}", remote.text()))
    };

    state.add_learned_address(remote, at(4101), NOW).unwrap();
    assert_eq!(state.tiers.get(remote), Some(&1));
    assert!(!state.book.persistent.has(remote));
    assert_eq!(state.book.learned.get(remote).unwrap().addresses.len(), 1);
    state.replace_learned_addresses(remote, &vec![at(4101)], UNIX + 300, UNIX, NOW).unwrap();
    assert_eq!(state.book.learned.get(remote).unwrap().addresses.len(), 1);
    state.record_transfer(remote, Some(P2pPath::Direct), 10, 20);
    assert!(state.transfers.has(remote));
    assert!(state.path_transfers.has(remote));
    state.replace_learned_addresses(remote, &vec![at(4102)], UNIX + 300, UNIX, NOW).unwrap();
    assert_eq!(
        state.book.learned.get(remote).unwrap().addresses.get(0).text(),
        "/ip4/127.0.0.1/udp/4102/quic-v1"
    );

    let expires = state.book.learned.get(remote).unwrap().expires_at;
    assert_eq!(expires, NOW + 300_000);
    state.expire_learned_addresses(expires - 1);
    assert!(state.book.learned.has(remote));
    state.expire_learned_addresses(expires);
    assert!(!state.book.learned.has(remote));
    assert!(!state.tiers.has(remote));
    assert!(!state.transfers.has(remote));
    assert!(!state.path_transfers.has(remote));

    for port in 4200..4200 + LIMITS.per_peer {
        state.add_learned_address(remote, at(port), NOW).unwrap();
    }
    assert!(state.add_learned_address(remote, at(4300), NOW).is_err());
    assert_eq!(state.book.learned.get(remote).unwrap().addresses.len(), LIMITS.per_peer);
}

fn numbered_peer(index: usize) -> PeerId {
    let mut seed = [0_u8; 32];
    seed[..8].copy_from_slice(&(index as u64).to_le_bytes());
    PeerId::from_key(&key_of(seed)).unwrap()
}

#[test]
fn learned_endpoint_cache_rejects_unbounded_peer_churn() {
    let mut state = event_loop(77, TorMode::DisableTor);
    for index in 0..MAX_LEARNED_ENDPOINT_PEERS {
        state.book.learned.insert(
            numbered_peer(index),
            LearnedAddresses {
                addresses: AddressSet::new(),
                expires_at: NOW + DHT_TTL_SECONDS * 1000,
            },
        );
    }
    let remote = peer(78);
    let one_more = address(&format!("/ip4/127.0.0.1/udp/4400/quic-v1/p2p/{}", remote.text()));
    assert_eq!(
        state.add_learned_address(remote, one_more, NOW),
        Err(LearnError::CacheFull)
    );
    assert_eq!(state.book.learned.len(), MAX_LEARNED_ENDPOINT_PEERS);
}

#[test]
fn unknown_identify_peers_cannot_consume_authorized_endpoint_quota() {
    let mut state = event_loop(66, TorMode::DisableTor);
    for index in 0..=MAX_LEARNED_ENDPOINT_PEERS {
        let own = address(&format!("/ip4/127.0.0.1/udp/{}/quic-v1", 10_000 + index % 50_000));
        state.add_identified_address(numbered_peer(index), own, NOW).unwrap();
        state.take_actions();
    }
    assert!(state.book.learned.is_empty());
    assert_eq!(state.book.opportunistic.len(), MAX_OPPORTUNISTIC_ENDPOINT_PEERS);

    let authorized = peer(67);
    state.book.persistent.insert(authorized, AddressSet::new());
    let own = address("/ip4/127.0.0.1/udp/4400/quic-v1");
    state.add_identified_address(authorized, own.duplicate(), NOW).unwrap();
    let learned = &state.book.learned.get(authorized).unwrap().addresses;
    assert_eq!(learned.len(), 1);
    assert!(learned.contains(&own));
    assert!(!state.book.opportunistic.has(authorized));
}

#[test]
fn uncertified_recovery_addresses_are_attempt_scoped() {
    let mut state = event_loop(69, TorMode::Auto);
    let remote = peer(68);
    let onion = onion_listener_address(&node(68));
    let identified = address("/ip4/127.0.0.1/udp/4301/quic-v1");
    let scope = 42;

    state
        .add_recovery_addresses(scope, remote, &vec![onion], UNIX + 300, UNIX, NOW)
        .unwrap();
    state.add_identified_address(remote, identified.duplicate(), NOW).unwrap();

    assert!(state.book.recovery.has(scope));
    assert_eq!(state.tiers.get(remote), Some(&2));
    assert!(!state.book.learned.has(remote));
    let scoped = &state.book.recovery.get(scope).unwrap().addresses;
    assert!(scoped.get(remote).unwrap().contains(&identified));
    state.clear_recovery_addresses(scope);
    state.add_identified_address(remote, identified, NOW).unwrap();
    assert!(!state.book.recovery.has(scope));
    assert!(state.book.quarantine.has(remote));
    assert!(!state.book.learned.has(remote));
    assert!(!state.book.opportunistic.has(remote));
    assert!(!state.tiers.has(remote));
    assert!(!state.book.retains_transfer_history(remote));
}

#[test]
fn fallback_tier_lives_until_the_closed_request_is_terminal() {
    let mut state = event_loop(109, TorMode::Auto);
    let remote = peer(110);
    let scope = 7;
    state
        .add_recovery_addresses(
            scope,
            remote,
            &vec![onion_listener_address(&node(110))],
            UNIX + 300,
            UNIX,
            NOW,
        )
        .unwrap();
    let connection = 1101;
    state.links.paths.insert(connection, link(remote, P2pPath::Tor));

    call(&mut state, 1, 109, 110);
    let request = only_pending(&state);

    state.clear_recovery_addresses(scope);
    assert_eq!(state.tiers.get(remote), Some(&2));
    assert!(state.book.retained_peer_addresses(remote).is_empty());

    state.handle_connection_event(
        ConnectionEvent::ConnectionClosed { connection, peer: remote, remaining: 0, failed: false },
        NOW,
        UNIX,
    );
    assert_eq!(state.tiers.get(remote), Some(&2));
    assert!(state.links.closed.has(connection));

    state.outbound_failed(request, remote, connection, NOW);
    assert!(!state.tiers.has(remote));
    assert!(state.pending.is_empty());
    assert!(state.queued.is_empty());
    assert_eq!(outcomes(&mut state).len(), 1);
}

#[test]
fn fallback_tier_is_removed_when_its_last_endpoint_and_connection_are_gone() {
    let mut state = event_loop(111, TorMode::Auto);
    let remote = peer(112);
    let scope = 8;
    state
        .add_recovery_addresses(
            scope,
            remote,
            &vec![onion_listener_address(&node(112))],
            UNIX + 300,
            UNIX,
            NOW,
        )
        .unwrap();
    let connection = 1102;
    state.links.paths.insert(connection, link(remote, P2pPath::Tor));

    state.clear_recovery_addresses(scope);
    assert_eq!(state.tiers.get(remote), Some(&2));

    state.handle_connection_event(
        ConnectionEvent::ConnectionClosed { connection, peer: remote, remaining: 0, failed: false },
        NOW,
        UNIX,
    );

    assert!(!state.tiers.has(remote));
}

#[test]
fn a_response_is_handed_on_only_if_it_belongs_to_its_request() {
    let mut state = event_loop(1, TorMode::DisableTor);
    let remote = peer(2);
    state.connection_established(5, remote, P2pPath::Direct, true, NOW, UNIX);
    call(&mut state, 1, 1, 2);
    let request = only_pending(&state);
    let good = ResponseContext {
        signature_valid: true,
        signer: Id32(node(2).key),
        format_version: PEER_WIRE_FORMAT_VERSION,
        request_id: 1001,
        recipient: Id32(node(1).key),
        request_hash: Id32([9; 32]),
        succeeded: true,
    };
    state.take_actions();
    state.response_received(request, remote, 5, Some(50), &good, NOW + 7);
    assert_eq!(outcomes(&mut state), vec![(1, RequestOutcome::Answered)]);
    let metrics = state.log.metrics.get(P2pPath::Direct).unwrap();
    assert_eq!(metrics.requests_succeeded, 1);
    assert_eq!(metrics.request_latency_millis_total, 7);

    for (number, bad) in [
        ResponseContext { signature_valid: false, ..good },
        ResponseContext { signer: Id32(node(3).key), ..good },
        ResponseContext { format_version: 2, ..good },
        ResponseContext { request_id: 1, ..good },
        ResponseContext { recipient: Id32(node(3).key), ..good },
        ResponseContext { request_hash: Id32([8; 32]), ..good },
    ]
    .into_iter()
    .enumerate()
    {
        let id = 10 + number as u128;
        let mut wanted = outbound(id, 1, 2);
        wanted.request_id = 1001;
        let mut listeners = no_listeners(TorMode::DisableTor);
        state.handle_command(&mut listeners, Command::Request { request: wanted }, NOW, UNIX);
        let request = only_pending(&state);
        state.take_actions();
        state.response_received(request, remote, 5, Some(50), &bad, NOW);
        assert_eq!(outcomes(&mut state), vec![(id, RequestOutcome::Mismatched)]);
    }
}

#[test]
fn requests_of_peers_are_taken_while_there_is_capacity() {
    let mut state = event_loop(1, TorMode::DisableTor);
    let remote = peer(2);
    state.connection_established(5, remote, P2pPath::Direct, false, NOW, UNIX);
    let key = Id32(node(2).key);
    assert_eq!(
        state.request_received(1, remote, 5, Some(10), key, true),
        InboundDecision::Accepted { path: Some(P2pPath::Direct) }
    );
    assert_eq!(
        state.request_received(2, remote, 5, Some(10), key, false),
        InboundDecision::Refused { path: Some(P2pPath::Direct) }
    );
    assert_eq!(
        state.request_received(3, remote, 5, Some(10), Id32(node(3).key), true),
        InboundDecision::Ignored
    );
    assert!(state.is_busy(remote));
    state.response_queued(1, remote, Some(P2pPath::Direct), true, Some(30));
    state.response_sent(1, remote);
    assert!(!state.is_busy(remote));
}

#[test]
fn a_connection_over_a_forbidden_path_is_closed() {
    let mut state = event_loop(1, TorMode::RequireTor);
    let remote = peer(2);
    state.handle_connection_event(
        ConnectionEvent::ConnectionEstablished {
            connection: 9,
            peer: remote,
            endpoint: ConnectedPoint::Listener {
                local_addr: address("/ip4/192.0.2.1/udp/44000/quic-v1"),
            },
        },
        NOW,
        UNIX,
    );
    let last = state.take_actions().pop().unwrap();
    assert!(matches!(last, Action::Close { connection: 9 }));
}

#[test]
fn what_a_node_tells_its_transport_obeys_the_mode() {
    let mut state = event_loop(1, TorMode::DisableTor);
    let remote = peer(2);
    assert!(state.add_learned_address(remote, onion_listener_address(&node(2)), NOW).is_ok());
    learn(&mut state, remote, vec![direct(2, &remote)]);
    call(&mut state, 1, 1, 2);
    for action in state.take_actions() {
        let told = match action {
            Action::Readdress { added, .. } => added,
            Action::Dial { addresses, .. } => addresses,
            _ => continue,
        };
        for address in told.to_vec() {
            assert!(!address.is_onion());
        }
    }
    assert_eq!(dials(&state).len(), 1);
    call(&mut state, 2, 1, 2);
    assert_eq!(dials(&state).len(), 1);
}

#[test]
fn commands_begin_queries_and_end_the_loop() {
    let mut state = event_loop(1, TorMode::DisableTor);
    let mut listeners = no_listeners(TorMode::DisableTor);
    for command in
        [Command::PutRecord, Command::GetRecord, Command::StartProviding, Command::GetProviders]
    {
        assert!(matches!(
            state.handle_command(&mut listeners, command, NOW, UNIX),
            CommandAnswer::Query(_)
        ));
    }
    assert!(matches!(
        state.handle_command(&mut listeners, Command::Shutdown, NOW, UNIX),
        CommandAnswer::Stop
    ));
}

#[test]
fn reports_of_the_transport_reach_the_listeners() {
    let mut state = event_loop(1, TorMode::DisableTor);
    let mut direct = KeySet::new();
    direct.insert(0);
    let mut listeners = Listeners::new(
        TorMode::DisableTor,
        direct,
        Table::new(),
        Vec::new(),
        None,
        true,
        Some(0),
        Vec::new(),
    );
    let heard = SwarmEvent::NewListenAddr {
        listener: 0,
        address: address("/ip4/0.0.0.0/udp/44000/quic-v1"),
    };
    let answer = state.handle_swarm_event(&mut listeners, heard, NOW, UNIX);
    assert!(matches!(answer, SwarmAnswer::Listening { port: Some(44000), started: true }));
    assert!(listeners.network_ready());
    let again = SwarmEvent::NewListenAddr {
        listener: 0,
        address: address("/ip4/0.0.0.0/udp/44000/quic-v1"),
    };
    let answer = state.handle_swarm_event(&mut listeners, again, NOW, UNIX);
    assert!(matches!(answer, SwarmAnswer::Listening { started: false, .. }));
    let answer = state.handle_swarm_event(
        &mut listeners,
        SwarmEvent::ExpiredListenAddr { listener: 0 },
        NOW,
        UNIX,
    );
    assert!(matches!(answer, SwarmAnswer::Nothing));
    let closed = SwarmEvent::ListenerClosed { listener: 0 };
    match state.handle_swarm_event(&mut listeners, closed, NOW, UNIX) {
        SwarmAnswer::Closed(closure) => assert!(closure.failure.is_some()),
        _ => panic!("a closed listener was not answered"),
    }
}

#[test]
fn reports_of_the_transport_reach_connections_and_requests() {
    let mut state = event_loop(1, TorMode::DisableTor);
    let mut listeners = no_listeners(TorMode::DisableTor);
    let remote = peer(2);
    let established = ConnectionEvent::ConnectionEstablished {
        connection: 5,
        peer: remote,
        endpoint: ConnectedPoint::Listener {
            local_addr: address("/ip4/192.0.2.1/udp/44000/quic-v1"),
        },
    };
    let answer =
        state.handle_swarm_event(&mut listeners, SwarmEvent::Connection(established), NOW, UNIX);
    assert!(matches!(answer, SwarmAnswer::Nothing));
    let asked = |request, signer: u8, capacity| {
        SwarmEvent::Peer(PeerEvent::Request {
            request,
            peer: remote,
            connection: 5,
            bytes: Some(10),
            signer: Id32(node(signer).key),
            capacity,
        })
    };
    let mut decide = |event| match state.handle_swarm_event(&mut listeners, event, NOW, UNIX) {
        SwarmAnswer::Inbound(decision) => Some(decision),
        _ => None,
    };
    assert_eq!(
        decide(asked(1, 2, true)),
        Some(InboundDecision::Accepted { path: Some(P2pPath::Direct) })
    );
    assert_eq!(
        decide(asked(2, 2, false)),
        Some(InboundDecision::Refused { path: Some(P2pPath::Direct) })
    );
    assert_eq!(decide(asked(3, 3, true)), Some(InboundDecision::Ignored));
    let ended = SwarmEvent::Peer(PeerEvent::InboundFailure { request: 1 });
    assert_eq!(decide(ended), None);
    assert!(!state.is_busy(remote));
    let step = SwarmEvent::QueryProgressed {
        query: DhtQuery::Put,
        progress: DhtProgress::PutEnded { stored: true },
        last: true,
    };
    assert!(matches!(
        state.handle_swarm_event(&mut listeners, step, NOW, UNIX),
        SwarmAnswer::Query(DhtStep::Ended(DhtAnswer::Done))
    ));
}

#[test]
fn a_queued_request_whose_caller_is_gone_is_dropped() {
    let mut state = event_loop(1, TorMode::DisableTor);
    call(&mut state, 7, 1, 2);
    assert_eq!(state.queued.len(), 1);
    state.note_caller_gone(8);
    state.maintain_requests(NOW);
    assert_eq!(state.queued.len(), 1);
    state.note_caller_gone(7);
    state.maintain_requests(NOW);
    assert_eq!(state.queued.len(), 0);
}
