//! What holds of the endpoints that a node takes and gives out.

use crate::address::{
    address_of_text, address_text, last_peer, peer_of_key, terminal_peer, Component, PeerId,
};
use crate::endpoints::{
    bootstrap_problem, candidate_outcome, candidates, canonical_external, class_of, direct_quic,
    external_problem, first_problem, has_publishable, listener_as_local_problem, listener_candidate,
    listener_problem, local_problem, occurs_in,
    published_problem, relay_problem, stripped, supported_transport, text_bytes,
    usable_ipv4, usable_ipv6, BootstrapProblem, EndpointLimits, EndpointProblem,
    ListenerProblem, LocalEndpointProblem, LocalEndpoints, PublishedTransportClass,
};
use crate::policy::{address_allowed, views};
use crate::tor::{canonical_onion, onion_listener, onion_matches_peer, NodeId, TorMode};
use vstd::prelude::*;

verus! {

/// An IP address can be dialled unless it is the unspecified one, a multicast
/// address, the broadcast address, or one of a single link.
pub proof fn ip_addresses_that_can_be_dialled(v4: Seq<u8>, v6: Seq<u8>)
    requires
        v4.len() == 4,
        v6.len() == 16,
    ensures
        usable_ipv4(v4) <==> !(v4[0] == 0 && v4[1] == 0 && v4[2] == 0 && v4[3] == 0) && (v4[0] < 224
            || v4[0] > 239) && !(v4[0] == 255 && v4[1] == 255 && v4[2] == 255 && v4[3] == 255),
        usable_ipv6(v6) <==> (exists|i: int| 0 <= i < 16 && #[trigger] v6[i] != 0) && v6[0] < 255
            && !(v6[0] == 254 && 128 <= v6[1] < 192),
{
    if v4[0] == 0 && v4[1] == 0 && v4[2] == 0 && v4[3] == 0 {
        assert(v4 =~= seq![0u8, 0u8, 0u8, 0u8]);
    }
    if v4[0] == 255 && v4[1] == 255 && v4[2] == 255 && v4[3] == 255 {
        assert(v4 =~= seq![255u8, 255u8, 255u8, 255u8]);
    }
    assert(seq![0u8, 0u8, 0u8, 0u8][3] == 0);
}

/// A transport takes an address of a usable IP address, a UDP port and QUIC,
/// such an address with a relay and a circuit behind it, or an onion service,
/// and no other.
pub proof fn addresses_that_transports_take(
    address: Seq<Component>,
    v4: Seq<u8>,
    v6: Seq<u8>,
    port: u16,
    relay: PeerId,
)
    requires
        v4.len() == 4,
        v6.len() == 16,
    ensures
        ({
            let direct4 = seq![Component::Ip4(v4), Component::Udp(port), Component::QuicV1];
            let direct6 = seq![Component::Ip6(v6), Component::Udp(port), Component::QuicV1];
            let behind = seq![Component::P2p(relay), Component::P2pCircuit];
            &&& supported_transport(direct4) == (usable_ipv4(v4) && port > 0)
            &&& supported_transport(direct6) == (usable_ipv6(v6) && port > 0)
            &&& supported_transport(direct4 + behind) == (usable_ipv4(v4) && port > 0)
            &&& supported_transport(direct6 + behind) == (usable_ipv6(v6) && port > 0)
        }),
        canonical_onion(address) ==> supported_transport(address),
        supported_transport(address) && !canonical_onion(address) ==> {
            &&& address.len() == 3 || address.len() == 5
            &&& address[0] is Ip4 || address[0] is Ip6
            &&& address[1] is Udp && address[1]->Udp_0 > 0
            &&& address[2] is QuicV1
            &&& address.len() == 5 ==> address[3] is P2p && address[4] is P2pCircuit
        },
{
}

/// The first thing that is wrong with an endpoint of a peer is told: that it is
/// empty or too long, spells no address, ends in no peer or another, is the onion
/// service of another, is of no transport, or is spelled in another way than
/// addresses are. An endpoint with none of these is taken.
pub proof fn an_endpoint_is_taken_for_its_peer(
    limits: EndpointLimits,
    peer: PeerId,
    value: Seq<char>,
    address: Seq<Component>,
)
    ensures
        ({
            let problem = published_problem(limits, peer, value);
            let fits = 0 < value.len() && text_bytes(value).len() <= limits.bytes;
            &&& problem == Some(EndpointProblem::EmptyOrTooLong) <==> !fits
            &&& problem == Some(EndpointProblem::Invalid) <==> fits && address_of_text(
                value,
            ) is None
            &&& fits && address_of_text(value) == Some(address) ==> {
                let ends = address.len() > 0 && address.last() == Component::P2p(peer);
                let own = onion_matches_peer(address, peer);
                let carried = supported_transport(address.drop_last());
                &&& !ends ==> problem == Some(EndpointProblem::Unbound)
                &&& ends && !own ==> problem == Some(EndpointProblem::OnionMismatch)
                &&& ends && own && !carried ==> problem == Some(EndpointProblem::Unsupported)
                &&& ends && own && carried && address_text(address) != value ==> problem == Some(
                    EndpointProblem::NotCanonical,
                )
                &&& ends && own && carried && address_text(address) == value ==> problem is None
            }
        }),
{
}

/// An entry point must be spelled as addresses are, end in a peer for which it is
/// an endpoint that is taken, and be of a kind that the mode allows.
pub proof fn an_entry_point_is_taken_for_the_peer_at_its_end(
    limits: EndpointLimits,
    mode: TorMode,
    value: Seq<char>,
    address: Seq<Component>,
    peer: PeerId,
)
    ensures
        ({
            let problem = bootstrap_problem(limits, mode, value);
            let fits = 0 < value.len() && text_bytes(value).len() <= limits.bytes;
            &&& problem == Some(BootstrapProblem::EmptyOrTooLong) <==> !fits
            &&& problem == Some(BootstrapProblem::Invalid) <==> fits && address_of_text(
                value,
            ) is None
            &&& fits && address_of_text(value) == Some(address) ==> {
                &&& address_text(address) != value <==> problem == Some(
                    BootstrapProblem::NotCanonical,
                )
                &&& (forall|i: int| 0 <= i < address.len() ==> !(#[trigger] address[i] is P2p))
                    && address_text(address) == value <==> problem == Some(BootstrapProblem::NoPeer)
                &&& address_text(address) == value && address.len() > 0 && address.last()
                    == Component::P2p(peer) ==> {
                    let endpoint = published_problem(limits, peer, value);
                    &&& endpoint matches Some(found) ==> problem == Some(
                        BootstrapProblem::Endpoint(found),
                    )
                    &&& endpoint is None ==> problem == (if address_allowed(mode, address) {
                        None
                    } else {
                        Some(BootstrapProblem::Incompatible)
                    })
                }
                &&& problem is None ==> address.len() > 0 && address.last() is P2p
            }
        }),
{
    if address_of_text(value) == Some(address) {
        the_last_peer_ends_an_address(address, peer);
        if terminal_peer(address) is Some {
            the_last_peer_ends_an_address(address, terminal_peer(address)->0);
        }
        if forall|i: int| 0 <= i < address.len() ==> !(#[trigger] address[i] is P2p) {
            assert(terminal_peer(address) is None);
        }
        if address.len() > 0 {
            assert(address[address.len() - 1] == address.last());
        }
    }
}

/// An address leads to the last of the peers in it, and to none where no peer is
/// in it.
pub proof fn the_last_peer_ends_an_address(address: Seq<Component>, peer: PeerId)
    ensures
        terminal_peer(address) == Some(peer) <==> (exists|i: int|
            0 <= i < address.len() && #[trigger] address[i] == Component::P2p(peer) && (forall|j: int|
                i < j < address.len() ==> !(#[trigger] address[j] is P2p))),
        terminal_peer(address) is None <==> (forall|i: int|
            0 <= i < address.len() ==> !(#[trigger] address[i] is P2p)),
    decreases address.len(),
{
    if address.len() > 0 {
        let before = address.drop_last();
        the_last_peer_ends_an_address(before, peer);
        let last = address[address.len() - 1];
        assert(last == address.last());
        assert(forall|i: int| 0 <= i < before.len() ==> before[i] == address[i]);
        if !(last is P2p) {
            if terminal_peer(before) == Some(peer) {
                let i = choose|i: int|
                    0 <= i < before.len() && #[trigger] before[i] == Component::P2p(peer) && (
                    forall|j: int| i < j < before.len() ==> !(#[trigger] before[j] is P2p));
                assert(address[i] == Component::P2p(peer));
                assert forall|j: int| i < j < address.len() implies !(#[trigger] address[j] is P2p) by {
                    if j < before.len() {
                        assert(before[j] == address[j]);
                    }
                }
            }
            if exists|i: int|
                0 <= i < address.len() && #[trigger] address[i] == Component::P2p(peer) && (forall|
                    j: int,
                | i < j < address.len() ==> !(#[trigger] address[j] is P2p)) {
                let i = choose|i: int|
                    0 <= i < address.len() && #[trigger] address[i] == Component::P2p(peer) && (
                    forall|j: int| i < j < address.len() ==> !(#[trigger] address[j] is P2p));
                assert(before[i] == address[i]);
                assert forall|j: int| i < j < before.len() implies !(#[trigger] before[j] is P2p) by {
                    assert(before[j] == address[j]);
                }
            }
            if forall|i: int| 0 <= i < before.len() ==> !(#[trigger] before[i] is P2p) {
                assert forall|i: int| 0 <= i < address.len() implies !(#[trigger] address[i] is P2p) by {
                    if i < before.len() {
                        assert(before[i] == address[i]);
                    }
                }
            }
        }
    }
}

/// A candidate is published without the node at its end, whether it came with it
/// or not, and as what it is: an onion service, a relayed or a direct address. One
/// that is no endpoint of the node is refused for what is wrong with it.
pub proof fn a_candidate_is_published_for_the_node(
    limits: EndpointLimits,
    peer: PeerId,
    value: Seq<char>,
    address: Seq<Component>,
)
    requires
        address_of_text(value) == Some(address),
    ensures
        ({
            let full = if address.len() > 0 && address.last() == Component::P2p(peer) {
                address
            } else {
                address.push(Component::P2p(peer))
            };
            let outcome = candidate_outcome(limits, peer, value);
            match published_problem(limits, peer, address_text(full)) {
                Some(problem) => outcome == Err::<
                    (Seq<char>, PublishedTransportClass),
                    (EndpointProblem, Seq<char>),
                >((problem, address_text(full))),
                None => address_of_text(address_text(full)) == Some(full) ==> {
                    let bare = full.drop_last();
                    &&& outcome matches Ok((text, class)) && text == address_text(bare) && class
                        == class_of(bare)
                },
            }
        }),
        class_of(address) is Onion <==> (exists|i: int|
            0 <= i < address.len() && #[trigger] address[i] is Onion3),
        class_of(address) is Relay <==> (exists|i: int|
            0 <= i < address.len() && #[trigger] address[i] is P2pCircuit) && (forall|i: int|
            0 <= i < address.len() ==> !(#[trigger] address[i] is Onion3)),
{
}

/// A listener is bound to an IP address, a UDP port and QUIC, in this order and
/// with nothing behind. It leads to itself, with the longest port in place of none;
/// one that is bound to every address leads nowhere by itself.
pub proof fn listeners_that_can_be_bound(v4: Seq<u8>, v6: Seq<u8>, port: u16, address: Seq<Component>)
    requires
        v4.len() == 4,
        v6.len() == 16,
    ensures
        ({
            let on4 = seq![Component::Ip4(v4), Component::Udp(port), Component::QuicV1];
            let on6 = seq![Component::Ip6(v6), Component::Udp(port), Component::QuicV1];
            let any4 = v4[0] == 0 && v4[1] == 0 && v4[2] == 0 && v4[3] == 0;
            let any6 = forall|i: int| 0 <= i < 16 ==> #[trigger] v6[i] == 0;
            let given = Component::Udp(
                if port == 0 {
                    65535
                } else {
                    port
                },
            );
            &&& listener_problem(on4) is None <==> usable_ipv4(v4) || any4
            &&& listener_problem(on6) is None <==> usable_ipv6(v6) || any6
            &&& listener_candidate(on4) == (if any4 {
                None
            } else {
                Some(seq![Component::Ip4(v4), given, Component::QuicV1])
            })
            &&& listener_candidate(on6) == (if any6 {
                None
            } else {
                Some(seq![Component::Ip6(v6), given, Component::QuicV1])
            })
        }),
        address.len() == 0 || !(address[0] is Ip4 || address[0] is Ip6) ==> listener_problem(address)
            == Some(ListenerProblem::NotUnicastIp),
        listener_problem(address) is None ==> address.len() == 3 && address[1] is Udp
            && address[2] is QuicV1,
        listener_problem(address) == Some(ListenerProblem::NotUdp) ==> address.len() < 2 || !(
        address[1] is Udp),
        listener_problem(address) == Some(ListenerProblem::NotQuic) ==> address.len() != 3 || !(
        address[2] is QuicV1),
{
    if v4[0] == 0 && v4[1] == 0 && v4[2] == 0 && v4[3] == 0 {
        assert(v4 =~= seq![0u8, 0u8, 0u8, 0u8]);
    }
    assert(seq![0u8, 0u8, 0u8, 0u8][0] == 0);
    assert(seq![255u8, 255u8, 255u8, 255u8][0] == 255);
    if forall|i: int| 0 <= i < 16 ==> #[trigger] v6[i] == 0 {
        assert(v6[0] == 0);
    }
}

/// An external address is a direct one, with nobody else at its end, that makes
/// up an endpoint of the node; where everything must go over Tor there is none.
pub proof fn external_addresses_are_direct_and_of_the_node(
    limits: EndpointLimits,
    peer: PeerId,
    other: PeerId,
    mode: TorMode,
    direct: Seq<Component>,
)
    requires
        last_peer(direct) is None,
    ensures
        ({
            let endpoint = published_problem(
                limits,
                peer,
                address_text(direct.push(Component::P2p(peer))),
            );
            let problem = external_problem(limits, peer, mode, direct);
            &&& external_problem(limits, peer, mode, direct.push(Component::P2p(peer))) == problem
            &&& other != peer ==> external_problem(
                limits,
                peer,
                mode,
                direct.push(Component::P2p(other)),
            ) == Some(LocalEndpointProblem::OtherIdentity)
            &&& problem is None <==> direct_quic(direct) && endpoint is None && !(mode is RequireTor)
            &&& !direct_quic(direct) ==> problem == Some(LocalEndpointProblem::NotDirect)
            &&& direct_quic(direct) && endpoint is Some ==> problem == Some(
                LocalEndpointProblem::Endpoint(endpoint->0),
            )
            &&& direct_quic(direct) && endpoint is None && mode is RequireTor ==> problem == Some(
                LocalEndpointProblem::RequiresTor,
            )
            &&& stripped(direct) == direct && stripped(direct.push(Component::P2p(peer))) == direct
        }),
{
    assert(direct.push(Component::P2p(peer)).drop_last() =~= direct);
    assert(direct.push(Component::P2p(other)).drop_last() =~= direct);
}

/// The address of a relay ends in the relay, and with a circuit and the node behind
/// it makes up an endpoint of the node.
pub proof fn a_relay_leads_to_the_node(
    limits: EndpointLimits,
    peer: PeerId,
    relay: PeerId,
    before: Seq<Component>,
    address: Seq<Component>,
)
    ensures
        ({
            let reserved = before.push(Component::P2p(relay));
            let endpoint = published_problem(
                limits,
                peer,
                address_text(reserved.push(Component::P2pCircuit).push(Component::P2p(peer))),
            );
            relay_problem(limits, peer, reserved) == match endpoint {
                Some(found) => Some(LocalEndpointProblem::Endpoint(found)),
                None => None,
            }
        }),
        relay_problem(limits, peer, address) == Some(LocalEndpointProblem::RelayWithoutPeer) <==> (
        forall|i: int| 0 <= i < address.len() ==> !(#[trigger] address[i] is P2p)),
        address.len() > 0 && !(address.last() is P2p) && (exists|i: int|
            0 <= i < address.len() && #[trigger] address[i] is P2p) ==> relay_problem(
            limits,
            peer,
            address,
        ) == Some(LocalEndpointProblem::RelayPeerNotLast),
{
    let reserved = before.push(Component::P2p(relay));
    assert(reserved.last() == Component::P2p(relay));
    the_last_peer_ends_an_address(address, peer);
}

/// The first item with a problem decides; nothing is wrong where no item has one.
pub proof fn the_first_problem_decides(
    items: Seq<Seq<Component>>,
    problem: spec_fn(Seq<Component>) -> Option<LocalEndpointProblem>,
    at: int,
)
    ensures
        first_problem(items, problem) is None <==> (forall|i: int|
            0 <= i < items.len() ==> problem(#[trigger] items[i]) is None),
        0 <= at < items.len() && problem(items[at]) is Some && (forall|i: int|
            0 <= i < at ==> problem(#[trigger] items[i]) is None) ==> first_problem(items, problem)
            == problem(items[at]),
    decreases items.len(),
{
    if items.len() > 0 {
        let before = items.drop_last();
        the_first_problem_decides(before, problem, at);
        assert(items.last() == items[items.len() - 1]);
        assert(forall|i: int| 0 <= i < before.len() ==> before[i] == items[i]);
        if forall|i: int| 0 <= i < before.len() ==> problem(#[trigger] before[i]) is None {
            assert forall|i: int| 0 <= i < items.len() - 1 implies problem(
                #[trigger] items[i],
            ) is None by {
                assert(before[i] == items[i]);
            }
        } else {
            let i = choose|i: int| 0 <= i < before.len() && problem(#[trigger] before[i]) is Some;
            assert(items[i] == before[i]);
        }
        if 0 <= at < items.len() && problem(items[at]) is Some && (forall|i: int|
            0 <= i < at ==> problem(#[trigger] items[i]) is None) {
            assert forall|i: int| 0 <= i < at && i < before.len() implies problem(
                #[trigger] before[i],
            ) is None by {
                assert(before[i] == items[i]);
            }
        }
    }
}

/// A node can be reached if it has an external address or maps a port, offers a
/// service over Tor, or, where not everything must go over Tor, has a relay or a
/// listener on an address of its own.
pub proof fn a_node_offers_a_way_to_it(mode: TorMode, local: LocalEndpoints)
    ensures
        local.external_addresses@.len() > 0 || local.enable_port_mapping || mode is PreferTor
            || mode is RequireTor ==> has_publishable(mode, local),
        !(mode is RequireTor) && local.relay_reservation_addresses@.len() > 0 ==> has_publishable(
            mode,
            local,
        ),
        forall|i: int|
            #![trigger local.listen_addresses@[i]]
            0 <= i < local.listen_addresses@.len() && !(mode is RequireTor) && listener_candidate(
                local.listen_addresses@[i]@,
            ) is Some ==> has_publishable(mode, local),
        mode is DisableTor && local.external_addresses@.len() == 0 && !local.enable_port_mapping
            && local.relay_reservation_addresses@.len() == 0 && (forall|i: int|
            0 <= i < local.listen_addresses@.len() ==> listener_candidate(
                (#[trigger] local.listen_addresses@[i])@,
            ) is None) ==> !has_publishable(mode, local),
{
    assert forall|i: int|
        #![trigger local.listen_addresses@[i]]
        0 <= i < local.listen_addresses@.len() && !(mode is RequireTor) && listener_candidate(
            local.listen_addresses@[i]@,
        ) is Some implies has_publishable(mode, local) by {
        assert(views(local.listen_addresses@)[i] == local.listen_addresses@[i]@);
    }
    if forall|i: int|
        0 <= i < local.listen_addresses@.len() ==> listener_candidate(
            (#[trigger] local.listen_addresses@[i])@,
        ) is None {
        assert forall|i: int| 0 <= i < local.listen_addresses@.len() implies listener_candidate(
            #[trigger] views(local.listen_addresses@)[i],
        ) is None by {
            assert(views(local.listen_addresses@)[i] == local.listen_addresses@[i]@);
        }
    }
}

/// The local endpoints of a node are refused for the first thing that is wrong: no
/// identity; an external address, or too many; a listener; too many relays, or one
/// of them; the service over Tor; and that nobody could reach the node.
pub proof fn local_endpoints_are_refused_for_the_first_thing_wrong(
    limits: EndpointLimits,
    node: NodeId,
    peer: PeerId,
    mode: TorMode,
    local: LocalEndpoints,
)
    requires
        peer_of_key(node.key@) == Some(peer),
    ensures
        ({
            let problem = local_problem(limits, node, mode, local);
            let external = views(local.external_addresses@);
            let listeners = views(local.listen_addresses@);
            let relays = views(local.relay_reservation_addresses@);
            let external_fine = forall|i: int|
                0 <= i < external.len() ==> external_problem(
                    limits,
                    peer,
                    mode,
                    #[trigger] external[i],
                ) is None;
            let few = external.map_values(|address: Seq<Component>| stripped(address)).to_set().len()
                <= limits.per_peer;
            let listeners_fine = forall|i: int|
                0 <= i < listeners.len() ==> listener_problem(#[trigger] listeners[i]) is None;
            let relays_fine = forall|i: int|
                0 <= i < relays.len() ==> relay_problem(limits, peer, #[trigger] relays[i]) is None;
            let service_fine = mode is DisableTor || published_problem(
                limits,
                peer,
                address_text(onion_listener(node).push(Component::P2p(peer))),
            ) is None;
            problem is None <==> external_fine && few && listeners_fine && relays.len()
                <= limits.per_peer && relays_fine && service_fine && has_publishable(mode, local)
        }),
        forall|i: int|
            #![trigger local.external_addresses@[i]]
            0 <= i < local.external_addresses@.len() && external_problem(
                limits,
                peer,
                mode,
                local.external_addresses@[i]@,
            ) is Some && (forall|j: int|
                0 <= j < i ==> external_problem(
                    limits,
                    peer,
                    mode,
                    #[trigger] views(local.external_addresses@)[j],
                ) is None) ==> local_problem(limits, node, mode, local) == external_problem(
                limits,
                peer,
                mode,
                local.external_addresses@[i]@,
            ),
{
    let external = views(local.external_addresses@);
    let listeners = views(local.listen_addresses@);
    let relays = views(local.relay_reservation_addresses@);
    let of_external = |address: Seq<Component>| external_problem(limits, peer, mode, address);
    let of_listener = |address: Seq<Component>| listener_as_local_problem(address);
    let of_relay = |address: Seq<Component>| relay_problem(limits, peer, address);
    the_first_problem_decides(external, of_external, 0);
    the_first_problem_decides(listeners, of_listener, 0);
    the_first_problem_decides(relays, of_relay, 0);
    if forall|i: int| 0 <= i < listeners.len() ==> of_listener(#[trigger] listeners[i]) is None {
        assert forall|i: int| 0 <= i < listeners.len() implies listener_problem(
            #[trigger] listeners[i],
        ) is None by {
            assert(of_listener(listeners[i]) is None);
        }
    }
    if forall|i: int| 0 <= i < external.len() ==> of_external(#[trigger] external[i]) is None {
        assert forall|i: int| 0 <= i < external.len() implies external_problem(
            limits,
            peer,
            mode,
            #[trigger] external[i],
        ) is None by {
            assert(of_external(external[i]) is None);
        }
    }
    if forall|i: int| 0 <= i < relays.len() ==> of_relay(#[trigger] relays[i]) is None {
        assert forall|i: int| 0 <= i < relays.len() implies relay_problem(
            limits,
            peer,
            #[trigger] relays[i],
        ) is None by {
            assert(of_relay(relays[i]) is None);
        }
    }
    let bare = external.map_values(|address: Seq<Component>| stripped(address));
    assert forall|address: Seq<Component>| #[trigger] bare.to_set().contains(address)
        == canonical_external(external).contains(address) by {
        if bare.to_set().contains(address) {
            let k = choose|k: int| 0 <= k < bare.len() && bare[k] == address;
            assert(stripped(external[k]) == address);
        }
        if canonical_external(external).contains(address) {
            let k = choose|k: int|
                0 <= k < external.len() && stripped(#[trigger] external[k]) == address;
            assert(bare[k] == address);
        }
    }
    assert(bare.to_set() =~= canonical_external(external));
    assert forall|i: int|
        #![trigger local.external_addresses@[i]]
        0 <= i < local.external_addresses@.len() && external_problem(
            limits,
            peer,
            mode,
            local.external_addresses@[i]@,
        ) is Some && (forall|j: int|
            0 <= j < i ==> external_problem(
                limits,
                peer,
                mode,
                #[trigger] views(local.external_addresses@)[j],
            ) is None) implies local_problem(limits, node, mode, local) == external_problem(
        limits,
        peer,
        mode,
        local.external_addresses@[i]@,
    ) by {
        assert(external[i] == local.external_addresses@[i]@);
        the_first_problem_decides(external, of_external, i);
    }
}

/// Candidates are the configured endpoints and the mapped address, in any case; of the
/// listeners, all where nothing is configured, else those by way of a relay and those
/// of an onion service.
pub proof fn listeners_are_candidates_where_nothing_is_configured(
    configured: Seq<Seq<Component>>,
    mapped: Option<Seq<Component>>,
    listeners: Seq<Seq<char>>,
    text: Seq<char>,
    at: int,
)
    ensures
        ({
            let found = candidates(configured, mapped, listeners);
            let relayed = occurs_in("/p2p-circuit"@, text);
            let hidden = address_of_text(text) is Some && exists|i: int|
                0 <= i < address_of_text(text)->0.len() && #[trigger] address_of_text(
                    text,
                )->0[i] is Onion3;
            &&& 0 <= at < configured.len() ==> found.contains(address_text(configured[at]))
            &&& mapped matches Some(address) ==> found.contains(address_text(address))
            &&& listeners.contains(text) && configured.len() == 0 ==> found.contains(text)
            &&& listeners.contains(text) && (relayed || hidden) ==> found.contains(text)
            &&& found.contains(text) && !listeners.contains(text) ==> (mapped is Some && text
                == address_text(mapped->0)) || exists|i: int|
                0 <= i < configured.len() && address_text(#[trigger] configured[i]) == text
            &&& found.contains(text) && configured.len() > 0 && !relayed && !hidden ==> (
            mapped is Some && text == address_text(mapped->0)) || exists|i: int|
                0 <= i < configured.len() && address_text(#[trigger] configured[i]) == text
        }),
{
}

} // verus!
