//! Which endpoints a node may publish, and which of them it publishes.

use crate::address::{
    address_of_text, address_text, is_circuit, is_onion, last_peer, peer_of_key, terminal_peer,
    terminal_peer_id, AddressSet, Component, Multiaddr, PeerId, Protocol,
};
use crate::ordered::{
    lemma_lex_antisymmetric, lemma_lex_total, lemma_text_rank_tells_apart, lex_le, models,
    sorted_texts, OrderedSet, Ranked, TextSet,
};
use crate::policy::{address_allowed, address_allowed_by_tor_mode, views};
use crate::tor::{
    canonical_onion, is_canonical_onion_address, onion_address_matches_peer, onion_listener,
    onion_listener_address, onion_matches_peer, NodeId, TorMode,
};
use vstd::prelude::*;
use vstd::string::{StrSliceExecFns, StringExecFns};

verus! {

/// How many bootstrap addresses may be configured.
pub const MAX_BOOTSTRAP_ADDRESSES: usize = 64;

/// The protocol's limits on what a peer publishes.
#[derive(Clone, Copy, Debug)]
pub struct EndpointLimits {
    /// How many endpoints a peer publishes at most.
    pub per_peer: usize,
    /// How many bytes one endpoint has at most.
    pub bytes: usize,
}

/// Why an endpoint is refused.
#[derive(Clone, Copy, Debug, PartialEq, Eq, Structural)]
pub enum EndpointProblem {
    EmptyOrTooLong,
    Invalid,
    Unbound,
    OnionMismatch,
    Unsupported,
    NotCanonical,
}

/// A refused endpoint.
#[derive(Debug)]
pub struct EndpointError {
    pub problem: EndpointProblem,
    pub value: String,
}

/// The message for a refused endpoint.
pub open spec fn problem_text(problem: EndpointProblem, value: Seq<char>) -> Seq<char> {
    match problem {
        EndpointProblem::EmptyOrTooLong => "advertised endpoint is empty or too long"@,
        EndpointProblem::Invalid => "invalid advertised endpoint "@ + value,
        EndpointProblem::Unbound =>
            "advertised endpoint is not bound to its seed-derived peer identity"@,
        EndpointProblem::OnionMismatch =>
            "advertised onion endpoint differs from its peer identity"@,
        EndpointProblem::Unsupported =>
            "advertised endpoint is not usable by the configured libp2p transports"@,
        EndpointProblem::NotCanonical =>
            "advertised endpoint is not in canonical multiaddress form"@,
    }
}

impl EndpointError {
    pub fn message(&self) -> (text: String)
        ensures
            text@ == problem_text(self.problem, self.value@),
    {
        match self.problem {
            EndpointProblem::EmptyOrTooLong => String::from_str(
                "advertised endpoint is empty or too long",
            ),
            EndpointProblem::Invalid => {
                let mut text = String::from_str("invalid advertised endpoint ");
                text.append(self.value.as_str());
                text
            },
            EndpointProblem::Unbound => String::from_str(
                "advertised endpoint is not bound to its seed-derived peer identity",
            ),
            EndpointProblem::OnionMismatch => String::from_str(
                "advertised onion endpoint differs from its peer identity",
            ),
            EndpointProblem::Unsupported => String::from_str(
                "advertised endpoint is not usable by the configured libp2p transports",
            ),
            EndpointProblem::NotCanonical => String::from_str(
                "advertised endpoint is not in canonical multiaddress form",
            ),
        }
    }
}

/// An IPv4 address that another node can dial: not 0.0.0.0, not in
/// 224.0.0.0/4, not 255.255.255.255.
pub open spec fn usable_ipv4(octets: Seq<u8>) -> bool {
    &&& octets != seq![0u8, 0u8, 0u8, 0u8]
    &&& !(224 <= octets[0] <= 239)
    &&& octets != seq![255u8, 255u8, 255u8, 255u8]
}

/// Every byte is zero.
pub open spec fn all_zero(octets: Seq<u8>) -> bool {
    forall|i: int| 0 <= i < octets.len() ==> octets[i] == 0
}

/// An IPv6 address that another node can dial: not `::`, not in ff00::/8, not
/// in fe80::/10.
pub open spec fn usable_ipv6(octets: Seq<u8>) -> bool {
    &&& !all_zero(octets)
    &&& octets[0] != 0xff
    &&& !(octets[0] == 0xfe && 0x80 <= octets[1] <= 0xbf)
}

/// Whether every octet of an IPv4 address has a value.
pub fn ipv4_is(octets: &[u8; 4], value: u8) -> (result: bool)
    ensures
        result == (octets@ == seq![value, value, value, value]),
{
    let result = octets[0] == value && octets[1] == value && octets[2] == value && octets[3]
        == value;
    proof {
        if result {
            assert(octets@ =~= seq![value, value, value, value]);
        }
    }
    result
}

/// Whether an IPv6 address is `::`.
pub fn ipv6_is_unspecified(octets: &[u8; 16]) -> (result: bool)
    ensures
        result == all_zero(octets@),
{
    let mut i: usize = 0;
    while i < 16
        invariant
            i <= 16,
            forall|k: int| 0 <= k < i ==> octets@[k] == 0,
        decreases 16 - i,
    {
        if octets[i] != 0 {
            return false;
        }
        i += 1;
    }
    true
}

/// Whether another node can dial an IPv4 address.
pub fn valid_advertised_ipv4(octets: &[u8; 4]) -> (result: bool)
    ensures
        result == usable_ipv4(octets@),
{
    !ipv4_is(octets, 0) && !(224 <= octets[0] && octets[0] <= 239) && !ipv4_is(octets, 255)
}

/// Whether another node can dial an IPv6 address.
pub fn valid_advertised_ipv6(octets: &[u8; 16]) -> (result: bool)
    ensures
        result == usable_ipv6(octets@),
{
    !ipv6_is_unspecified(octets) && octets[0] != 0xff && !(octets[0] == 0xfe && 0x80 <= octets[1]
        && octets[1] <= 0xbf)
}

/// An address starts with a usable IP address, a UDP port and QUIC.
pub open spec fn quic_prefix(address: Seq<Component>) -> bool {
    &&& address.len() >= 3
    &&& match address[0] {
        Component::Ip4(octets) => usable_ipv4(octets),
        Component::Ip6(octets) => usable_ipv6(octets),
        _ => false,
    }
    &&& address[1] matches Component::Udp(port) && port != 0
    &&& address[2] is QuicV1
}

/// A direct QUIC endpoint: IP address, UDP port, QUIC, and nothing more.
pub open spec fn direct_quic(address: Seq<Component>) -> bool {
    quic_prefix(address) && address.len() == 3
}

/// A relayed endpoint: a direct endpoint, the relay's peer and a circuit.
pub open spec fn relayed_quic(address: Seq<Component>) -> bool {
    quic_prefix(address) && address.len() == 5 && address[3] is P2p && address[4] is P2pCircuit
}

/// The shapes of address that the transports implement.
pub open spec fn supported_transport(address: Seq<Component>) -> bool {
    canonical_onion(address) || direct_quic(address) || relayed_quic(address)
}

fn has_quic_prefix(address: &Multiaddr) -> (result: bool)
    ensures
        result == quic_prefix(address@),
{
    if address.protocols.len() < 3 {
        return false;
    }
    assert(address@[0] == address.protocols@[0]@);
    assert(address@[1] == address.protocols@[1]@);
    assert(address@[2] == address.protocols@[2]@);
    let ip_is_usable = match &address.protocols[0] {
        Protocol::Ip4(octets) => valid_advertised_ipv4(octets),
        Protocol::Ip6(octets) => valid_advertised_ipv6(octets),
        _ => false,
    };
    let port_is_usable = match &address.protocols[1] {
        Protocol::Udp(port) => *port != 0,
        _ => false,
    };
    let is_quic = match &address.protocols[2] {
        Protocol::QuicV1 => true,
        _ => false,
    };
    ip_is_usable && port_is_usable && is_quic
}

/// Whether an address is a direct QUIC endpoint.
pub fn supported_direct_quic_transport(address: &Multiaddr) -> (result: bool)
    ensures
        result == direct_quic(address@),
{
    has_quic_prefix(address) && address.protocols.len() == 3
}

/// Whether the transports implement the shape of an address. The terminal peer
/// is added and checked separately.
pub fn supported_advertised_transport(address: &Multiaddr) -> (result: bool)
    ensures
        result == supported_transport(address@),
{
    if is_canonical_onion_address(address) || supported_direct_quic_transport(address) {
        return true;
    }
    if !has_quic_prefix(address) || address.protocols.len() != 5 {
        return false;
    }
    assert(address@[3] == address.protocols@[3]@);
    assert(address@[4] == address.protocols@[4]@);
    let names_relay = match &address.protocols[3] {
        Protocol::P2p(_) => true,
        _ => false,
    };
    let is_circuit = match &address.protocols[4] {
        Protocol::P2pCircuit => true,
        _ => false,
    };
    names_relay && is_circuit
}

/// The bytes of a text.
pub open spec fn text_bytes(text: Seq<char>) -> Seq<u8> {
    vstd::utf8::encode_utf8(text)
}

/// The first thing for which an endpoint is refused for a peer: its length,
/// its spelling, a missing or other peer at its end, an onion service of
/// another key, a shape that no transport implements, or a text that is not
/// the canonical one.
pub open spec fn published_problem(
    limits: EndpointLimits,
    peer: PeerId,
    value: Seq<char>,
) -> Option<EndpointProblem> {
    if value.len() == 0 || text_bytes(value).len() > limits.bytes {
        Some(EndpointProblem::EmptyOrTooLong)
    } else {
        match address_of_text(value) {
            None => Some(EndpointProblem::Invalid),
            Some(address) => {
                if last_peer(address) != Some(peer) {
                    Some(EndpointProblem::Unbound)
                } else if !onion_matches_peer(address, peer) {
                    Some(EndpointProblem::OnionMismatch)
                } else if !supported_transport(address.drop_last()) {
                    Some(EndpointProblem::Unsupported)
                } else if address_text(address) != value {
                    Some(EndpointProblem::NotCanonical)
                } else {
                    None
                }
            },
        }
    }
}

/// Checks one endpoint that names its peer, and reads it.
pub fn validate_published_endpoint_for_peer(
    limits: &EndpointLimits,
    expected_peer: PeerId,
    value: &str,
) -> (endpoint: Result<Multiaddr, EndpointError>)
    ensures
        match endpoint {
            Ok(address) => {
                &&& published_problem(*limits, expected_peer, value@) is None
                &&& address_of_text(value@) == Some(address@)
            },
            Err(error) => {
                &&& published_problem(*limits, expected_peer, value@) == Some(error.problem)
                &&& error.value@ == value@
            },
        },
{
    let length: usize = value.as_bytes().len();
    if value.is_empty() || length > limits.bytes {
        return Err(
            EndpointError { problem: EndpointProblem::EmptyOrTooLong, value: value.to_owned() },
        );
    }
    let address = match Multiaddr::parse(value) {
        Some(address) => address,
        None => {
            return Err(
                EndpointError { problem: EndpointProblem::Invalid, value: value.to_owned() },
            );
        },
    };
    let bound = match address.last_peer() {
        Some(peer) => peer.equals(&expected_peer),
        None => false,
    };
    if !bound {
        return Err(EndpointError { problem: EndpointProblem::Unbound, value: value.to_owned() });
    }
    if !onion_address_matches_peer(&address, expected_peer) {
        return Err(
            EndpointError { problem: EndpointProblem::OnionMismatch, value: value.to_owned() },
        );
    }
    let ghost whole = address@;
    let base = address.without_last();
    if !supported_advertised_transport(&base) {
        return Err(
            EndpointError { problem: EndpointProblem::Unsupported, value: value.to_owned() },
        );
    }
    let canonical = base.with(Protocol::P2p(expected_peer));
    assert(canonical@ =~= whole);
    if canonical.text() != value.to_owned() {
        return Err(
            EndpointError { problem: EndpointProblem::NotCanonical, value: value.to_owned() },
        );
    }
    Ok(canonical)
}

/// Checks one endpoint of a node; `None` where the node's key is none.
pub fn validate_published_endpoint(
    limits: &EndpointLimits,
    node: &NodeId,
    value: &str,
) -> (endpoint: Option<Result<Multiaddr, EndpointError>>)
    ensures
        endpoint is None == peer_of_key(node.key@) is None,
        endpoint matches Some(Ok(address)) ==> {
            &&& published_problem(*limits, peer_of_key(node.key@)->0, value@) is None
            &&& address_of_text(value@) == Some(address@)
        },
        endpoint matches Some(Err(error)) ==> {
            &&& published_problem(*limits, peer_of_key(node.key@)->0, value@) == Some(error.problem)
            &&& error.value@ == value@
        },
{
    match node.peer_id() {
        Some(peer) => Some(validate_published_endpoint_for_peer(limits, peer, value)),
        None => None,
    }
}

/// How a published endpoint reaches its peer.
#[derive(Clone, Copy, Debug, PartialEq, Eq, PartialOrd, Ord, Structural)]
pub enum PublishedTransportClass {
    Direct,
    Relay,
    Onion,
}

/// The class of an endpoint.
pub open spec fn class_of(address: Seq<Component>) -> PublishedTransportClass {
    if is_onion(address) {
        PublishedTransportClass::Onion
    } else if is_circuit(address) {
        PublishedTransportClass::Relay
    } else {
        PublishedTransportClass::Direct
    }
}

/// The class of an endpoint.
pub fn published_transport_class(address: &Multiaddr) -> (class: PublishedTransportClass)
    ensures
        class == class_of(address@),
{
    if address.is_onion() {
        PublishedTransportClass::Onion
    } else if address.is_circuit() {
        PublishedTransportClass::Relay
    } else {
        PublishedTransportClass::Direct
    }
}

/// An address with the peer at its end, added where it is not there.
pub open spec fn with_peer(address: Seq<Component>, peer: PeerId) -> Seq<Component> {
    if last_peer(address) == Some(peer) {
        address
    } else {
        address.push(Component::P2p(peer))
    }
}

/// What becomes of one candidate: the text and class to publish, or the
/// problem and the text that has it.
pub open spec fn candidate_outcome(
    limits: EndpointLimits,
    peer: PeerId,
    value: Seq<char>,
) -> Result<(Seq<char>, PublishedTransportClass), (EndpointProblem, Seq<char>)> {
    match address_of_text(value) {
        None => Err((EndpointProblem::Invalid, value)),
        Some(address) => {
            let full = address_text(with_peer(address, peer));
            match published_problem(limits, peer, full) {
                Some(problem) => Err((problem, full)),
                None => {
                    let base = address_of_text(full)->0.drop_last();
                    Ok((address_text(base), class_of(base)))
                },
            }
        },
    }
}

/// Checks a local candidate for publication, with or without the peer at its
/// end.
pub fn validate_local_publication_candidate(
    limits: &EndpointLimits,
    peer: PeerId,
    value: &str,
) -> (outcome: Result<(String, PublishedTransportClass), EndpointError>)
    ensures
        (match outcome {
            Ok((text, class)) => Ok((text@, class)),
            Err(error) => Err((error.problem, error.value@)),
        }) == candidate_outcome(*limits, peer, value@),
{
    let address = match Multiaddr::parse(value) {
        Some(address) => address,
        None => {
            return Err(
                EndpointError { problem: EndpointProblem::Invalid, value: value.to_owned() },
            );
        },
    };
    let bound = match address.last_peer() {
        Some(last) => last.equals(&peer),
        None => false,
    };
    let full = if bound {
        address
    } else {
        address.with(Protocol::P2p(peer))
    };
    let text = full.text();
    let checked = match validate_published_endpoint_for_peer(limits, peer, text.as_str()) {
        Ok(checked) => checked,
        Err(error) => {
            return Err(error);
        },
    };
    let base = checked.without_last();
    let class = published_transport_class(&base);
    Ok((base.text(), class))
}

/// A part occurs somewhere in a text.
pub open spec fn occurs_in(part: Seq<char>, text: Seq<char>) -> bool {
    exists|i: int|
        0 <= i && i + part.len() <= text.len() && #[trigger] text.subrange(i, i + part.len())
            == part
}

fn characters(text: &str) -> (list: Vec<char>)
    ensures
        list@ == text@,
{
    let length: usize = text.unicode_len();
    let mut list: Vec<char> = Vec::new();
    let mut i: usize = 0;
    while i < length
        invariant
            i <= length == text@.len(),
            list@ == text@.take(i as int),
        decreases length - i,
    {
        list.push(text.get_char(i));
        assert(list@ =~= text@.take(i + 1));
        i += 1;
    }
    assert(text@.take(i as int) =~= text@);
    list
}

/// Whether a part stands at a place of a text.
fn stands_at(text: &Vec<char>, part: &Vec<char>, at: usize) -> (result: bool)
    requires
        at + part@.len() <= text@.len(),
    ensures
        result == (text@.subrange(at as int, at + part@.len()) == part@),
{
    let ghost there = text@.subrange(at as int, at + part@.len());
    let length: usize = text.len();
    let mut i: usize = 0;
    while i < part.len()
        invariant
            i <= part@.len(),
            at + part@.len() <= text@.len() == length,
            there == text@.subrange(at as int, at + part@.len()),
            forall|k: int| 0 <= k < i ==> there[k] == part@[k],
        decreases part@.len() - i,
    {
        if text[at + i] != part[i] {
            assert(there[i as int] != part@[i as int]);
            return false;
        }
        i += 1;
    }
    assert(there =~= part@);
    true
}

/// Whether a part occurs somewhere in a text.
pub fn text_contains(text: &str, part: &str) -> (result: bool)
    ensures
        result == occurs_in(part@, text@),
{
    let all = characters(text);
    let wanted = characters(part);
    let (length, needed): (usize, usize) = (all.len(), wanted.len());
    if needed > length {
        return false;
    }
    let last: usize = length - needed;
    let mut i: usize = 0;
    while i < last
        invariant
            i <= last == length - needed,
            length == all@.len(),
            needed == wanted@.len(),
            all@ == text@,
            wanted@ == part@,
            forall|k: int| 0 <= k < i ==> #[trigger] text@.subrange(k, k + part@.len()) != part@,
        decreases last - i,
    {
        if stands_at(&all, &wanted, i) {
            assert(text@.subrange(i as int, i + part@.len()) == part@);
            return true;
        }
        i += 1;
    }
    let found = stands_at(&all, &wanted, last);
    assert(found == (text@.subrange(last as int, last + part@.len()) == part@));
    found
}

/// A listener that is published even where endpoints are configured: a relay
/// circuit or an onion service.
pub open spec fn live_only(listener: Seq<char>) -> bool {
    occurs_in("/p2p-circuit"@, listener) || (address_of_text(listener) matches Some(address)
        && is_onion(address))
}

fn is_live_only(listener: &String) -> (result: bool)
    ensures
        result == live_only(listener@),
{
    if text_contains(listener.as_str(), "/p2p-circuit") {
        return true;
    }
    match Multiaddr::parse(listener.as_str()) {
        Some(address) => address.is_onion(),
        None => false,
    }
}

/// The texts of a list of texts.
pub open spec fn texts(list: Seq<String>) -> Seq<Seq<char>> {
    list.map_values(|text: String| text@)
}

/// The candidates for publication: the configured endpoints and the live
/// relay and onion listeners, or every listener where nothing is configured;
/// and the mapped address.
pub open spec fn candidates(
    configured: Seq<Seq<Component>>,
    mapped: Option<Seq<Component>>,
    listeners: Seq<Seq<char>>,
) -> Set<Seq<char>> {
    Set::new(
        |text: Seq<char>|
            {
                ||| (configured.len() == 0 || live_only(text)) && listeners.contains(text)
                ||| exists|i: int|
                    0 <= i < configured.len() && address_text(#[trigger] configured[i]) == text
                ||| mapped is Some && address_text(mapped->0) == text
            },
    )
}

/// The texts to publish that the valid candidates of a class lead to.
pub open spec fn valid_texts(
    limits: EndpointLimits,
    peer: PeerId,
    candidates: Set<Seq<char>>,
    class: PublishedTransportClass,
) -> Set<Seq<char>> {
    Set::new(
        |text: Seq<char>|
            exists|candidate: Seq<char>| #[trigger]
                candidates.contains(candidate) && candidate_outcome(limits, peer, candidate) == Ok::<
                    (Seq<char>, PublishedTransportClass),
                    (EndpointProblem, Seq<char>),
                >((text, class)),
    )
}

/// The message for a refused candidate.
pub open spec fn rejection_text(
    candidate: Seq<char>,
    problem: EndpointProblem,
    value: Seq<char>,
) -> Seq<char> {
    "advertised endpoint candidate "@ + candidate + " was rejected: "@ + problem_text(
        problem,
        value,
    )
}

/// The messages for the refused candidates.
pub open spec fn rejections(
    limits: EndpointLimits,
    peer: PeerId,
    candidates: Set<Seq<char>>,
) -> Set<Seq<char>> {
    Set::new(
        |text: Seq<char>|
            exists|candidate: Seq<char>| #[trigger]
                candidates.contains(candidate) && (candidate_outcome(
                    limits,
                    peer,
                    candidate,
                ) matches Err((problem, value)) && rejection_text(candidate, problem, value)
                    == text),
    )
}

/// A set with the first member of a list, where the list has one.
pub open spec fn with_first(set: Set<Seq<char>>, list: Seq<Seq<char>>) -> Set<Seq<char>> {
    if list.len() > 0 {
        set.insert(list[0])
    } else {
        set
    }
}

/// A set filled up with the members of a list, in their order, until it has so
/// many members.
pub open spec fn filled(set: Set<Seq<char>>, list: Seq<Seq<char>>, max: nat) -> Set<Seq<char>>
    decreases list.len(),
{
    if list.len() == 0 {
        set
    } else {
        let so_far = filled(set, list.drop_last(), max);
        if so_far.len() == max {
            so_far
        } else {
            so_far.insert(list.last())
        }
    }
}

/// The endpoints to publish: the first of every class, then the others, class
/// by class, until the limit is reached.
pub open spec fn selection(
    max: nat,
    direct: Set<Seq<char>>,
    relay: Set<Seq<char>>,
    onion: Set<Seq<char>>,
) -> Set<Seq<char>> {
    let first = with_first(
        with_first(
            with_first(Set::empty(), sorted_texts(onion)),
            sorted_texts(relay),
        ),
        sorted_texts(direct),
    );
    filled(
        filled(filled(first, sorted_texts(direct), max), sorted_texts(relay), max),
        sorted_texts(onion),
        max,
    )
}

/// The endpoints that are published of candidates, in order.
pub open spec fn advertised_texts(
    limits: EndpointLimits,
    peer: PeerId,
    candidates: Set<Seq<char>>,
) -> Seq<Seq<char>> {
    sorted_texts(
        selection(
            limits.per_peer as nat,
            valid_texts(limits, peer, candidates, PublishedTransportClass::Direct),
            valid_texts(limits, peer, candidates, PublishedTransportClass::Relay),
            valid_texts(limits, peer, candidates, PublishedTransportClass::Onion),
        ),
    )
}

/// The messages for the refused of candidates, in order.
pub open spec fn rejected_texts(
    limits: EndpointLimits,
    peer: PeerId,
    candidates: Set<Seq<char>>,
) -> Seq<Seq<char>> {
    sorted_texts(rejections(limits, peer, candidates))
}

/// The endpoints to publish and the messages for the refused candidates.
#[derive(Debug)]
pub struct AdvertisedEndpointSelection {
    pub addresses: Vec<String>,
    pub rejected: Vec<String>,
}

fn insert_first(set: &mut TextSet, list: &TextSet)
    requires
        old(set).wf(),
        list.wf(),
    ensures
        final(set).wf(),
        final(set)@ == with_first(old(set)@, list.seq()),
{
    if list.len() > 0 {
        let _ = set.insert(list.get(0).clone());
    }
}

fn fill_up(set: &mut TextSet, list: &TextSet, max: usize)
    requires
        old(set).wf(),
        list.wf(),
    ensures
        final(set).wf(),
        final(set)@ == filled(old(set)@, list.seq(), max as nat),
{
    let mut i: usize = 0;
    let total: usize = list.len();
    assert(list.seq().take(0) =~= Seq::empty());
    while i < total
        invariant
            i <= total == list.seq().len(),
            list.wf(),
            set.wf(),
            set@ == filled(old(set)@, list.seq().take(i as int), max as nat),
        decreases total - i,
    {
        proof {
            let next = list.seq().take(i + 1);
            assert(next.drop_last() =~= list.seq().take(i as int));
        }
        if set.len() != max {
            let _ = set.insert(list.get(i).clone());
        }
        i += 1;
    }
    assert(list.seq().take(i as int) =~= list.seq());
}

fn collect_candidates(
    configured: &Vec<Multiaddr>,
    mapped: Option<&Multiaddr>,
    listen_addresses: &Vec<String>,
) -> (found: TextSet)
    ensures
        found.wf(),
        found@ == candidates(
            views(configured@),
            (match mapped {
                Some(address) => Some(address@),
                None => None,
            }),
            texts(listen_addresses@),
        ),
{
    let ghost views = views(configured@);
    let ghost listeners = texts(listen_addresses@);
    let mut found = TextSet::new();
    let mut i: usize = 0;
    while i < listen_addresses.len()
        invariant
            i <= listen_addresses@.len(),
            views == crate::policy::views(configured@),
            listeners == texts(listen_addresses@),
            found.wf(),
            forall|text: Seq<char>| #[trigger]
                found@.contains(text) <==> (configured@.len() == 0 || live_only(text))
                    && listeners.take(i as int).contains(text),
        decreases listen_addresses@.len() - i,
    {
        let ghost before = found@;
        let ghost here = listeners[i as int];
        if configured.len() == 0 || is_live_only(&listen_addresses[i]) {
            let _ = found.insert(listen_addresses[i].clone());
        }
        proof {
            let taken = listeners.take(i as int);
            let next = listeners.take(i + 1);
            assert(next =~= taken.push(here));
            crate::ordered::lemma_push_set(taken, here);
            assert forall|text: Seq<char>| #[trigger] found@.contains(text) <==> (configured@.len()
                == 0 || live_only(text)) && next.contains(text) by {
                assert(next.contains(text) == next.to_set().contains(text));
                assert(taken.contains(text) == taken.to_set().contains(text));
                assert(before.contains(text) <==> (configured@.len() == 0 || live_only(text))
                    && taken.contains(text));
            }
        }
        i += 1;
    }
    assert(listeners.take(i as int) =~= listeners);
    let ghost from_listeners = found@;
    let mut j: usize = 0;
    while j < configured.len()
        invariant
            j <= configured@.len(),
            views == crate::policy::views(configured@),
            found.wf(),
            forall|text: Seq<char>| #[trigger]
                found@.contains(text) <==> from_listeners.contains(text) || exists|k: int|
                    0 <= k < j && address_text(#[trigger] views[k]) == text,
        decreases configured@.len() - j,
    {
        let ghost before = found@;
        let text = configured[j].text();
        let ghost added = text@;
        let _ = found.insert(text);
        proof {
            assert(views[j as int] == configured@[j as int]@);
            assert forall|text: Seq<char>| #[trigger] found@.contains(text) <==> (
            from_listeners.contains(text) || exists|k: int|
                0 <= k < j + 1 && address_text(#[trigger] views[k]) == text) by {
                assert(before.contains(text) <==> from_listeners.contains(text) || exists|k: int|
                    0 <= k < j && address_text(#[trigger] views[k]) == text);
                if text == added {
                    assert(address_text(views[j as int]) == text);
                }
            }
        }
        j += 1;
    }
    if let Some(address) = mapped {
        let _ = found.insert(address.text());
    }
    proof {
        let expected = candidates(
            views,
            (match mapped {
                Some(address) => Some(address@),
                None => None,
            }),
            listeners,
        );
        assert(found@ =~= expected);
    }
    found
}

/// The endpoints that a node publishes, and why the other candidates are
/// refused.
///
/// Each class of transport that has a valid candidate keeps one before the
/// remaining places are filled. One refused candidate does not hold back the
/// others.
pub fn status_advertised_addresses(
    limits: &EndpointLimits,
    local_peer: PeerId,
    configured: &Vec<Multiaddr>,
    mapped: Option<&Multiaddr>,
    listen_addresses: &Vec<String>,
) -> (selected: AdvertisedEndpointSelection)
    ensures
        ({
            let found = candidates(
                views(configured@),
                (match mapped {
                    Some(address) => Some(address@),
                    None => None,
                }),
                texts(listen_addresses@),
            );
            &&& texts(selected.addresses@) == advertised_texts(*limits, local_peer, found)
            &&& texts(selected.rejected@) == rejected_texts(*limits, local_peer, found)
        }),
{
    let found = collect_candidates(configured, mapped, listen_addresses);
    let mut direct = TextSet::new();
    let mut relay = TextSet::new();
    let mut onion = TextSet::new();
    let mut rejected = TextSet::new();
    let total: usize = found.len();
    let mut i: usize = 0;
    while i < total
        invariant
            i <= total == found.seq().len(),
            found.wf(),
            direct.wf(),
            relay.wf(),
            onion.wf(),
            rejected.wf(),
            direct@ == valid_texts(
                *limits,
                local_peer,
                found.seq().take(i as int).to_set(),
                PublishedTransportClass::Direct,
            ),
            relay@ == valid_texts(
                *limits,
                local_peer,
                found.seq().take(i as int).to_set(),
                PublishedTransportClass::Relay,
            ),
            onion@ == valid_texts(
                *limits,
                local_peer,
                found.seq().take(i as int).to_set(),
                PublishedTransportClass::Onion,
            ),
            rejected@ == rejections(*limits, local_peer, found.seq().take(i as int).to_set()),
        decreases total - i,
    {
        let candidate = found.get(i);
        let ghost taken = found.seq().take(i as int);
        let ghost here = candidate@;
        proof {
            let next = found.seq().take(i + 1);
            assert(next =~= taken.push(here));
            crate::ordered::lemma_push_set(taken, here);
            lemma_add_candidate(*limits, local_peer, taken.to_set(), here);
        }
        match validate_local_publication_candidate(limits, local_peer, candidate.as_str()) {
            Ok((text, class)) => {
                match class {
                    PublishedTransportClass::Direct => {
                        let _ = direct.insert(text);
                    },
                    PublishedTransportClass::Relay => {
                        let _ = relay.insert(text);
                    },
                    PublishedTransportClass::Onion => {
                        let _ = onion.insert(text);
                    },
                }
            },
            Err(error) => {
                let mut text = String::from_str("advertised endpoint candidate ");
                text.append(candidate.as_str());
                text.append(" was rejected: ");
                text.append(error.message().as_str());
                let _ = rejected.insert(text);
            },
        }
        i += 1;
    }
    proof {
        assert(found.seq().take(i as int) =~= found.seq());
        lemma_text_rank_tells_apart();
        direct.lemma_sorted();
        relay.lemma_sorted();
        onion.lemma_sorted();
    }
    let mut selected = TextSet::new();
    insert_first(&mut selected, &onion);
    insert_first(&mut selected, &relay);
    insert_first(&mut selected, &direct);
    fill_up(&mut selected, &direct, limits.per_peer);
    fill_up(&mut selected, &relay, limits.per_peer);
    fill_up(&mut selected, &onion, limits.per_peer);
    proof {
        selected.lemma_sorted();
        rejected.lemma_sorted();
    }
    let addresses = selected.to_vec();
    let refused = rejected.to_vec();
    assert(texts(addresses@) =~= models(addresses@));
    assert(texts(refused@) =~= models(refused@));
    AdvertisedEndpointSelection { addresses, rejected: refused }
}

/// One more candidate adds its text to its class, or its message to the
/// refusals.
proof fn lemma_add_candidate(
    limits: EndpointLimits,
    peer: PeerId,
    before: Set<Seq<char>>,
    candidate: Seq<char>,
)
    ensures
        forall|class: PublishedTransportClass| #[trigger]
            valid_texts(limits, peer, before.insert(candidate), class) == (match candidate_outcome(
                limits,
                peer,
                candidate,
            ) {
                Ok((text, found)) => if found == class {
                    valid_texts(limits, peer, before, class).insert(text)
                } else {
                    valid_texts(limits, peer, before, class)
                },
                Err(_) => valid_texts(limits, peer, before, class),
            }),
        rejections(limits, peer, before.insert(candidate)) == (match candidate_outcome(
            limits,
            peer,
            candidate,
        ) {
            Ok(_) => rejections(limits, peer, before),
            Err((problem, value)) => rejections(limits, peer, before).insert(
                rejection_text(candidate, problem, value),
            ),
        }),
{
    let after = before.insert(candidate);
    assert(after.contains(candidate));
    assert forall|class: PublishedTransportClass| #[trigger]
        valid_texts(limits, peer, after, class) == (match candidate_outcome(
            limits,
            peer,
            candidate,
        ) {
            Ok((text, found)) => if found == class {
                valid_texts(limits, peer, before, class).insert(text)
            } else {
                valid_texts(limits, peer, before, class)
            },
            Err(_) => valid_texts(limits, peer, before, class),
        }) by {
        let expected = match candidate_outcome(limits, peer, candidate) {
            Ok((text, found)) => if found == class {
                valid_texts(limits, peer, before, class).insert(text)
            } else {
                valid_texts(limits, peer, before, class)
            },
            Err(_) => valid_texts(limits, peer, before, class),
        };
        assert forall|text: Seq<char>|
            valid_texts(limits, peer, after, class).contains(text) == expected.contains(text) by {
            if valid_texts(limits, peer, before, class).contains(text) {
                let witness = choose|c: Seq<char>| #[trigger]
                    before.contains(c) && candidate_outcome(limits, peer, c) == Ok::<
                        (Seq<char>, PublishedTransportClass),
                        (EndpointProblem, Seq<char>),
                    >((text, class));
                assert(after.contains(witness));
            }
            if valid_texts(limits, peer, after, class).contains(text) {
                let witness = choose|c: Seq<char>| #[trigger]
                    after.contains(c) && candidate_outcome(limits, peer, c) == Ok::<
                        (Seq<char>, PublishedTransportClass),
                        (EndpointProblem, Seq<char>),
                    >((text, class));
                assert(witness != candidate ==> before.contains(witness));
            }
        }
        assert(valid_texts(limits, peer, after, class) =~= expected);
    }
    let expected = match candidate_outcome(limits, peer, candidate) {
        Ok(_) => rejections(limits, peer, before),
        Err((problem, value)) => rejections(limits, peer, before).insert(
            rejection_text(candidate, problem, value),
        ),
    };
    assert forall|text: Seq<char>|
        rejections(limits, peer, after).contains(text) == expected.contains(text) by {
        if rejections(limits, peer, before).contains(text) {
            let witness = choose|c: Seq<char>| #[trigger]
                before.contains(c) && (candidate_outcome(limits, peer, c) matches Err(
                    (problem, value),
                ) && rejection_text(c, problem, value) == text);
            assert(after.contains(witness));
        }
        if rejections(limits, peer, after).contains(text) {
            let witness = choose|c: Seq<char>| #[trigger]
                after.contains(c) && (candidate_outcome(limits, peer, c) matches Err(
                    (problem, value),
                ) && rejection_text(c, problem, value) == text);
            assert(witness != candidate ==> before.contains(witness));
        }
    }
    assert(rejections(limits, peer, after) =~= expected);
}

/// Why a bootstrap address is refused.
#[derive(Clone, Copy, Debug, PartialEq, Eq, Structural)]
pub enum BootstrapProblem {
    EmptyOrTooLong,
    Invalid,
    NotCanonical,
    NoPeer,
    Endpoint(EndpointProblem),
    Incompatible,
}

/// Why a list of bootstrap addresses is refused.
#[derive(Clone, Copy, Debug, PartialEq, Eq, Structural)]
pub enum BootstrapError {
    /// More addresses than the limit.
    TooMany(usize),
    /// The address at an index, the first that has a problem.
    Address(usize, BootstrapProblem),
}

/// What is wrong with one bootstrap address.
pub open spec fn bootstrap_problem(
    limits: EndpointLimits,
    mode: TorMode,
    value: Seq<char>,
) -> Option<BootstrapProblem> {
    if value.len() == 0 || text_bytes(value).len() > limits.bytes {
        Some(BootstrapProblem::EmptyOrTooLong)
    } else {
        match address_of_text(value) {
            None => Some(BootstrapProblem::Invalid),
            Some(address) => {
                if address_text(address) != value {
                    Some(BootstrapProblem::NotCanonical)
                } else if terminal_peer(address) is None {
                    Some(BootstrapProblem::NoPeer)
                } else if published_problem(limits, terminal_peer(address)->0, value) is Some {
                    Some(
                        BootstrapProblem::Endpoint(
                            published_problem(limits, terminal_peer(address)->0, value)->0,
                        ),
                    )
                } else if !address_allowed(mode, address) {
                    Some(BootstrapProblem::Incompatible)
                } else {
                    None
                }
            },
        }
    }
}

fn check_bootstrap_address(
    limits: &EndpointLimits,
    mode: TorMode,
    value: &str,
) -> (checked: Result<Multiaddr, BootstrapProblem>)
    ensures
        match checked {
            Ok(address) => bootstrap_problem(*limits, mode, value@) is None && address_of_text(
                value@,
            ) == Some(address@),
            Err(problem) => bootstrap_problem(*limits, mode, value@) == Some(problem),
        },
{
    let length: usize = value.as_bytes().len();
    if value.is_empty() || length > limits.bytes {
        return Err(BootstrapProblem::EmptyOrTooLong);
    }
    let address = match Multiaddr::parse(value) {
        Some(address) => address,
        None => {
            return Err(BootstrapProblem::Invalid);
        },
    };
    if address.text() != value.to_owned() {
        return Err(BootstrapProblem::NotCanonical);
    }
    let peer = match terminal_peer_id(&address) {
        Some(peer) => peer,
        None => {
            return Err(BootstrapProblem::NoPeer);
        },
    };
    match validate_published_endpoint_for_peer(limits, peer, value) {
        Ok(_) => {},
        Err(error) => {
            return Err(BootstrapProblem::Endpoint(error.problem));
        },
    }
    if !address_allowed_by_tor_mode(mode, &address) {
        return Err(BootstrapProblem::Incompatible);
    }
    Ok(address)
}

/// The addresses that a list of texts spells.
pub open spec fn addresses_of(values: Seq<Seq<char>>) -> Set<Seq<Component>> {
    Set::new(
        |address: Seq<Component>|
            exists|i: int|
                0 <= i < values.len() && address_of_text(#[trigger] values[i]) == Some(address),
    )
}

/// Checks the configured entry points before any network starts: their
/// number, their form, their peers, and that the mode lets the node use them.
pub fn validate_bootstrap_addresses(
    limits: &EndpointLimits,
    mode: TorMode,
    values: &Vec<String>,
) -> (validated: Result<Vec<Multiaddr>, BootstrapError>)
    ensures
        match validated {
            Ok(addresses) => {
                &&& values@.len() <= MAX_BOOTSTRAP_ADDRESSES
                &&& forall|i: int|
                    0 <= i < values@.len() ==> bootstrap_problem(
                        *limits,
                        mode,
                        #[trigger] texts(values@)[i],
                    ) is None
                &&& views(addresses@).to_set() == addresses_of(texts(values@))
                &&& crate::ordered::distinct(views(addresses@))
                &&& crate::ordered::in_rank_order::<Multiaddr>(views(addresses@))
            },
            Err(BootstrapError::TooMany(count)) => count == values@.len() && count
                > MAX_BOOTSTRAP_ADDRESSES,
            Err(BootstrapError::Address(index, problem)) => {
                &&& values@.len() <= MAX_BOOTSTRAP_ADDRESSES
                &&& index < values@.len()
                &&& bootstrap_problem(*limits, mode, texts(values@)[index as int]) == Some(problem)
                &&& forall|i: int|
                    0 <= i < index ==> bootstrap_problem(
                        *limits,
                        mode,
                        #[trigger] texts(values@)[i],
                    ) is None
            },
        },
{
    if values.len() > MAX_BOOTSTRAP_ADDRESSES {
        return Err(BootstrapError::TooMany(values.len()));
    }
    let mut validated = AddressSet::new();
    let mut i: usize = 0;
    assert(validated@ =~= addresses_of(texts(values@).take(0)));
    while i < values.len()
        invariant
            i <= values@.len() <= MAX_BOOTSTRAP_ADDRESSES,
            validated.wf(),
            validated@ == addresses_of(texts(values@).take(i as int)),
            forall|k: int|
                0 <= k < i ==> bootstrap_problem(*limits, mode, #[trigger] texts(values@)[k]) is None,
        decreases values@.len() - i,
    {
        assert(texts(values@)[i as int] == values@[i as int]@);
        match check_bootstrap_address(limits, mode, values[i].as_str()) {
            Ok(address) => {
                let ghost before = validated@;
                let ghost added = address@;
                let _ = validated.insert(address);
                proof {
                    let taken = texts(values@).take(i as int);
                    let next = texts(values@).take(i + 1);
                    assert forall|a: Seq<Component>| validated@.contains(a) == addresses_of(
                        next,
                    ).contains(a) by {
                        if before.contains(a) {
                            let k = choose|k: int|
                                0 <= k < taken.len() && address_of_text(#[trigger] taken[k])
                                    == Some(a);
                            assert(next[k] == taken[k]);
                        }
                        if a == added {
                            assert(address_of_text(next[i as int]) == Some(a));
                        }
                        if addresses_of(next).contains(a) {
                            let k = choose|k: int|
                                0 <= k < next.len() && address_of_text(#[trigger] next[k]) == Some(
                                    a,
                                );
                            if k < i {
                                assert(taken[k] == next[k]);
                            }
                        }
                    }
                    assert(validated@ =~= addresses_of(next));
                }
            },
            Err(problem) => {
                return Err(BootstrapError::Address(i, problem));
            },
        }
        i += 1;
    }
    assert(texts(values@).take(i as int) =~= texts(values@));
    let addresses = validated.to_vec();
    assert(views(addresses@) =~= models(addresses@));
    Ok(addresses)
}

/// What is wrong with the endpoint that an address and a peer make up.
pub open spec fn canonical_problem(
    limits: EndpointLimits,
    peer: PeerId,
    address: Seq<Component>,
) -> Option<EndpointProblem> {
    published_problem(limits, peer, address_text(address.push(Component::P2p(peer))))
}

/// The text of the endpoint that an address and a peer make up.
pub fn canonical_published_endpoint(
    limits: &EndpointLimits,
    peer: PeerId,
    address: &Multiaddr,
) -> (endpoint: Result<String, EndpointProblem>)
    ensures
        match endpoint {
            Ok(text) => text@ == address_text(address@.push(Component::P2p(peer)))
                && canonical_problem(*limits, peer, address@) is None,
            Err(problem) => canonical_problem(*limits, peer, address@) == Some(problem),
        },
{
    let text = address.duplicate().with(Protocol::P2p(peer)).text();
    match validate_published_endpoint_for_peer(limits, peer, text.as_str()) {
        Ok(_) => Ok(text),
        Err(error) => Err(error.problem),
    }
}

/// Why a configured listener is refused.
#[derive(Clone, Copy, Debug, PartialEq, Eq, Structural)]
pub enum ListenerProblem {
    NotUnicastIp,
    NotUdp,
    NotQuic,
}

/// An IP address on which a listener may be bound: unicast, or the wildcard.
pub open spec fn bindable(part: Component) -> bool {
    match part {
        Component::Ip4(octets) => !(224 <= octets[0] <= 239) && octets != seq![
            255u8,
            255u8,
            255u8,
            255u8,
        ],
        Component::Ip6(octets) => octets[0] != 0xff && !(octets[0] == 0xfe && 0x80 <= octets[1]
            <= 0xbf),
        _ => false,
    }
}

/// The wildcard IP address.
pub open spec fn unspecified(part: Component) -> bool {
    match part {
        Component::Ip4(octets) => octets == seq![0u8, 0u8, 0u8, 0u8],
        Component::Ip6(octets) => all_zero(octets),
        _ => false,
    }
}

/// What is wrong with a configured listener.
pub open spec fn listener_problem(address: Seq<Component>) -> Option<ListenerProblem> {
    if address.len() < 1 || !bindable(address[0]) {
        Some(ListenerProblem::NotUnicastIp)
    } else if address.len() < 2 || !(address[1] is Udp) {
        Some(ListenerProblem::NotUdp)
    } else if address.len() != 3 || !(address[2] is QuicV1) {
        Some(ListenerProblem::NotQuic)
    } else {
        None
    }
}

/// The longest address that a listener can lead to; none for a wildcard.
pub open spec fn listener_candidate(address: Seq<Component>) -> Option<Seq<Component>> {
    if unspecified(address[0]) {
        None
    } else {
        let port = address[1]->Udp_0;
        Some(
            seq![
                address[0],
                Component::Udp(
                    if port == 0 {
                        u16::MAX
                    } else {
                        port
                    },
                ),
                Component::QuicV1,
            ],
        )
    }
}

/// Checks one listener and gives the longest address that it can lead to. A
/// wildcard can be bound but not dialled; port zero is replaced by the longest
/// port.
pub fn listener_publication_candidate(address: &Multiaddr) -> (candidate: Result<
    Option<Multiaddr>,
    ListenerProblem,
>)
    ensures
        match candidate {
            Ok(found) => {
                &&& listener_problem(address@) is None
                &&& (match found {
                    Some(found) => Some(found@),
                    None => None,
                }) == listener_candidate(address@)
            },
            Err(problem) => listener_problem(address@) == Some(problem),
        },
{
    let n: usize = address.protocols.len();
    if n < 1 {
        return Err(ListenerProblem::NotUnicastIp);
    }
    assert(address@[0] == address.protocols@[0]@);
    let (bindable, wildcard): (bool, bool) = match &address.protocols[0] {
        Protocol::Ip4(octets) => (
            !(224 <= octets[0] && octets[0] <= 239) && !ipv4_is(octets, 255),
            ipv4_is(octets, 0),
        ),
        Protocol::Ip6(octets) => (
            octets[0] != 0xff && !(octets[0] == 0xfe && 0x80 <= octets[1] && octets[1] <= 0xbf),
            ipv6_is_unspecified(octets),
        ),
        _ => (false, false),
    };
    if !bindable {
        return Err(ListenerProblem::NotUnicastIp);
    }
    if n < 2 {
        return Err(ListenerProblem::NotUdp);
    }
    assert(address@[1] == address.protocols@[1]@);
    let port: u16 = match &address.protocols[1] {
        Protocol::Udp(port) => *port,
        _ => {
            return Err(ListenerProblem::NotUdp);
        },
    };
    if n != 3 {
        return Err(ListenerProblem::NotQuic);
    }
    assert(address@[2] == address.protocols@[2]@);
    match &address.protocols[2] {
        Protocol::QuicV1 => {},
        _ => {
            return Err(ListenerProblem::NotQuic);
        },
    }
    if wildcard {
        return Ok(None);
    }
    let shown: u16 = if port == 0 {
        u16::MAX
    } else {
        port
    };
    let found = Multiaddr::empty().with(address.protocols[0].duplicate()).with(
        Protocol::Udp(shown),
    ).with(Protocol::QuicV1);
    assert(found@ =~= listener_candidate(address@)->0);
    Ok(Some(found))
}

/// Why a local endpoint configuration is refused.
#[derive(Clone, Copy, Debug, PartialEq, Eq, Structural)]
pub enum LocalEndpointProblem {
    NoIdentity,
    OtherIdentity,
    NotDirect,
    Endpoint(EndpointProblem),
    RequiresTor,
    TooManyExternal(usize),
    Listener(ListenerProblem),
    TooManyRelays(usize),
    RelayWithoutPeer,
    RelayPeerNotLast,
    NothingPublishable,
}

/// An external address without the node's own peer at its end.
pub open spec fn stripped(address: Seq<Component>) -> Seq<Component> {
    if last_peer(address) is Some {
        address.drop_last()
    } else {
        address
    }
}

/// What is wrong with one configured external address.
pub open spec fn external_problem(
    limits: EndpointLimits,
    peer: PeerId,
    mode: TorMode,
    address: Seq<Component>,
) -> Option<LocalEndpointProblem> {
    if last_peer(address) is Some && last_peer(address) != Some(peer) {
        Some(LocalEndpointProblem::OtherIdentity)
    } else if !direct_quic(stripped(address)) {
        Some(LocalEndpointProblem::NotDirect)
    } else if canonical_problem(limits, peer, stripped(address)) is Some {
        Some(
            LocalEndpointProblem::Endpoint(canonical_problem(limits, peer, stripped(address))->0),
        )
    } else if mode == TorMode::RequireTor {
        Some(LocalEndpointProblem::RequiresTor)
    } else {
        None
    }
}

/// What is wrong with one relay reservation address.
pub open spec fn relay_problem(
    limits: EndpointLimits,
    peer: PeerId,
    address: Seq<Component>,
) -> Option<LocalEndpointProblem> {
    if terminal_peer(address) is None {
        Some(LocalEndpointProblem::RelayWithoutPeer)
    } else if last_peer(address) != terminal_peer(address) {
        Some(LocalEndpointProblem::RelayPeerNotLast)
    } else if canonical_problem(limits, peer, address.push(Component::P2pCircuit)) is Some {
        Some(
            LocalEndpointProblem::Endpoint(
                canonical_problem(limits, peer, address.push(Component::P2pCircuit))->0,
            ),
        )
    } else {
        None
    }
}

/// The first problem among some items.
pub open spec fn first_problem(
    items: Seq<Seq<Component>>,
    problem: spec_fn(Seq<Component>) -> Option<LocalEndpointProblem>,
) -> Option<LocalEndpointProblem>
    decreases items.len(),
{
    if items.len() == 0 {
        None
    } else {
        match first_problem(items.drop_last(), problem) {
            Some(found) => Some(found),
            None => problem(items.last()),
        }
    }
}

/// The external addresses to publish: those configured, without the node's
/// own peer.
pub open spec fn canonical_external(external: Seq<Seq<Component>>) -> Set<Seq<Component>> {
    Set::new(
        |address: Seq<Component>|
            exists|i: int| 0 <= i < external.len() && stripped(#[trigger] external[i]) == address,
    )
}

/// What the configuration of local endpoints says.
pub struct LocalEndpoints {
    pub listen_addresses: Vec<Multiaddr>,
    pub external_addresses: Vec<Multiaddr>,
    pub relay_reservation_addresses: Vec<Multiaddr>,
    pub enable_port_mapping: bool,
}

/// Some listener, external address, relay or service leads to an endpoint that
/// can be published.
pub open spec fn has_publishable(mode: TorMode, local: LocalEndpoints) -> bool {
    ||| local.external_addresses@.len() > 0
    ||| mode != TorMode::RequireTor && exists|i: int|
        0 <= i < local.listen_addresses@.len() && listener_candidate(
            #[trigger] views(local.listen_addresses@)[i],
        ) is Some
    ||| mode != TorMode::RequireTor && local.relay_reservation_addresses@.len() > 0
    ||| mode != TorMode::DisableTor
    ||| local.enable_port_mapping
}

/// The first thing for which a local endpoint configuration is refused.
pub open spec fn local_problem(
    limits: EndpointLimits,
    node: NodeId,
    mode: TorMode,
    local: LocalEndpoints,
) -> Option<LocalEndpointProblem> {
    if peer_of_key(node.key@) is None {
        Some(LocalEndpointProblem::NoIdentity)
    } else {
        let peer = peer_of_key(node.key@)->0;
        let external = views(local.external_addresses@);
        let listeners = views(local.listen_addresses@);
        let relays = views(local.relay_reservation_addresses@);
        let in_external = first_problem(
            external,
            |address: Seq<Component>| external_problem(limits, peer, mode, address),
        );
        let in_listeners = first_problem(
            listeners,
            |address: Seq<Component>| listener_as_local_problem(address),
        );
        let in_relays = first_problem(
            relays,
            |address: Seq<Component>| relay_problem(limits, peer, address),
        );
        if in_external is Some {
            in_external
        } else if canonical_external(external).len() > limits.per_peer {
            Some(
                LocalEndpointProblem::TooManyExternal(canonical_external(external).len() as usize),
            )
        } else if in_listeners is Some {
            in_listeners
        } else if relays.len() > limits.per_peer {
            Some(LocalEndpointProblem::TooManyRelays(relays.len() as usize))
        } else if in_relays is Some {
            in_relays
        } else if mode != TorMode::DisableTor && canonical_problem(
            limits,
            peer,
            onion_listener(node),
        ) is Some {
            Some(
                LocalEndpointProblem::Endpoint(
                    canonical_problem(limits, peer, onion_listener(node))->0,
                ),
            )
        } else if !has_publishable(mode, local) {
            Some(LocalEndpointProblem::NothingPublishable)
        } else {
            None
        }
    }
}

/// What is wrong with one listener, among the problems of a configuration.
pub open spec fn listener_as_local_problem(address: Seq<Component>) -> Option<
    LocalEndpointProblem,
> {
    match listener_problem(address) {
        Some(problem) => Some(LocalEndpointProblem::Listener(problem)),
        None => None,
    }
}

fn check_external(
    limits: &EndpointLimits,
    peer: PeerId,
    mode: TorMode,
    configured: &Multiaddr,
) -> (checked: Result<Multiaddr, LocalEndpointProblem>)
    ensures
        match checked {
            Ok(address) => external_problem(*limits, peer, mode, configured@) is None && address@
                == stripped(configured@),
            Err(problem) => external_problem(*limits, peer, mode, configured@) == Some(problem),
        },
{
    let address = match configured.last_peer() {
        Some(last) => {
            if !last.equals(&peer) {
                return Err(LocalEndpointProblem::OtherIdentity);
            }
            configured.duplicate().without_last()
        },
        None => configured.duplicate(),
    };
    if !supported_direct_quic_transport(&address) {
        return Err(LocalEndpointProblem::NotDirect);
    }
    match canonical_published_endpoint(limits, peer, &address) {
        Ok(_) => {},
        Err(problem) => {
            return Err(LocalEndpointProblem::Endpoint(problem));
        },
    }
    if mode.requires_tor() {
        return Err(LocalEndpointProblem::RequiresTor);
    }
    Ok(address)
}

fn check_relay(
    limits: &EndpointLimits,
    peer: PeerId,
    relay: &Multiaddr,
) -> (problem: Option<LocalEndpointProblem>)
    ensures
        problem == relay_problem(*limits, peer, relay@),
{
    let relay_peer = match terminal_peer_id(relay) {
        Some(relay_peer) => relay_peer,
        None => {
            return Some(LocalEndpointProblem::RelayWithoutPeer);
        },
    };
    let is_last = match relay.last_peer() {
        Some(last) => last.equals(&relay_peer),
        None => false,
    };
    if !is_last {
        return Some(LocalEndpointProblem::RelayPeerNotLast);
    }
    let candidate = relay.duplicate().with(Protocol::P2pCircuit);
    match canonical_published_endpoint(limits, peer, &candidate) {
        Ok(_) => None,
        Err(problem) => Some(LocalEndpointProblem::Endpoint(problem)),
    }
}

/// Checks every endpoint that the operator asserts against the node's identity
/// and strips the node's own peer from its end. Onion and relay endpoints come
/// only from live listeners.
pub fn validate_local_advertised_endpoints(
    limits: &EndpointLimits,
    node: &NodeId,
    mode: TorMode,
    local: &LocalEndpoints,
) -> (validated: Result<Vec<Multiaddr>, LocalEndpointProblem>)
    ensures
        match validated {
            Ok(addresses) => {
                &&& local_problem(*limits, *node, mode, *local) is None
                &&& views(addresses@).to_set() == canonical_external(
                    views(local.external_addresses@),
                )
                &&& crate::ordered::distinct(views(addresses@))
                &&& crate::ordered::in_rank_order::<Multiaddr>(views(addresses@))
            },
            Err(problem) => local_problem(*limits, *node, mode, *local) == Some(problem),
        },
{
    let peer = match node.peer_id() {
        Some(peer) => peer,
        None => {
            return Err(LocalEndpointProblem::NoIdentity);
        },
    };
    let ghost external = views(local.external_addresses@);
    let ghost of_external = |address: Seq<Component>|
        external_problem(*limits, peer, mode, address);
    let mut canonical = AddressSet::new();
    let mut i: usize = 0;
    assert(external.take(0) =~= Seq::empty());
    assert(canonical@ =~= canonical_external(external.take(0)));
    while i < local.external_addresses.len()
        invariant
            i <= local.external_addresses@.len(),
            external == views(local.external_addresses@),
            peer_of_key(node.key@) == Some(peer),
            of_external == (|address: Seq<Component>|
                external_problem(*limits, peer, mode, address)),
            first_problem(external.take(i as int), of_external) is None,
            canonical.wf(),
            canonical@ == canonical_external(external.take(i as int)),
        decreases local.external_addresses@.len() - i,
    {
        let ghost taken = external.take(i as int);
        let ghost next = external.take(i + 1);
        proof {
            assert(next.drop_last() =~= taken);
            assert(next.last() == local.external_addresses@[i as int]@);
        }
        match check_external(limits, peer, mode, &local.external_addresses[i]) {
            Ok(address) => {
                let ghost before = canonical@;
                let ghost added = address@;
                let _ = canonical.insert(address);
                proof {
                    lemma_add_external(taken, next.last());
                    assert(taken.push(next.last()) =~= next);
                }
            },
            Err(problem) => {
                proof {
                    lemma_first_problem_stays(external, of_external, i + 1);
                }
                return Err(problem);
            },
        }
        i += 1;
    }
    assert(external.take(i as int) =~= external);
    let count: usize = canonical.len();
    if count > limits.per_peer {
        return Err(LocalEndpointProblem::TooManyExternal(count));
    }
    let mut publishable: bool = !canonical.is_empty();
    proof {
        if external.len() > 0 {
            assert(stripped(external[0]) == stripped(external[0]));
            assert(canonical@.contains(stripped(external[0])));
        } else {
            assert(canonical@ =~= Set::empty());
        }
        assert(publishable == (external.len() > 0));
    }
    let ghost listeners = views(local.listen_addresses@);
    let ghost of_listener = |address: Seq<Component>| listener_as_local_problem(address);
    let mut j: usize = 0;
    assert(listeners.take(0) =~= Seq::empty());
    while j < local.listen_addresses.len()
        invariant
            j <= local.listen_addresses@.len(),
            listeners == views(local.listen_addresses@),
            of_listener == (|address: Seq<Component>| listener_as_local_problem(address)),
            first_problem(listeners.take(j as int), of_listener) is None,
            external == views(local.external_addresses@),
            canonical.wf(),
            canonical@ == canonical_external(external),
            (canonical@ == Set::<Seq<Component>>::empty()) == (external.len() == 0),
            canonical@.len() <= limits.per_peer,
            peer_of_key(node.key@) == Some(peer),
            first_problem(
                external,
                |address: Seq<Component>| external_problem(*limits, peer, mode, address),
            ) is None,
            publishable == (external.len() > 0 || mode != TorMode::RequireTor && exists|k: int|
                0 <= k < j && listener_candidate(#[trigger] listeners[k]) is Some),
        decreases local.listen_addresses@.len() - j,
    {
        proof {
            let next = listeners.take(j + 1);
            assert(next.drop_last() =~= listeners.take(j as int));
            assert(next.last() == local.listen_addresses@[j as int]@);
            assert(listeners[j as int] == local.listen_addresses@[j as int]@);
        }
        match listener_publication_candidate(&local.listen_addresses[j]) {
            Ok(candidate) => {
                if !mode.requires_tor() && canonical.is_empty() && candidate.is_some() {
                    assert(listener_candidate(listeners[j as int]) is Some);
                    publishable = true;
                }
            },
            Err(problem) => {
                proof {
                    lemma_first_problem_stays(listeners, of_listener, j + 1);
                }
                return Err(LocalEndpointProblem::Listener(problem));
            },
        }
        j += 1;
    }
    assert(listeners.take(j as int) =~= listeners);
    let relay_count: usize = local.relay_reservation_addresses.len();
    if relay_count > limits.per_peer {
        return Err(LocalEndpointProblem::TooManyRelays(relay_count));
    }
    let ghost relays = views(local.relay_reservation_addresses@);
    let ghost of_relay = |address: Seq<Component>| relay_problem(*limits, peer, address);
    let mut k: usize = 0;
    assert(relays.take(0) =~= Seq::empty());
    while k < local.relay_reservation_addresses.len()
        invariant
            k <= local.relay_reservation_addresses@.len() <= limits.per_peer,
            relays == views(local.relay_reservation_addresses@),
            of_relay == (|address: Seq<Component>| relay_problem(*limits, peer, address)),
            first_problem(relays.take(k as int), of_relay) is None,
            peer_of_key(node.key@) == Some(peer),
            external == views(local.external_addresses@),
            canonical@ == canonical_external(external),
            canonical@.len() <= limits.per_peer,
            first_problem(
                external,
                |address: Seq<Component>| external_problem(*limits, peer, mode, address),
            ) is None,
            listeners == views(local.listen_addresses@),
            first_problem(
                listeners,
                |address: Seq<Component>| listener_as_local_problem(address),
            ) is None,
        decreases local.relay_reservation_addresses@.len() - k,
    {
        proof {
            let next = relays.take(k + 1);
            assert(next.drop_last() =~= relays.take(k as int));
            assert(next.last() == local.relay_reservation_addresses@[k as int]@);
        }
        match check_relay(limits, peer, &local.relay_reservation_addresses[k]) {
            None => {},
            Some(problem) => {
                proof {
                    lemma_first_problem_stays(relays, of_relay, k + 1);
                }
                return Err(problem);
            },
        }
        k += 1;
    }
    assert(relays.take(k as int) =~= relays);
    if relay_count > 0 && !mode.requires_tor() {
        publishable = true;
    }
    if mode.enabled() {
        let onion = onion_listener_address(node);
        match canonical_published_endpoint(limits, peer, &onion) {
            Ok(_) => {},
            Err(problem) => {
                return Err(LocalEndpointProblem::Endpoint(problem));
            },
        }
        publishable = true;
    }
    if local.enable_port_mapping {
        publishable = true;
    }
    if !publishable {
        return Err(LocalEndpointProblem::NothingPublishable);
    }
    let addresses = canonical.to_vec();
    assert(views(addresses@) =~= models(addresses@));
    Ok(addresses)
}

/// A problem found among the first items is the first one among all.
proof fn lemma_first_problem_stays(
    items: Seq<Seq<Component>>,
    problem: spec_fn(Seq<Component>) -> Option<LocalEndpointProblem>,
    n: int,
)
    requires
        0 <= n <= items.len(),
        first_problem(items.take(n), problem) is Some,
    ensures
        first_problem(items, problem) == first_problem(items.take(n), problem),
    decreases items.len() - n,
{
    if n < items.len() {
        assert(items.take(n + 1).drop_last() =~= items.take(n));
        lemma_first_problem_stays(items, problem, n + 1);
    } else {
        assert(items.take(n) =~= items);
    }
}

proof fn lemma_add_external(before: Seq<Seq<Component>>, address: Seq<Component>)
    ensures
        canonical_external(before.push(address)) == canonical_external(before).insert(
            stripped(address),
        ),
{
    let after = before.push(address);
    assert forall|a: Seq<Component>| canonical_external(after).contains(a) == canonical_external(
        before,
    ).insert(stripped(address)).contains(a) by {
        if canonical_external(before).contains(a) {
            let i = choose|i: int| 0 <= i < before.len() && stripped(#[trigger] before[i]) == a;
            assert(after[i] == before[i]);
        }
        if a == stripped(address) {
            assert(after[before.len() as int] == address);
        }
        if canonical_external(after).contains(a) {
            let i = choose|i: int| 0 <= i < after.len() && stripped(#[trigger] after[i]) == a;
            if i < before.len() {
                assert(before[i] == after[i]);
            }
        }
    }
    assert(canonical_external(after) =~= canonical_external(before).insert(stripped(address)));
}

/// An endpoint that is accepted for one peer is refused for every other.
pub proof fn published_endpoint_binds_one_peer(
    limits: EndpointLimits,
    a: PeerId,
    b: PeerId,
    value: Seq<char>,
)
    requires
        published_problem(limits, a, value) is None,
        a != b,
    ensures
        published_problem(limits, b, value) == Some(EndpointProblem::Unbound),
{
}

/// An accepted endpoint is bounded, ends in its peer, spells itself, and is an
/// onion service only with the key of that peer.
pub proof fn published_endpoint_is_canonical(
    limits: EndpointLimits,
    peer: PeerId,
    value: Seq<char>,
)
    requires
        published_problem(limits, peer, value) is None,
    ensures
        0 < value.len(),
        text_bytes(value).len() <= limits.bytes,
        address_of_text(value) matches Some(address) && {
            &&& last_peer(address) == Some(peer)
            &&& address_text(address) == value
            &&& supported_transport(address.drop_last())
            &&& onion_matches_peer(address, peer)
        },
{
}

/// No text of a set comes before this one, which is in it.
pub open spec fn least_text(set: Set<Seq<char>>, text: Seq<char>) -> bool {
    set.contains(text) && forall|other: Seq<char>| #[trigger]
        set.contains(other) ==> lex_le(text_bytes(text), text_bytes(other))
}

/// A selection holds only valid endpoints, and of every class that has one keeps
/// the least. Within a limit of at least one per class it stays within it.
pub proof fn selection_is_bounded_and_keeps_every_class(
    max: nat,
    direct: Set<Seq<char>>,
    relay: Set<Seq<char>>,
    onion: Set<Seq<char>>,
)
    requires
        direct.finite(),
        relay.finite(),
        onion.finite(),
    ensures
        ({
            let chosen = selection(max, direct, relay, onion);
            &&& chosen.finite()
            &&& max >= 3 ==> chosen.len() <= max
            &&& chosen.subset_of(direct.union(relay).union(onion))
            &&& forall|text: Seq<char>|
                #![trigger chosen.contains(text)]
                least_text(direct, text) || least_text(relay, text) || least_text(onion, text)
                    ==> chosen.contains(text)
            &&& direct.len() > 0 ==> least_text(direct, sorted_texts(direct)[0])
            &&& relay.len() > 0 ==> least_text(relay, sorted_texts(relay)[0])
            &&& onion.len() > 0 ==> least_text(onion, sorted_texts(onion)[0])
        }),
{
    crate::ordered::lemma_sorted_exists::<String>(direct);
    crate::ordered::lemma_sorted_exists::<String>(relay);
    crate::ordered::lemma_sorted_exists::<String>(onion);
    let direct_list = sorted_texts(direct);
    let relay_list = sorted_texts(relay);
    let onion_list = sorted_texts(onion);
    crate::ordered::lemma_distinct_len(direct_list);
    crate::ordered::lemma_distinct_len(relay_list);
    crate::ordered::lemma_distinct_len(onion_list);
    let empty = Set::<Seq<char>>::empty();
    let a = with_first(empty, onion_list);
    let b = with_first(a, relay_list);
    let c = with_first(b, direct_list);
    assert(empty.len() == 0);
    let all = direct.union(relay).union(onion);
    if onion_list.len() > 0 {
        assert(onion.contains(onion_list[0]));
    }
    if relay_list.len() > 0 {
        assert(relay.contains(relay_list[0]));
    }
    if direct_list.len() > 0 {
        assert(direct.contains(direct_list[0]));
    }
    assert(a.len() <= 1 && b.len() <= 2 && c.len() <= 3);
    assert(c.subset_of(all));
    lemma_filled(c, direct_list, max);
    let d = filled(c, direct_list, max);
    lemma_filled(d, relay_list, max);
    let e = filled(d, relay_list, max);
    lemma_filled(e, onion_list, max);
    let f = filled(e, onion_list, max);
    assert(f == selection(max, direct, relay, onion));
    assert(f.subset_of(all));
    lemma_first_is_least(direct);
    lemma_first_is_least(relay);
    lemma_first_is_least(onion);
    assert forall|text: Seq<char>|
        #![trigger f.contains(text)]
        least_text(direct, text) || least_text(relay, text) || least_text(onion, text) implies f.contains(
        text,
    ) by {
        if least_text(direct, text) {
            assert(text == direct_list[0]);
        } else if least_text(relay, text) {
            assert(text == relay_list[0]);
        } else {
            assert(text == onion_list[0]);
        }
    }
}

/// The first of a sorted list of texts is the least, and there is one least.
proof fn lemma_first_is_least(set: Set<Seq<char>>)
    requires
        set.finite(),
    ensures
        set.len() > 0 ==> least_text(set, sorted_texts(set)[0]),
        forall|text: Seq<char>| #[trigger]
            least_text(set, text) ==> set.len() > 0 && text == sorted_texts(set)[0],
{
    crate::ordered::lemma_sorted_exists::<String>(set);
    let list = sorted_texts(set);
    crate::ordered::lemma_distinct_len(list);
    lemma_text_rank_tells_apart();
    if set.len() > 0 {
        assert(list.to_set().contains(list[0]));
        assert forall|other: Seq<char>| #[trigger] set.contains(other) implies lex_le(
            text_bytes(list[0]),
            text_bytes(other),
        ) by {
            assert(list.to_set().contains(other));
            let k = choose|k: int| 0 <= k < list.len() && list[k] == other;
            if k == 0 {
                lemma_lex_total(text_bytes(other), text_bytes(other));
            } else {
                assert(lex_le(
                    String::rank_of(list[0]),
                    String::rank_of(list[k]),
                ));
            }
        }
    }
    assert forall|text: Seq<char>| #[trigger] least_text(set, text) implies set.len() > 0 && text
        == list[0] by {
        assert(list.to_set().contains(text));
        assert(set.contains(list[0]));
        lemma_lex_antisymmetric(text_bytes(text), text_bytes(list[0]));
        assert(String::rank_of(text) == String::rank_of(list[0]));
    }
}

/// Refused listeners hold nothing back: without one that is refused, what may
/// be published is the same, and so is what is selected of it.
pub proof fn a_refused_listener_changes_nothing(
    limits: EndpointLimits,
    peer: PeerId,
    configured: Seq<Seq<Component>>,
    mapped: Option<Seq<Component>>,
    listeners: Seq<Seq<char>>,
    at: int,
)
    requires
        0 <= at < listeners.len(),
        candidate_outcome(limits, peer, listeners[at]) is Err,
    ensures
        ({
            let with = candidates(configured, mapped, listeners);
            let without = candidates(configured, mapped, listeners.remove(at));
            &&& forall|class: PublishedTransportClass| #[trigger]
                valid_texts(limits, peer, with, class) == valid_texts(limits, peer, without, class)
            &&& advertised_texts(limits, peer, with) == advertised_texts(limits, peer, without)
        }),
{
    let with = candidates(configured, mapped, listeners);
    let rest = listeners.remove(at);
    let without = candidates(configured, mapped, rest);
    assert forall|text: Seq<char>| text != listeners[at] implies #[trigger] with.contains(text)
        == without.contains(text) by {
        if listeners.contains(text) {
            let k = choose|k: int| 0 <= k < listeners.len() && listeners[k] == text;
            assert(rest[if k < at {
                k
            } else {
                k - 1
            }] == text);
        }
        if rest.contains(text) {
            let k = choose|k: int| 0 <= k < rest.len() && rest[k] == text;
            assert(listeners[if k < at {
                k
            } else {
                k + 1
            }] == text);
        }
    }
    assert forall|class: PublishedTransportClass| #[trigger]
        valid_texts(limits, peer, with, class) == valid_texts(limits, peer, without, class) by {
        assert forall|text: Seq<char>|
            valid_texts(limits, peer, with, class).contains(text) == valid_texts(
                limits,
                peer,
                without,
                class,
            ).contains(text) by {
            if valid_texts(limits, peer, with, class).contains(text) {
                let witness = choose|c: Seq<char>| #[trigger]
                    with.contains(c) && candidate_outcome(limits, peer, c) == Ok::<
                        (Seq<char>, PublishedTransportClass),
                        (EndpointProblem, Seq<char>),
                    >((text, class));
                assert(without.contains(witness));
            }
            if valid_texts(limits, peer, without, class).contains(text) {
                let witness = choose|c: Seq<char>| #[trigger]
                    without.contains(c) && candidate_outcome(limits, peer, c) == Ok::<
                        (Seq<char>, PublishedTransportClass),
                        (EndpointProblem, Seq<char>),
                    >((text, class));
                assert(with.contains(witness));
            }
        }
        assert(valid_texts(limits, peer, with, class) =~= valid_texts(
            limits,
            peer,
            without,
            class,
        ));
    }
}

proof fn lemma_filled(set: Set<Seq<char>>, list: Seq<Seq<char>>, max: nat)
    requires
        set.finite(),
    ensures
        filled(set, list, max).finite(),
        set.len() <= max ==> filled(set, list, max).len() <= max,
        set.subset_of(filled(set, list, max)),
        filled(set, list, max).subset_of(set.union(list.to_set())),
    decreases list.len(),
{
    if list.len() > 0 {
        lemma_filled(set, list.drop_last(), max);
        let so_far = filled(set, list.drop_last(), max);
        let head = list.drop_last();
        assert(list =~= head.push(list.last()));
        crate::ordered::lemma_push_set(head, list.last());
    }
}

/// The candidates that are refused.
pub open spec fn refused(
    limits: EndpointLimits,
    peer: PeerId,
    candidates: Set<Seq<char>>,
) -> Set<Seq<char>> {
    Set::new(
        |candidate: Seq<char>|
            candidates.contains(candidate) && candidate_outcome(limits, peer, candidate) is Err,
    )
}

/// The message for a candidate, where it is refused.
pub open spec fn refusal_of(limits: EndpointLimits, peer: PeerId, candidate: Seq<char>) -> Seq<
    char,
> {
    let (problem, value) = candidate_outcome(limits, peer, candidate)->Err_0;
    rejection_text(candidate, problem, value)
}

/// One text begins with another, followed by the words of a refusal.
pub open spec fn speaks_of(text: Seq<char>, other: Seq<char>) -> bool {
    (other + " was rejected:"@).is_prefix_of(text)
}

proof fn lemma_candidates_finite(
    configured: Seq<Seq<Component>>,
    mapped: Option<Seq<Component>>,
    listeners: Seq<Seq<char>>,
)
    ensures
        candidates(configured, mapped, listeners).finite(),
{
    let written = configured.map_values(|address: Seq<Component>| address_text(address));
    let all = listeners.to_set().union(written.to_set());
    vstd::seq_lib::seq_to_set_is_finite(listeners);
    vstd::seq_lib::seq_to_set_is_finite(written);
    let wide = if mapped is Some {
        all.insert(address_text(mapped->0))
    } else {
        all
    };
    assert forall|text: Seq<char>| candidates(configured, mapped, listeners).contains(
        text,
    ) implies wide.contains(text) by {
        if exists|i: int|
            0 <= i < configured.len() && address_text(#[trigger] configured[i]) == text {
            let i = choose|i: int|
                0 <= i < configured.len() && address_text(#[trigger] configured[i]) == text;
            assert(written[i] == text);
        }
    }
    vstd::set_lib::lemma_set_subset_finite(wide, candidates(configured, mapped, listeners));
}

proof fn lemma_valid_texts_finite(
    limits: EndpointLimits,
    peer: PeerId,
    found: Set<Seq<char>>,
    class: PublishedTransportClass,
)
    requires
        found.finite(),
    ensures
        valid_texts(limits, peer, found, class).finite(),
{
    let f = |candidate: Seq<char>| candidate_outcome(limits, peer, candidate)->Ok_0.0;
    found.lemma_map_finite(f);
    let valid = valid_texts(limits, peer, found, class);
    assert forall|text: Seq<char>| valid.contains(text) implies found.map(f).contains(text) by {
        let witness = choose|c: Seq<char>| #[trigger]
            found.contains(c) && candidate_outcome(limits, peer, c) == Ok::<
                (Seq<char>, PublishedTransportClass),
                (EndpointProblem, Seq<char>),
            >((text, class));
        assert(f(witness) == text);
    }
    vstd::set_lib::lemma_set_subset_finite(found.map(f), valid);
}

/// Where two texts around the same words are the same, the one begins with the
/// other and those words, as words that hold no second beginning of themselves
/// cannot overlap.
proof fn lemma_words_tell_apart(
    a: Seq<char>,
    b: Seq<char>,
    words: Seq<char>,
    x: Seq<char>,
    y: Seq<char>,
)
    requires
        a.len() <= b.len(),
        a != b,
        words.len() == 15,
        words[0] == ' ',
        words[1] == 'w',
        forall|k: int| 1 <= k < 14 ==> !(#[trigger] words[k] == ' ' && words[k + 1] == 'w'),
        a + words + x == b + words + y,
    ensures
        (a + words.take(14)).is_prefix_of(b),
{
    let whole = a + words + x;
    let n = a.len() as int;
    let m = b.len() as int;
    let d = m - n;
    assert forall|k: int| 0 <= k < n implies #[trigger] a[k] == b[k] by {
        assert(whole[k] == a[k]);
        assert((b + words + y)[k] == b[k]);
    }
    if d == 0 {
        assert(a =~= b);
    } else if d < 14 {
        assert(whole[m] == words[d]);
        assert(whole[m + 1] == words[d + 1]);
        assert((b + words + y)[m] == words[0]);
        assert((b + words + y)[m + 1] == words[1]);
    } else {
        assert forall|k: int| 0 <= k < 14 implies b[n + k] == #[trigger] words[k] by {
            assert(whole[n + k] == words[k]);
            assert((b + words + y)[n + k] == b[n + k]);
        }
        assert(a + words.take(14) =~= b.subrange(0, n + 14));
    }
}

/// Two refused candidates have one message only where the one begins with the
/// other, followed by the words of a refusal.
proof fn lemma_messages_differ(
    limits: EndpointLimits,
    peer: PeerId,
    a: Seq<char>,
    b: Seq<char>,
)
    requires
        a.len() <= b.len(),
        a != b,
        refusal_of(limits, peer, a) == refusal_of(limits, peer, b),
    ensures
        speaks_of(b, a),
{
    let before = "advertised endpoint candidate "@;
    let words = " was rejected: "@;
    let (problem, value) = candidate_outcome(limits, peer, a)->Err_0;
    let (other, other_value) = candidate_outcome(limits, peer, b)->Err_0;
    let x = problem_text(problem, value);
    let y = problem_text(other, other_value);
    let message = refusal_of(limits, peer, a);
    let n = before.len() as int;
    assert(message.skip(n) =~= a + words + x);
    assert(message.skip(n) =~= b + words + y);
    reveal_strlit(" was rejected: ");
    reveal_strlit(" was rejected:");
    assert(words.take(14) =~= " was rejected:"@);
    lemma_words_tell_apart(a, b, words, x, y);
}

proof fn lemma_one_message_each(
    limits: EndpointLimits,
    peer: PeerId,
    found: Set<Seq<char>>,
)
    requires
        found.finite(),
    ensures
        refused(limits, peer, found).finite(),
        rejections(limits, peer, found).finite(),
        rejections(limits, peer, found).len() <= refused(limits, peer, found).len(),
        (forall|a: Seq<char>, b: Seq<char>|
            refused(limits, peer, found).contains(a) && refused(limits, peer, found).contains(b)
                && a != b ==> !(#[trigger] speaks_of(b, a))) ==> rejections(
            limits,
            peer,
            found,
        ).len() == refused(limits, peer, found).len(),
{
    let set = refused(limits, peer, found);
    let f = |candidate: Seq<char>| refusal_of(limits, peer, candidate);
    vstd::set_lib::lemma_set_subset_finite(found, set);
    let messages = rejections(limits, peer, found);
    assert forall|text: Seq<char>| messages.contains(text) == set.map(f).contains(text) by {
        if messages.contains(text) {
            let c = choose|c: Seq<char>| #[trigger]
                found.contains(c) && (candidate_outcome(limits, peer, c) matches Err(
                    (problem, value),
                ) && rejection_text(c, problem, value) == text);
            assert(set.contains(c) && f(c) == text);
        }
        if set.map(f).contains(text) {
            let c = choose|c: Seq<char>| set.contains(c) && f(c) == text;
            assert(found.contains(c));
        }
    }
    assert(messages =~= set.map(f));
    vstd::set_lib::lemma_map_size_bound(set, messages, f);
    if forall|a: Seq<char>, b: Seq<char>|
        set.contains(a) && set.contains(b) && a != b ==> !(#[trigger] speaks_of(b, a)) {
        assert forall|a: Seq<char>, b: Seq<char>|
            set.contains(a) && set.contains(b) && #[trigger] f(a) == #[trigger] f(
                b,
            ) implies a == b by {
            if a != b {
                if a.len() <= b.len() {
                    lemma_messages_differ(limits, peer, a, b);
                } else {
                    lemma_messages_differ(limits, peer, b, a);
                }
            }
        }
        vstd::set_lib::lemma_map_size(set, messages, f);
    }
}

/// What a node advertises, of all its candidates together. The endpoints stand
/// in order and without repetition, every one of them is valid, each class of
/// transport with a valid candidate has its least one among them, and where the
/// limit leaves a place for every class there are no more than the limit. The
/// messages stand in order and without repetition too: each is that of a refused
/// candidate and names it, every refused candidate has one, and no two share one
/// unless the text of the one speaks of the refusal of the other. A listener
/// that is refused changes nothing of what is advertised.
pub proof fn what_a_node_advertises(
    limits: EndpointLimits,
    peer: PeerId,
    configured: Seq<Seq<Component>>,
    mapped: Option<Seq<Component>>,
    listeners: Seq<Seq<char>>,
)
    ensures
        ({
            let found = candidates(configured, mapped, listeners);
            let addresses = advertised_texts(limits, peer, found);
            let rejected = rejected_texts(limits, peer, found);
            let invalid = refused(limits, peer, found);
            &&& crate::ordered::distinct(addresses)
            &&& crate::ordered::in_rank_order::<String>(addresses)
            &&& forall|text: Seq<char>| #[trigger]
                addresses.contains(text) ==> exists|class: PublishedTransportClass| #[trigger]
                    valid_texts(limits, peer, found, class).contains(text)
            &&& forall|class: PublishedTransportClass, text: Seq<char>| #[trigger]
                least_text(valid_texts(limits, peer, found, class), text) ==> addresses.contains(
                    text,
                )
            &&& forall|class: PublishedTransportClass, text: Seq<char>| #[trigger]
                valid_texts(limits, peer, found, class).contains(text) ==> exists|least: Seq<char>|
                 #[trigger] least_text(valid_texts(limits, peer, found, class), least)
            &&& limits.per_peer >= 3 ==> addresses.len() <= limits.per_peer
            &&& crate::ordered::distinct(rejected)
            &&& crate::ordered::in_rank_order::<String>(rejected)
            &&& forall|candidate: Seq<char>| #[trigger]
                invalid.contains(candidate) ==> rejected.contains(
                    refusal_of(limits, peer, candidate),
                ) && occurs_in(candidate, refusal_of(limits, peer, candidate))
            &&& forall|message: Seq<char>| #[trigger]
                rejected.contains(message) ==> exists|candidate: Seq<char>| #[trigger]
                    invalid.contains(candidate) && refusal_of(limits, peer, candidate) == message
            &&& rejected.len() <= invalid.len()
            &&& (forall|a: Seq<char>, b: Seq<char>|
                invalid.contains(a) && invalid.contains(b) && a != b ==> !(#[trigger] speaks_of(
                    b,
                    a,
                ))) ==> rejected.len() == invalid.len()
            &&& forall|at: int|
                0 <= at < listeners.len() && candidate_outcome(limits, peer, listeners[at]) is Err
                    ==> advertised_texts(
                    limits,
                    peer,
                    candidates(configured, mapped, #[trigger] listeners.remove(at)),
                ) == addresses
        }),
{
    let found = candidates(configured, mapped, listeners);
    let direct = valid_texts(limits, peer, found, PublishedTransportClass::Direct);
    let relay = valid_texts(limits, peer, found, PublishedTransportClass::Relay);
    let onion = valid_texts(limits, peer, found, PublishedTransportClass::Onion);
    let chosen = selection(limits.per_peer as nat, direct, relay, onion);
    let addresses = advertised_texts(limits, peer, found);
    let rejected = rejected_texts(limits, peer, found);
    let invalid = refused(limits, peer, found);
    let messages = rejections(limits, peer, found);
    lemma_candidates_finite(configured, mapped, listeners);
    lemma_valid_texts_finite(limits, peer, found, PublishedTransportClass::Direct);
    lemma_valid_texts_finite(limits, peer, found, PublishedTransportClass::Relay);
    lemma_valid_texts_finite(limits, peer, found, PublishedTransportClass::Onion);
    selection_is_bounded_and_keeps_every_class(limits.per_peer as nat, direct, relay, onion);
    crate::ordered::lemma_sorted_exists::<String>(chosen);
    crate::ordered::lemma_distinct_len(addresses);
    lemma_one_message_each(limits, peer, found);
    crate::ordered::lemma_sorted_exists::<String>(messages);
    crate::ordered::lemma_distinct_len(rejected);
    assert forall|text: Seq<char>| #[trigger] addresses.contains(text) == chosen.contains(text) by {
        assert(addresses.to_set().contains(text) == addresses.contains(text));
    }
    assert forall|text: Seq<char>| #[trigger] rejected.contains(text) == messages.contains(text) by {
        assert(rejected.to_set().contains(text) == rejected.contains(text));
    }
    assert forall|text: Seq<char>| #[trigger] addresses.contains(text) implies exists|
        class: PublishedTransportClass,
    | #[trigger] valid_texts(limits, peer, found, class).contains(text) by {
        assert(direct.union(relay).union(onion).contains(text));
        assert(direct.contains(text) || relay.contains(text) || onion.contains(text));
    }
    assert forall|class: PublishedTransportClass, text: Seq<char>| #[trigger]
        least_text(valid_texts(limits, peer, found, class), text) implies addresses.contains(
        text,
    ) by {
        assert(chosen.contains(text)) by {
            match class {
                PublishedTransportClass::Direct => {},
                PublishedTransportClass::Relay => {},
                PublishedTransportClass::Onion => {},
            }
        }
    }
    assert forall|class: PublishedTransportClass, text: Seq<char>| #[trigger]
        valid_texts(limits, peer, found, class).contains(text) implies exists|least: Seq<char>|
     #[trigger] least_text(valid_texts(limits, peer, found, class), least) by {
        let set = valid_texts(limits, peer, found, class);
        lemma_valid_texts_finite(limits, peer, found, class);
        lemma_first_is_least(set);
        assert(set.len() > 0) by {
            if set.len() == 0 {
                assert(set =~= Set::empty());
            }
        }
        assert(least_text(set, sorted_texts(set)[0]));
    }
    assert forall|candidate: Seq<char>| #[trigger] invalid.contains(candidate) implies
        rejected.contains(refusal_of(limits, peer, candidate)) && occurs_in(
        candidate,
        refusal_of(limits, peer, candidate),
    ) by {
        assert(found.contains(candidate));
        let message = refusal_of(limits, peer, candidate);
        assert(messages.contains(message));
        let n = "advertised endpoint candidate "@.len() as int;
        assert(message.subrange(n, n + candidate.len()) =~= candidate);
    }
    assert forall|message: Seq<char>| #[trigger] rejected.contains(message) implies exists|
        candidate: Seq<char>,
    | #[trigger] invalid.contains(candidate) && refusal_of(limits, peer, candidate) == message by {
        assert(messages.contains(message));
        let c = choose|c: Seq<char>| #[trigger]
            found.contains(c) && (candidate_outcome(limits, peer, c) matches Err((problem, value))
                && rejection_text(c, problem, value) == message);
        assert(invalid.contains(c));
    }
    assert forall|at: int|
        0 <= at < listeners.len() && candidate_outcome(limits, peer, listeners[at]) is Err implies
        advertised_texts(
        limits,
        peer,
        candidates(configured, mapped, #[trigger] listeners.remove(at)),
    ) == addresses by {
        a_refused_listener_changes_nothing(limits, peer, configured, mapped, listeners, at);
    }
}

} // verus!
