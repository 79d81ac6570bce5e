//! Network addresses and peer identities as plain values.

use crate::ordered::{OrderedSet, Ranked};
use crate::table::Key;
use libp2p::multiaddr::multihash::Multihash;
use libp2p::multiaddr::Protocol as OutsideProtocol;
use vstd::prelude::*;
use vstd::string::StringExecFns;

verus! {

/// The identity of a peer: a multihash of its public key.
///
/// Code and size are always those of a peer identity: a SHA-256 digest, or a
/// short public key as it is.
#[derive(Clone, Copy, Debug)]
pub struct PeerId {
    code: u64,
    size: u8,
    digest: [u8; 64],
}

/// A code and a size that libp2p takes for those of a peer identity.
pub open spec fn identity_shape(code: u64, size: nat) -> bool {
    (code == 0x12 && size <= 64) || (code == 0 && size <= 42)
}

impl PeerId {
    #[verifier::type_invariant]
    spec fn shaped(self) -> bool {
        identity_shape(self.code, self.size as nat)
    }

    /// The identity with this multihash code and digest.
    fn from_multihash(code: u64, digest: &[u8]) -> (peer: PeerId)
        requires
            identity_shape(code, digest@.len()),
        ensures
            peer.code == code,
            peer.size == digest@.len(),
            forall|i: int| 0 <= i < 64 ==> #[trigger] peer.digest@[i] == (if i < digest@.len() {
                digest@[i]
            } else {
                0u8
            }),
    {
        let mut padded: [u8; 64] = [0u8; 64];
        let mut i: usize = 0;
        while i < digest.len()
            invariant
                i <= digest@.len() <= 64,
                forall|k: int| 0 <= k < 64 ==> #[trigger] padded@[k] == (if k < i {
                    digest@[k]
                } else {
                    0u8
                }),
            decreases digest@.len() - i,
        {
            padded[i] = digest[i];
            i += 1;
        }
        PeerId { code, size: digest.len() as u8, digest: padded }
    }

    /// Whether two identities are the same.
    pub fn equals(&self, other: &PeerId) -> (result: bool)
        ensures
            result == (*self == *other),
    {
        if self.code != other.code || self.size != other.size {
            return false;
        }
        let mut i: usize = 0;
        while i < 64
            invariant
                i <= 64,
                forall|k: int| 0 <= k < i ==> self.digest@[k] == other.digest@[k],
            decreases 64 - i,
        {
            if self.digest[i] != other.digest[i] {
                return false;
            }
            i += 1;
        }
        assert(self.digest =~= other.digest);
        true
    }
}

impl PartialEq for PeerId {
    fn eq(&self, other: &Self) -> (result: bool) {
        self.equals(other)
    }
}

impl vstd::std_specs::cmp::PartialEqSpecImpl for PeerId {
    open spec fn obeys_eq_spec() -> bool {
        true
    }

    open spec fn eq_spec(&self, other: &Self) -> bool {
        *self == *other
    }
}

impl Eq for PeerId {

}

impl Key for PeerId {
    fn same(self, other: Self) -> (result: bool) {
        self.equals(&other)
    }
}

/// A peer identity orders by its multihash code, its size and its digest.
impl Ranked for PeerId {
    type Model = PeerId;

    open spec fn model(&self) -> PeerId {
        *self
    }

    closed spec fn rank_of(model: PeerId) -> Seq<u8> {
        vstd::bytes::spec_u64_to_le_bytes(model.code).reverse() + seq![model.size] + model.digest@
    }

    fn rank(&self) -> (bytes: Vec<u8>) {
        proof {
            vstd::bytes::lemma_auto_spec_u64_to_from_le_bytes();
        }
        let code = vstd::bytes::u64_to_le_bytes(self.code);
        let mut bytes: Vec<u8> = Vec::new();
        let mut i: usize = 0;
        while i < 8
            invariant
                i <= 8,
                code@.len() == 8,
                bytes@ == code@.reverse().take(i as int),
            decreases 8 - i,
        {
            bytes.push(code[7 - i]);
            assert(code@.reverse().take(i + 1) =~= code@.reverse().take(i as int).push(
                code@.reverse()[i as int],
            ));
            i += 1;
        }
        assert(code@.reverse().take(8) =~= code@.reverse());
        bytes.push(self.size);
        let ghost head = bytes@;
        let mut j: usize = 0;
        assert(bytes@ =~= head + self.digest@.take(0));
        while j < 64
            invariant
                j <= 64,
                bytes@ == head + self.digest@.take(j as int),
            decreases 64 - j,
        {
            bytes.push(self.digest[j]);
            assert(self.digest@.take(j + 1) =~= self.digest@.take(j as int).push(
                self.digest@[j as int],
            ));
            assert(bytes@ =~= head + self.digest@.take(j + 1));
            j += 1;
        }
        assert(self.digest@.take(64) =~= self.digest@);
        assert(bytes@ =~= PeerId::rank_of(*self));
        bytes
    }

    fn same(&self, other: &Self) -> (result: bool) {
        self.equals(other)
    }

    fn duplicate(&self) -> (copy: Self) {
        *self
    }
}

/// The rank of a peer identity tells it apart from every other.
pub proof fn lemma_peer_rank_tells_apart()
    ensures
        crate::ordered::rank_tells_apart::<PeerId>(),
{
    vstd::bytes::lemma_auto_spec_u64_to_from_le_bytes();
    assert forall|a: PeerId, b: PeerId| #[trigger] PeerId::rank_of(a) == #[trigger] PeerId::rank_of(
        b,
    ) implies a == b by {
        let x = vstd::bytes::spec_u64_to_le_bytes(a.code);
        let y = vstd::bytes::spec_u64_to_le_bytes(b.code);
        let r = PeerId::rank_of(a);
        assert(x.len() == 8 && y.len() == 8);
        assert forall|i: int| 0 <= i < 8 implies x[i] == y[i] by {
            assert(x.reverse()[7 - i] == r[7 - i]);
            assert(y.reverse()[7 - i] == r[7 - i]);
        }
        assert(x =~= y);
        assert(r[8] == a.size);
        assert(r[8] == b.size);
        assert forall|i: int| 0 <= i < 64 implies a.digest@[i] == b.digest@[i] by {
            assert(r[9 + i] == a.digest@[i]);
            assert(r[9 + i] == b.digest@[i]);
        }
        assert(a.digest =~= b.digest);
    }
}

/// Peers without repetition, in their order.
pub type PeerSet = OrderedSet<PeerId>;

/// The members of a set of peers in their order.
pub open spec fn sorted_peers(set: Set<PeerId>) -> Seq<PeerId> {
    crate::ordered::sorted_list::<PeerId>(set)
}

/// Whether one peer comes before another.
pub open spec fn peer_precedes(a: PeerId, b: PeerId) -> bool {
    crate::ordered::lex_le(PeerId::rank_of(a), PeerId::rank_of(b)) && a != b
}

impl PeerId {
    /// Whether the peer comes before another.
    pub fn precedes(&self, other: &PeerId) -> (result: bool)
        ensures
            result == peer_precedes(*self, *other),
    {
        if self.equals(other) {
            return false;
        }
        let mine = self.rank();
        let its = other.rank();
        crate::ordered::bytes_le(mine.as_slice(), its.as_slice())
    }
}

/// The text of a peer identity, in base 58.
pub uninterp spec fn peer_text(peer: PeerId) -> Seq<char>;

/// The identity that a text spells, if it spells one.
pub uninterp spec fn peer_of_text(text: Seq<char>) -> Option<PeerId>;

/// The identity that belongs to an Ed25519 public key, if the bytes are one.
pub uninterp spec fn peer_of_key(key: Seq<u8>) -> Option<PeerId>;

/// The text of an identity.
///
/// Calls `PeerId::to_base58` of libp2p; the text is a function of the
/// identity. The identity's shape is one that `PeerId::from_multihash` takes.
#[verifier::external_body]
fn base58_text(peer: &PeerId) -> (text: String)
    ensures
        text@ == peer_text(*peer),
{
    let digest = &peer.digest[..peer.size as usize];
    let multihash = Multihash::<64>::wrap(peer.code, digest).expect("digest fits");
    libp2p::PeerId::from_multihash(multihash).expect("peer identity").to_base58()
}

/// The identity that a text spells.
///
/// Calls `PeerId::from_str` of libp2p; the outcome is a function of the text.
#[verifier::external_body]
fn parse_peer(text: &str) -> (peer: Option<PeerId>)
    ensures
        peer == peer_of_text(text@),
{
    let outside: libp2p::PeerId = text.parse().ok()?;
    let multihash: &Multihash<64> = outside.as_ref();
    Some(PeerId::from_multihash(multihash.code(), multihash.digest()))
}

/// The identity of an Ed25519 public key.
///
/// Calls `ed25519::PublicKey::try_from_bytes` and `PublicKey::to_peer_id` of
/// libp2p; the outcome is a function of the key.
#[verifier::external_body]
fn key_identity(key: &[u8; 32]) -> (peer: Option<PeerId>)
    ensures
        peer == peer_of_key(key@),
{
    let public = libp2p::identity::ed25519::PublicKey::try_from_bytes(key).ok()?;
    let outside = libp2p::identity::PublicKey::from(public).to_peer_id();
    let multihash: &Multihash<64> = outside.as_ref();
    Some(PeerId::from_multihash(multihash.code(), multihash.digest()))
}

impl PeerId {
    /// The identity as text.
    pub fn text(&self) -> (text: String)
        ensures
            text@ == peer_text(*self),
    {
        base58_text(self)
    }

    /// Reads an identity from its text.
    pub fn from_text(text: &str) -> (peer: Option<PeerId>)
        ensures
            peer == peer_of_text(text@),
    {
        parse_peer(text)
    }

    /// The identity of an Ed25519 public key.
    pub fn from_key(key: &[u8; 32]) -> (peer: Option<PeerId>)
        ensures
            peer == peer_of_key(key@),
    {
        key_identity(key)
    }
}

/// One part of an address.
#[derive(Debug)]
pub enum Protocol {
    Ip4([u8; 4]),
    Ip6([u8; 16]),
    Udp(u16),
    QuicV1,
    P2p(PeerId),
    P2pCircuit,
    /// An onion service of version 3: public key, checksum and version, then
    /// the port.
    Onion3([u8; 35], u16),
    /// Any other part, by its text.
    Other(String),
}

/// What one part of an address is, for contracts.
pub enum Component {
    Ip4(Seq<u8>),
    Ip6(Seq<u8>),
    Udp(u16),
    QuicV1,
    P2p(PeerId),
    P2pCircuit,
    Onion3(Seq<u8>, u16),
    Other(Seq<char>),
}

impl View for Protocol {
    type V = Component;

    open spec fn view(&self) -> Component {
        match *self {
            Protocol::Ip4(octets) => Component::Ip4(octets@),
            Protocol::Ip6(octets) => Component::Ip6(octets@),
            Protocol::Udp(port) => Component::Udp(port),
            Protocol::QuicV1 => Component::QuicV1,
            Protocol::P2p(peer) => Component::P2p(peer),
            Protocol::P2pCircuit => Component::P2pCircuit,
            Protocol::Onion3(hash, port) => Component::Onion3(hash@, port),
            Protocol::Other(text) => Component::Other(text@),
        }
    }
}

/// Whether two byte arrays hold the same bytes.
pub fn same_bytes(a: &[u8], b: &[u8]) -> (result: bool)
    ensures
        result == (a@ == b@),
{
    if a.len() != b.len() {
        return false;
    }
    let mut i: usize = 0;
    while i < a.len()
        invariant
            i <= a@.len() == b@.len(),
            forall|k: int| 0 <= k < i ==> a@[k] == b@[k],
        decreases a@.len() - i,
    {
        if a[i] != b[i] {
            return false;
        }
        i += 1;
    }
    assert(a@ =~= b@);
    true
}

impl Protocol {
    /// Whether two parts are the same.
    pub fn same(&self, other: &Protocol) -> (result: bool)
        ensures
            result == (self@ == other@),
    {
        match (self, other) {
            (Protocol::Ip4(a), Protocol::Ip4(b)) => same_bytes(a.as_slice(), b.as_slice()),
            (Protocol::Ip6(a), Protocol::Ip6(b)) => same_bytes(a.as_slice(), b.as_slice()),
            (Protocol::Udp(a), Protocol::Udp(b)) => *a == *b,
            (Protocol::QuicV1, Protocol::QuicV1) => true,
            (Protocol::P2p(a), Protocol::P2p(b)) => a.equals(b),
            (Protocol::P2pCircuit, Protocol::P2pCircuit) => true,
            (Protocol::Onion3(a, p), Protocol::Onion3(b, q)) => *p == *q && same_bytes(
                a.as_slice(),
                b.as_slice(),
            ),
            (Protocol::Other(a), Protocol::Other(b)) => *a == *b,
            _ => false,
        }
    }

    /// Another copy of the part.
    pub fn duplicate(&self) -> (copy: Protocol)
        ensures
            copy@ == self@,
    {
        match self {
            Protocol::Ip4(octets) => Protocol::Ip4(*octets),
            Protocol::Ip6(octets) => Protocol::Ip6(*octets),
            Protocol::Udp(port) => Protocol::Udp(*port),
            Protocol::QuicV1 => Protocol::QuicV1,
            Protocol::P2p(peer) => Protocol::P2p(*peer),
            Protocol::P2pCircuit => Protocol::P2pCircuit,
            Protocol::Onion3(hash, port) => Protocol::Onion3(*hash, *port),
            Protocol::Other(text) => Protocol::Other(text.clone()),
        }
    }
}

/// The text of one part of an address.
pub uninterp spec fn component_text(component: Component) -> Seq<char>;

/// The address that a text spells, if it spells one.
pub uninterp spec fn address_of_text(text: Seq<char>) -> Option<Seq<Component>>;

/// The binary form of the address that a text spells; empty where it spells
/// none.
pub uninterp spec fn encoding_of_text(text: Seq<char>) -> Seq<u8>;

/// The text of one part of an address, with its leading slash.
///
/// Calls `Display` of libp2p's `Protocol`, which writes a slash, the tag of
/// the protocol and, where there is one, a slash and the value. A relay
/// circuit is written by its tag alone; a part kept by its text is that text.
#[verifier::external_body]
fn protocol_text(protocol: &Protocol) -> (text: String)
    ensures
        text@ == component_text(protocol@),
        protocol@ is P2pCircuit ==> text@ == "/p2p-circuit"@,
        protocol@ matches Component::Other(other) ==> text@ == other,
{
    let outside = match protocol {
        Protocol::Ip4(octets) => OutsideProtocol::Ip4((*octets).into()),
        Protocol::Ip6(octets) => OutsideProtocol::Ip6((*octets).into()),
        Protocol::Udp(port) => OutsideProtocol::Udp(*port),
        Protocol::QuicV1 => OutsideProtocol::QuicV1,
        Protocol::P2p(peer) => {
            let digest = &peer.digest[..peer.size as usize];
            let multihash = Multihash::<64>::wrap(peer.code, digest).expect("digest fits");
            OutsideProtocol::P2p(multihash.try_into().expect("peer identity"))
        },
        Protocol::P2pCircuit => OutsideProtocol::P2pCircuit,
        Protocol::Onion3(hash, port) => OutsideProtocol::Onion3((hash, *port).into()),
        Protocol::Other(text) => return text.clone(),
    };
    outside.to_string()
}

/// Reads an address from its text.
///
/// Calls `Multiaddr::from_str` of libp2p; the outcome is a function of the
/// text.
#[verifier::external_body]
fn parse_address(text: &str) -> (address: Option<Multiaddr>)
    ensures
        (match address {
            Some(address) => Some(address@),
            None => None,
        }) == address_of_text(text@),
{
    let outside: libp2p::Multiaddr = text.parse().ok()?;
    let convert = |protocol: OutsideProtocol| match protocol {
        OutsideProtocol::Ip4(ip) => Protocol::Ip4(ip.octets()),
        OutsideProtocol::Ip6(ip) => Protocol::Ip6(ip.octets()),
        OutsideProtocol::Udp(port) => Protocol::Udp(port),
        OutsideProtocol::QuicV1 => Protocol::QuicV1,
        OutsideProtocol::P2p(id) => Protocol::P2p(
            PeerId::from_multihash(id.as_ref().code(), id.as_ref().digest())),
        OutsideProtocol::P2pCircuit => Protocol::P2pCircuit,
        OutsideProtocol::Onion3(onion) => Protocol::Onion3(*onion.hash(), onion.port()),
        other => Protocol::Other(other.to_string()),
    };
    Some(Multiaddr { protocols: outside.iter().map(convert).collect() })
}

/// The binary form of the address that a text spells.
///
/// Calls `Multiaddr::to_vec` of libp2p on the address read from the text; a
/// text that spells no address gives no bytes.
#[verifier::external_body]
fn encode_text(text: &str) -> (bytes: Vec<u8>)
    ensures
        bytes@ == encoding_of_text(text@),
{
    text.parse::<libp2p::Multiaddr>().map(|address| address.to_vec()).unwrap_or_default()
}

/// A network address: a sequence of parts, outermost first.
#[derive(Debug)]
pub struct Multiaddr {
    pub protocols: Vec<Protocol>,
}

impl View for Multiaddr {
    type V = Seq<Component>;

    open spec fn view(&self) -> Seq<Component> {
        self.protocols@.map_values(|protocol: Protocol| protocol@)
    }
}

/// The text of an address: the texts of its parts, one after another.
pub open spec fn address_text(address: Seq<Component>) -> Seq<char>
    decreases address.len(),
{
    if address.len() == 0 {
        Seq::empty()
    } else {
        address_text(address.drop_last()) + component_text(address.last())
    }
}

impl Multiaddr {
    /// The address without parts.
    pub fn empty() -> (address: Multiaddr)
        ensures
            address@ == Seq::<Component>::empty(),
    {
        let address = Multiaddr { protocols: Vec::new() };
        assert(address@ =~= Seq::empty());
        address
    }

    pub fn is_empty(&self) -> (result: bool)
        ensures
            result == (self@.len() == 0),
    {
        self.protocols.len() == 0
    }

    /// Reads an address from its text.
    pub fn parse(text: &str) -> (address: Option<Multiaddr>)
        ensures
            (match address {
                Some(address) => Some(address@),
                None => None,
            }) == address_of_text(text@),
    {
        parse_address(text)
    }

    /// The address as text.
    pub fn text(&self) -> (text: String)
        ensures
            text@ == address_text(self@),
    {
        let mut text = String::new();
        let mut i: usize = 0;
        while i < self.protocols.len()
            invariant
                i <= self.protocols@.len(),
                text@ == address_text(self@.take(i as int)),
            decreases self.protocols@.len() - i,
        {
            let part = protocol_text(&self.protocols[i]);
            text.append(part.as_str());
            proof {
                let next = self@.take(i + 1);
                assert(next.drop_last() =~= self@.take(i as int));
                assert(next.last() == self.protocols@[i as int]@);
            }
            i += 1;
        }
        assert(self@.take(i as int) =~= self@);
        text
    }

    /// Another copy of the address.
    pub fn duplicate(&self) -> (copy: Multiaddr)
        ensures
            copy@ == self@,
    {
        let mut protocols: Vec<Protocol> = Vec::new();
        let mut i: usize = 0;
        while i < self.protocols.len()
            invariant
                i <= self.protocols@.len(),
                protocols@.len() == i,
                forall|k: int| 0 <= k < i ==> #[trigger] protocols@[k]@ == self.protocols@[k]@,
            decreases self.protocols@.len() - i,
        {
            protocols.push(self.protocols[i].duplicate());
            i += 1;
        }
        let copy = Multiaddr { protocols };
        assert(copy@ =~= self@);
        copy
    }

    /// Whether two addresses have the same parts.
    pub fn same(&self, other: &Multiaddr) -> (result: bool)
        ensures
            result == (self@ == other@),
    {
        if self.protocols.len() != other.protocols.len() {
            assert(self@.len() != other@.len());
            return false;
        }
        let mut i: usize = 0;
        while i < self.protocols.len()
            invariant
                i <= self.protocols@.len() == other.protocols@.len(),
                forall|k: int| 0 <= k < i ==> #[trigger] self@[k] == other@[k],
            decreases self.protocols@.len() - i,
        {
            if !self.protocols[i].same(&other.protocols[i]) {
                assert(self@[i as int] != other@[i as int]);
                return false;
            }
            i += 1;
        }
        assert(self@ =~= other@);
        true
    }

    /// The address with one more part at its end.
    pub fn with(self, protocol: Protocol) -> (address: Multiaddr)
        ensures
            address@ == self@.push(protocol@),
    {
        let mut protocols = self.protocols;
        protocols.push(protocol);
        let address = Multiaddr { protocols };
        assert(address@ =~= self@.push(protocol@));
        address
    }

    /// The address without its last part; an empty one stays as it is.
    pub fn without_last(self) -> (address: Multiaddr)
        ensures
            address@ == (if self@.len() == 0 {
                self@
            } else {
                self@.drop_last()
            }),
    {
        let mut protocols = self.protocols;
        let _ = protocols.pop();
        let address = Multiaddr { protocols };
        proof {
            if self@.len() == 0 {
                assert(address@ =~= self@);
            } else {
                assert(address@ =~= self@.drop_last());
            }
        }
        address
    }

    /// The peer that the last part names, if it names one.
    pub fn last_peer(&self) -> (peer: Option<PeerId>)
        ensures
            peer == last_peer(self@),
    {
        let n: usize = self.protocols.len();
        if n == 0 {
            return None;
        }
        assert(self@[n - 1] == self.protocols@[n - 1]@);
        match &self.protocols[n - 1] {
            Protocol::P2p(peer) => Some(*peer),
            _ => None,
        }
    }

    /// Whether the address goes through a relay.
    pub fn is_circuit(&self) -> (result: bool)
        ensures
            result == is_circuit(self@),
    {
        let mut i: usize = 0;
        while i < self.protocols.len()
            invariant
                i <= self.protocols@.len(),
                forall|k: int| 0 <= k < i ==> !(#[trigger] self@[k] is P2pCircuit),
            decreases self.protocols@.len() - i,
        {
            assert(self@[i as int] == self.protocols@[i as int]@);
            if let Protocol::P2pCircuit = &self.protocols[i] {
                assert(self@[i as int] is P2pCircuit);
                return true;
            }
            i += 1;
        }
        false
    }

    /// Whether the address names an onion service.
    pub fn is_onion(&self) -> (result: bool)
        ensures
            result == is_onion(self@),
    {
        let mut i: usize = 0;
        while i < self.protocols.len()
            invariant
                i <= self.protocols@.len(),
                forall|k: int| 0 <= k < i ==> !(#[trigger] self@[k] is Onion3),
            decreases self.protocols@.len() - i,
        {
            assert(self@[i as int] == self.protocols@[i as int]@);
            if let Protocol::Onion3(_, _) = &self.protocols[i] {
                assert(self@[i as int] is Onion3);
                return true;
            }
            i += 1;
        }
        false
    }
}

/// The peer that the last part of an address names, if it names one.
pub open spec fn last_peer(address: Seq<Component>) -> Option<PeerId> {
    if address.len() > 0 {
        match address.last() {
            Component::P2p(peer) => Some(peer),
            _ => None,
        }
    } else {
        None
    }
}

/// Some part of the address is a relay circuit.
pub open spec fn is_circuit(address: Seq<Component>) -> bool {
    exists|i: int| 0 <= i < address.len() && #[trigger] address[i] is P2pCircuit
}

/// Some part of the address is an onion service.
pub open spec fn is_onion(address: Seq<Component>) -> bool {
    exists|i: int| 0 <= i < address.len() && #[trigger] address[i] is Onion3
}

impl Ranked for Multiaddr {
    type Model = Seq<Component>;

    open spec fn model(&self) -> Seq<Component> {
        self@
    }

    open spec fn rank_of(model: Seq<Component>) -> Seq<u8> {
        encoding_of_text(address_text(model))
    }

    fn rank(&self) -> (bytes: Vec<u8>) {
        encode_text(self.text().as_str())
    }

    fn same(&self, other: &Self) -> (result: bool) {
        Multiaddr::same(self, other)
    }

    fn duplicate(&self) -> (copy: Self) {
        Multiaddr::duplicate(self)
    }
}

/// Addresses without repetition, in the order of their binary forms.
pub type AddressSet = OrderedSet<Multiaddr>;

/// The peer that the last peer part of an address names.
pub open spec fn terminal_peer(address: Seq<Component>) -> Option<PeerId>
    decreases address.len(),
{
    if address.len() == 0 {
        None
    } else {
        match address.last() {
            Component::P2p(peer) => Some(peer),
            _ => terminal_peer(address.drop_last()),
        }
    }
}

/// The peer at which an address ends: the one that its last peer part names.
pub fn terminal_peer_id(address: &Multiaddr) -> (peer: Option<PeerId>)
    ensures
        peer == terminal_peer(address@),
{
    let mut i: usize = address.protocols.len();
    assert(address@.take(i as int) =~= address@);
    while i > 0
        invariant
            i <= address.protocols@.len(),
            terminal_peer(address@) == terminal_peer(address@.take(i as int)),
        decreases i,
    {
        proof {
            let head = address@.take(i as int);
            assert(head.drop_last() =~= address@.take(i - 1));
            assert(head.last() == address.protocols@[i - 1]@);
        }
        if let Protocol::P2p(peer) = &address.protocols[i - 1] {
            return Some(*peer);
        }
        i -= 1;
    }
    None
}

} // verus!
