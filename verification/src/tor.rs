//! Tor policy modes, onion addresses and the onion listener.

use crate::address::{
    is_onion, peer_of_key, same_bytes, Component, Multiaddr, PeerId, Protocol,
};
use crate::base32::{
    ascii_lower, base32_nopad, base32_text, base_32_tells_bytes_apart, lower_case_stays, lower_text,
};
use tor_hscrypto::pk::HsId;
use vstd::prelude::*;
use vstd::string::{StrSliceExecFns, StringExecFns};

verus! {

/// The port on which onion services of the network listen.
pub const ONION_SERVICE_PORT: u16 = 443;

/// The version byte of an onion address.
pub const ONION_VERSION: u8 = 3;

/// How the node uses Tor.
#[derive(Clone, Copy, Debug, PartialEq, Eq, Structural)]
pub enum TorMode {
    Auto,
    PreferTor,
    RequireTor,
    DisableTor,
}

impl Default for TorMode {
    fn default() -> (mode: Self)
        ensures
            mode == TorMode::Auto,
    {
        TorMode::Auto
    }
}

/// The text of a mode.
pub open spec fn mode_text(mode: TorMode) -> Seq<char> {
    match mode {
        TorMode::Auto => "auto"@,
        TorMode::PreferTor => "prefer-tor"@,
        TorMode::RequireTor => "require-tor"@,
        TorMode::DisableTor => "disable-tor"@,
    }
}

/// The mode that a text spells, if it spells one.
pub open spec fn mode_of_text(text: Seq<char>) -> Option<TorMode> {
    if text == "auto"@ {
        Some(TorMode::Auto)
    } else if text == "prefer-tor"@ {
        Some(TorMode::PreferTor)
    } else if text == "require-tor"@ {
        Some(TorMode::RequireTor)
    } else if text == "disable-tor"@ {
        Some(TorMode::DisableTor)
    } else {
        None
    }
}

/// A text in quotes, with the escapes that Rust's debug format writes.
pub uninterp spec fn quoted_text(text: Seq<char>) -> Seq<char>;

/// A text in quotes.
///
/// Calls the debug format of `str` of std; the outcome is a function of the
/// text.
#[verifier::external_body]
fn quoted(text: &str) -> (quoted: String)
    ensures
        quoted@ == quoted_text(text@),
{
    format!("{text:?}")
}

/// A text that names no mode.
#[derive(Debug)]
pub struct TorModeParseError(pub String);

impl TorModeParseError {
    pub fn message(&self) -> (text: String)
        ensures
            text@ == "invalid Tor mode "@ + quoted_text(self.0@)
                + "; expected auto, prefer-tor, require-tor, or disable-tor"@,
    {
        let mut text = String::from_str("invalid Tor mode ");
        text.append(quoted(self.0.as_str()).as_str());
        text.append("; expected auto, prefer-tor, require-tor, or disable-tor");
        text
    }
}

impl TorMode {
    /// Whether Tor is used at all.
    pub fn enabled(self) -> (result: bool)
        ensures
            result == (self != TorMode::DisableTor),
    {
        match self {
            TorMode::DisableTor => false,
            _ => true,
        }
    }

    /// Whether nothing but Tor may be used.
    pub fn requires_tor(self) -> (result: bool)
        ensures
            result == (self == TorMode::RequireTor),
    {
        match self {
            TorMode::RequireTor => true,
            _ => false,
        }
    }

    /// The mode as text.
    pub fn text(self) -> (text: String)
        ensures
            text@ == mode_text(self),
    {
        match self {
            TorMode::Auto => String::from_str("auto"),
            TorMode::PreferTor => String::from_str("prefer-tor"),
            TorMode::RequireTor => String::from_str("require-tor"),
            TorMode::DisableTor => String::from_str("disable-tor"),
        }
    }

    /// Reads a mode from its text.
    pub fn parse(text: &str) -> (mode: Result<TorMode, TorModeParseError>)
        ensures
            match mode {
                Ok(mode) => mode_of_text(text@) == Some(mode),
                Err(error) => mode_of_text(text@) is None && error.0@ == text@,
            },
    {
        let owned = text.to_owned();
        if owned == String::from_str("auto") {
            Ok(TorMode::Auto)
        } else if owned == String::from_str("prefer-tor") {
            Ok(TorMode::PreferTor)
        } else if owned == String::from_str("require-tor") {
            Ok(TorMode::RequireTor)
        } else if owned == String::from_str("disable-tor") {
            Ok(TorMode::DisableTor)
        } else {
            Err(TorModeParseError(owned))
        }
    }
}

/// Reading the text of a mode gives the mode back, and no other text is read
/// as that mode.
pub proof fn mode_text_round_trips(mode: TorMode, text: Seq<char>)
    ensures
        mode_of_text(mode_text(mode)) == Some(mode),
        mode_of_text(text) == Some(mode) ==> text == mode_text(mode),
{
    reveal_strlit("auto");
    reveal_strlit("prefer-tor");
    reveal_strlit("require-tor");
    reveal_strlit("disable-tor");
    assert("auto"@.len() == 4);
    assert("prefer-tor"@.len() == 10);
    assert("require-tor"@.len() == 11);
    assert("disable-tor"@.len() == 11);
    assert("require-tor"@[0] == 'r');
    assert("disable-tor"@[0] == 'd');
}

/// Where the onion transport keeps its files and how many streams it admits.
#[derive(Debug)]
pub struct TorTransportConfig {
    pub state_dir: String,
    pub cache_dir: String,
    pub arti_config_file: Option<String>,
    pub max_inbound_streams: usize,
}

/// A failure of the onion transport, by its message.
#[derive(Debug)]
pub struct TorTransportError {
    pub message: String,
}

impl TorTransportError {
    pub fn new(message: String) -> (error: Self)
        ensures
            error.message@ == message@,
    {
        TorTransportError { message }
    }
}

/// The identity of a node: its Ed25519 public key, with the checksum that its
/// onion address carries.
#[derive(Clone, Copy, Debug)]
pub struct NodeId {
    pub key: [u8; 32],
    pub onion_checksum: [u8; 2],
}

impl NodeId {
    /// The peer identity of the node's key.
    pub fn peer_id(&self) -> (peer: Option<PeerId>)
        ensures
            peer == peer_of_key(self.key@),
    {
        PeerId::from_key(&self.key)
    }

    /// Whether two identities have the same key.
    pub fn same(&self, other: &NodeId) -> (result: bool)
        ensures
            result == (self.key@ == other.key@),
    {
        same_bytes(self.key.as_slice(), other.key.as_slice())
    }
}

/// The bytes of a node's onion address: key, checksum and version.
pub open spec fn onion_bytes(node: NodeId) -> Seq<u8> {
    node.key@ + node.onion_checksum@ + seq![ONION_VERSION]
}

/// The bytes of a node's onion address.
pub fn node_onion_bytes(node: &NodeId) -> (bytes: [u8; 35])
    ensures
        bytes@ == onion_bytes(*node),
{
    let mut bytes: [u8; 35] = [0u8; 35];
    let mut i: usize = 0;
    while i < 32
        invariant
            i <= 32,
            forall|k: int| 0 <= k < i ==> bytes@[k] == node.key@[k],
        decreases 32 - i,
    {
        bytes[i] = node.key[i];
        i += 1;
    }
    bytes[32] = node.onion_checksum[0];
    bytes[33] = node.onion_checksum[1];
    bytes[34] = ONION_VERSION;
    assert(bytes@ =~= onion_bytes(*node));
    bytes
}

/// The checksum that an onion address carries of its key: the two bytes that
/// `HsId` of tor_hscrypto computes.
pub uninterp spec fn onion_checksum(key: Seq<u8>) -> Seq<u8>;

/// A text with its ASCII letters in lower case.
fn lowercase(text: &str) -> (lower: String)
    ensures
        lower@ == lower_text(text@),
{
    let letters = "abcdefghijklmnopqrstuvwxyz";
    proof {
        reveal_strlit("abcdefghijklmnopqrstuvwxyz");
        assert(letters@ =~= Seq::new(26, |k: int| (97 + k) as char));
    }
    let ghost expected = lower_text(text@);
    let length: usize = text.unicode_len();
    let mut lower = String::new();
    let mut i: usize = 0;
    assert(lower@ =~= expected.take(0));
    while i < length
        invariant
            i <= length == text@.len(),
            letters@ == Seq::new(26, |k: int| (97 + k) as char),
            expected == lower_text(text@),
            lower@ == expected.take(i as int),
        decreases length - i,
    {
        let c = text.get_char(i);
        if 'A' <= c && c <= 'Z' {
            let place: usize = (c as u32 - 65) as usize;
            lower.append(letters.substring_char(place, place + 1));
        } else {
            lower.append(text.substring_char(i, i + 1));
        }
        assert(lower@ =~= expected.take(i + 1));
        i += 1;
    }
    assert(expected.take(i as int) =~= expected);
    lower
}

/// The host name of an onion service: the bytes of its address in lower-case
/// base 32, and `.onion`.
pub open spec fn onion_hostname(hash: Seq<u8>) -> Seq<char> {
    lower_text(base32_text(hash)) + ".onion"@
}

/// The bytes of an onion address are sound: a key, its checksum, and the
/// version.
pub open spec fn sound_onion(hash: Seq<u8>) -> bool {
    &&& hash.len() == 35
    &&& hash.subrange(32, 34) == onion_checksum(hash.take(32))
    &&& hash[34] == ONION_VERSION
}

/// Whether a host name is that of an onion service of version 3.
///
/// Calls `HsId::from_str` of tor_hscrypto. The contract says which texts it
/// takes: those that spell, in base 32 and in either case, bytes that begin
/// with a key, its checksum and the version, and then end in `.onion`. What
/// the checksum of a key is, it leaves unsaid. The base-32 decoder behind it
/// bounds the length of its input, far above that of a host name.
#[verifier::external_body]
fn is_onion_hostname(hostname: &str) -> (result: bool)
    requires
        hostname@.len() <= 0xffff,
    ensures
        result == (exists|bytes: Seq<u8>|
            lower_text(hostname@) == #[trigger] onion_hostname(bytes) && bytes.len() >= 35
                && bytes.subrange(32, 34) == onion_checksum(bytes.take(32)) && bytes[34]
                == ONION_VERSION),
{
    hostname.parse::<HsId>().is_ok()
}

/// The host names of onion services tell their addresses apart, and stay as
/// they are in lower case.
pub proof fn host_names_tell_services_apart(a: Seq<u8>, b: Seq<u8>)
    ensures
        (onion_hostname(a) == onion_hostname(b)) == (a == b),
        lower_text(onion_hostname(a)) == onion_hostname(a),
{
    reveal_strlit(".onion");
    let x = lower_text(base32_text(a));
    let y = lower_text(base32_text(b));
    assert(onion_hostname(a).take(onion_hostname(a).len() - 6) =~= x);
    assert(onion_hostname(b).take(onion_hostname(b).len() - 6) =~= y);
    base_32_tells_bytes_apart(a, b);
    lower_case_stays(base32_text(a));
    assert(lower_text(x + ".onion"@) =~= lower_text(x) + ".onion"@);
}

/// The host name of an onion service.
pub fn hostname_of_hash(hash: &[u8; 35]) -> (hostname: String)
    ensures
        hostname@ == onion_hostname(hash@),
{
    let mut hostname = lowercase(base32_nopad(hash).as_str());
    hostname.append(".onion");
    hostname
}

impl NodeId {
    /// The host name of the node's onion service.
    pub fn onion_hostname(&self) -> (hostname: String)
        ensures
            hostname@ == onion_hostname(onion_bytes(*self)),
    {
        hostname_of_hash(&node_onion_bytes(self))
    }
}

/// The address on which the node's onion service listens.
pub open spec fn onion_listener(node: NodeId) -> Seq<Component> {
    seq![Component::Onion3(onion_bytes(node), ONION_SERVICE_PORT)]
}

/// The address on which a node's onion service listens.
pub fn onion_listener_address(node: &NodeId) -> (address: Multiaddr)
    ensures
        address@ == onion_listener(*node),
{
    let address = Multiaddr::empty().with(
        Protocol::Onion3(node_onion_bytes(node), ONION_SERVICE_PORT),
    );
    assert(address@ =~= onion_listener(*node));
    address
}

/// The address that stands for a remote end that Tor hides.
pub fn anonymous_inbound_address() -> (address: Multiaddr)
    ensures
        address@ == Seq::<Component>::empty(),
{
    Multiaddr::empty()
}

/// The peer identity whose key an onion address holds.
pub open spec fn onion_peer(hash: Seq<u8>) -> Option<PeerId> {
    peer_of_key(hash.take(32))
}

/// The peer identity whose key an onion address holds.
pub fn peer_id_from_onion_hash(hash: &[u8; 35]) -> (peer: Option<PeerId>)
    ensures
        peer == onion_peer(hash@),
{
    let mut key: [u8; 32] = [0u8; 32];
    let mut i: usize = 0;
    while i < 32
        invariant
            i <= 32,
            forall|k: int| 0 <= k < i ==> key@[k] == hash@[k],
        decreases 32 - i,
    {
        key[i] = hash[i];
        i += 1;
    }
    assert(key@ =~= hash@.take(32));
    PeerId::from_key(&key)
}

/// An address is that of an onion service in canonical form: the service on
/// the network's port, and after it nothing or the peer whose key the service
/// has.
pub open spec fn canonical_onion(address: Seq<Component>) -> bool {
    &&& 1 <= address.len() <= 2
    &&& address[0] matches Component::Onion3(hash, port) && {
        &&& port == ONION_SERVICE_PORT
        &&& sound_onion(hash)
        &&& onion_peer(hash) is Some
        &&& address.len() == 2 ==> address[1] == Component::P2p(onion_peer(hash)->0)
    }
}

/// The host name, the port and the terminal peer of a canonical onion address.
pub fn parse_canonical_onion_endpoint(address: &Multiaddr) -> (endpoint: Option<
    (String, u16, Option<PeerId>),
>)
    ensures
        endpoint is Some == canonical_onion(address@),
        endpoint matches Some((hostname, port, peer)) ==> {
            &&& hostname@ == onion_hostname(address@[0]->Onion3_0)
            &&& port == ONION_SERVICE_PORT
            &&& peer == (if address@.len() == 2 {
                Some(onion_peer(address@[0]->Onion3_0)->0)
            } else {
                None
            })
        },
{
    let n: usize = address.protocols.len();
    if n == 0 || n > 2 {
        return None;
    }
    assert(address@[0] == address.protocols@[0]@);
    let (hash, port): (&[u8; 35], u16) = match &address.protocols[0] {
        Protocol::Onion3(hash, port) => (hash, *port),
        _ => {
            return None;
        },
    };
    if port != ONION_SERVICE_PORT {
        return None;
    }
    let terminal: Option<PeerId> = if n == 2 {
        assert(address@[1] == address.protocols@[1]@);
        match &address.protocols[1] {
            Protocol::P2p(peer) => Some(*peer),
            _ => {
                return None;
            },
        }
    } else {
        None
    };
    let hostname = hostname_of_hash(hash);
    proof {
        reveal_strlit(".onion");
        host_names_tell_services_apart(hash@, hash@);
        assert forall|bytes: Seq<u8>|
            lower_text(hostname@) == #[trigger] onion_hostname(bytes) implies bytes == hash@ by {
            host_names_tell_services_apart(hash@, bytes);
        }
    }
    if !is_onion_hostname(hostname.as_str()) {
        return None;
    }
    let onion_peer = match peer_id_from_onion_hash(hash) {
        Some(peer) => peer,
        None => {
            return None;
        },
    };
    if let Some(peer) = terminal {
        if !peer.equals(&onion_peer) {
            return None;
        }
    }
    Some((hostname, port, terminal))
}

/// The host name and port to connect to for an onion address.
pub fn parse_onion_target(address: &Multiaddr) -> (target: Option<(String, u16)>)
    ensures
        target is Some == canonical_onion(address@),
        target matches Some((hostname, port)) ==> hostname@ == onion_hostname(
            address@[0]->Onion3_0,
        ) && port == ONION_SERVICE_PORT,
{
    match parse_canonical_onion_endpoint(address) {
        Some((hostname, port, _)) => Some((hostname, port)),
        None => None,
    }
}

/// Whether an address names an onion service.
pub fn is_onion_address(address: &Multiaddr) -> (result: bool)
    ensures
        result == is_onion(address@),
{
    address.is_onion()
}

/// Whether an address is that of an onion service in canonical form.
pub fn is_canonical_onion_address(address: &Multiaddr) -> (result: bool)
    ensures
        result == canonical_onion(address@),
{
    parse_canonical_onion_endpoint(address).is_some()
}

/// An onion address is canonical and holds the key of the node; any other
/// address is left alone.
pub open spec fn onion_matches_node(address: Seq<Component>, node: NodeId) -> bool {
    is_onion(address) ==> canonical_onion(address) && address[0]->Onion3_0 == onion_bytes(node)
}

/// Whether an address, where it is an onion address, is that of the node.
pub fn onion_address_matches_node(address: &Multiaddr, node: &NodeId) -> (result: bool)
    ensures
        result == onion_matches_node(address@, *node),
{
    if !address.is_onion() {
        return true;
    }
    match parse_canonical_onion_endpoint(address) {
        Some((hostname, _, _)) => {
            proof {
                host_names_tell_services_apart(address@[0]->Onion3_0, onion_bytes(*node));
            }
            hostname == node.onion_hostname()
        },
        None => false,
    }
}

/// An onion address holds the key of the peer; any other address is left
/// alone.
pub open spec fn onion_matches_peer(address: Seq<Component>, peer: PeerId) -> bool {
    is_onion(address) ==> canonical_onion(address) && onion_peer(address[0]->Onion3_0) == Some(peer)
}

/// Whether an address, where it is an onion address, holds the key of the
/// peer.
pub fn onion_address_matches_peer(address: &Multiaddr, peer: PeerId) -> (result: bool)
    ensures
        result == onion_matches_peer(address@, peer),
{
    if !address.is_onion() {
        return true;
    }
    if address.protocols.len() == 0 {
        return false;
    }
    assert(address@[0] == address.protocols@[0]@);
    let hash: &[u8; 35] = match &address.protocols[0] {
        Protocol::Onion3(hash, _) => hash,
        _ => {
            return false;
        },
    };
    if parse_canonical_onion_endpoint(address).is_none() {
        return false;
    }
    match peer_id_from_onion_hash(hash) {
        Some(onion) => onion.equals(&peer),
        None => false,
    }
}

/// A canonical onion address is bound to one peer: it matches the peer whose
/// key it holds and no other.
pub proof fn canonical_onion_binds_one_peer(address: Seq<Component>, a: PeerId, b: PeerId)
    requires
        canonical_onion(address),
        onion_matches_peer(address, a),
        onion_matches_peer(address, b),
    ensures
        a == b,
        onion_matches_peer(address, onion_peer(address[0]->Onion3_0)->0),
{
    assert(address[0] is Onion3);
    assert(is_onion(address));
}

/// The identity of a node is sound: its checksum is that of its key, which is
/// the key of a peer.
pub open spec fn sound_node(node: NodeId) -> bool {
    node.onion_checksum@ == onion_checksum(node.key@) && peer_of_key(node.key@) is Some
}

/// An address that names no onion service matches every node. One that names an
/// onion service in any but the canonical form (on another port, with another
/// checksum or version than those of its key, behind another part, before a
/// foreign part) matches no node. The address on which the service of a node
/// listens matches that node and no other.
pub proof fn onion_addresses_match_their_node(address: Seq<Component>, node: NodeId, other: NodeId)
    ensures
        !is_onion(address) ==> onion_matches_node(address, node),
        is_onion(address) && !canonical_onion(address) ==> !onion_matches_node(address, node),
        is_onion(address) && (address.len() > 2 || !(address[0] is Onion3)
            || address[0]->Onion3_1 != ONION_SERVICE_PORT || !sound_onion(address[0]->Onion3_0)
            || address.len() == 2 && !(address[1] is P2p)) ==> !onion_matches_node(address, node),
        is_onion(onion_listener(node)),
        sound_node(node) ==> canonical_onion(onion_listener(node)),
        sound_node(node) ==> onion_matches_node(onion_listener(node), node),
        sound_node(node) && sound_node(other) ==> (onion_matches_node(onion_listener(node), other)
            <==> node == other),
        onion_matches_node(onion_listener(node), other) ==> node == other,
{
    let listener = onion_listener(node);
    assert(listener[0] is Onion3);
    let bytes = onion_bytes(node);
    assert(bytes.take(32) =~= node.key@);
    assert(bytes.subrange(32, 34) =~= node.onion_checksum@);
    if bytes == onion_bytes(other) {
        assert(onion_bytes(other).take(32) =~= other.key@);
        assert(onion_bytes(other).subrange(32, 34) =~= other.onion_checksum@);
        assert(node.key == other.key);
        assert(node.onion_checksum == other.onion_checksum);
    }
}

/// Adding the peer whose key it holds to a bare canonical onion address, or
/// taking it away, leaves the address canonical.
pub proof fn canonical_onion_with_and_without_peer(address: Seq<Component>)
    requires
        canonical_onion(address),
    ensures
        canonical_onion(seq![address[0]]),
        canonical_onion(
            seq![address[0], Component::P2p(onion_peer(address[0]->Onion3_0)->0)],
        ),
{
}

/// What the onion transport tells the swarm. The address of every listener is
/// the one address of the service.
#[derive(Debug)]
pub enum OnionEvent {
    NewAddress(u64),
    AddressExpired(u64),
    Incoming(u64),
    ListenerError(u64, String),
    ListenerClosed(u64),
}

/// What came out of the acceptor of onion streams.
#[derive(Debug)]
pub enum InboundStream {
    Stream,
    Error(String),
    Stopped,
}

/// The listeners of the onion service, whether the network can reach it, and
/// the events that wait to be handed out.
pub struct OnionListeners {
    pub listen_address: Multiaddr,
    pub listeners: Vec<u64>,
    pub pending: Vec<OnionEvent>,
    pub reachable: bool,
}

/// The events that tell every listener of a change of reachability.
pub open spec fn reachability_events(listeners: Seq<u64>, reachable: bool) -> Seq<OnionEvent> {
    listeners.map_values(
        |id: u64|
            if reachable {
                OnionEvent::NewAddress(id)
            } else {
                OnionEvent::AddressExpired(id)
            },
    )
}

/// The place of an id in a list without repetition.
fn position_of(list: &Vec<u64>, id: u64) -> (at: Option<usize>)
    ensures
        at matches Some(i) ==> i < list@.len() && list@[i as int] == id,
        at is None ==> !list@.contains(id),
{
    let mut i: usize = 0;
    while i < list.len()
        invariant
            i <= list@.len(),
            forall|k: int| 0 <= k < i ==> list@[k] != id,
        decreases list@.len() - i,
    {
        if list[i] == id {
            return Some(i);
        }
        i += 1;
    }
    None
}

impl OnionListeners {
    pub open spec fn wf(&self) -> bool {
        self.listeners@.no_duplicates()
    }

    pub fn new(listen_address: Multiaddr, reachable: bool) -> (state: Self)
        ensures
            state.wf(),
            state.listen_address@ == listen_address@,
            state.listeners@ == Seq::<u64>::empty(),
            state.pending@ == Seq::<OnionEvent>::empty(),
            state.reachable == reachable,
    {
        OnionListeners { listen_address, listeners: Vec::new(), pending: Vec::new(), reachable }
    }

    /// Notes whether the service can be reached; a change is told to every
    /// listener.
    pub fn change_reachability(&mut self, reachable: bool)
        requires
            old(self).wf(),
        ensures
            final(self).wf(),
            final(self).reachable == reachable,
            final(self).listeners@ == old(self).listeners@,
            final(self).listen_address@ == old(self).listen_address@,
            final(self).pending@ == old(self).pending@ + (if old(self).reachable == reachable {
                Seq::empty()
            } else {
                reachability_events(old(self).listeners@, reachable)
            }),
    {
        if self.reachable == reachable {
            assert(self.pending@ =~= old(self).pending@ + Seq::<OnionEvent>::empty());
            return;
        }
        self.reachable = reachable;
        let mut i: usize = 0;
        let ghost events = reachability_events(self.listeners@, reachable);
        assert(self.pending@ =~= old(self).pending@ + events.take(0));
        while i < self.listeners.len()
            invariant
                i <= self.listeners@.len(),
                self.listeners@ == old(self).listeners@,
                self.listen_address@ == old(self).listen_address@,
                self.reachable == reachable,
                events == reachability_events(self.listeners@, reachable),
                self.pending@ == old(self).pending@ + events.take(i as int),
            decreases self.listeners@.len() - i,
        {
            let id: u64 = self.listeners[i];
            if reachable {
                self.pending.push(OnionEvent::NewAddress(id));
            } else {
                self.pending.push(OnionEvent::AddressExpired(id));
            }
            assert(events.take(i + 1) =~= events.take(i as int).push(events[i as int]));
            assert(self.pending@ =~= old(self).pending@ + events.take(i + 1));
            i += 1;
        }
        assert(events.take(i as int) =~= events);
    }

    /// Adds a listener; only the address of the service is accepted.
    pub fn listen_on(&mut self, id: u64, address: &Multiaddr) -> (accepted: bool)
        requires
            old(self).wf(),
        ensures
            final(self).wf(),
            accepted == (address@ == old(self).listen_address@),
            final(self).reachable == old(self).reachable,
            final(self).listen_address@ == old(self).listen_address@,
            final(self).listeners@ == (if accepted && !old(self).listeners@.contains(id) {
                old(self).listeners@.push(id)
            } else {
                old(self).listeners@
            }),
            final(self).pending@ == (if accepted && old(self).reachable {
                old(self).pending@.push(OnionEvent::NewAddress(id))
            } else {
                old(self).pending@
            }),
    {
        if !address.same(&self.listen_address) {
            return false;
        }
        if position_of(&self.listeners, id).is_none() {
            self.listeners.push(id);
        }
        if self.reachable {
            self.pending.push(OnionEvent::NewAddress(id));
        }
        true
    }

    /// Takes a listener out; says whether it was there.
    pub fn remove_listener(&mut self, id: u64) -> (removed: bool)
        requires
            old(self).wf(),
        ensures
            final(self).wf(),
            removed == old(self).listeners@.contains(id),
            final(self).reachable == old(self).reachable,
            final(self).listen_address@ == old(self).listen_address@,
            final(self).listeners@.to_set() == old(self).listeners@.to_set().remove(id),
            !removed ==> final(self).listeners@ == old(self).listeners@,
            final(self).pending@ == (if removed && old(self).reachable {
                old(self).pending@.push(OnionEvent::AddressExpired(id))
            } else {
                old(self).pending@
            }),
    {
        match position_of(&self.listeners, id) {
            Some(at) => {
                self.listeners.remove(at);
                proof {
                    lemma_remove_id(old(self).listeners@, at as int);
                }
                if self.reachable {
                    self.pending.push(OnionEvent::AddressExpired(id));
                }
                true
            },
            None => {
                assert(self.listeners@.to_set() =~= old(self).listeners@.to_set().remove(id));
                false
            },
        }
    }

    /// The event that waits longest.
    pub fn next_event(&mut self) -> (event: Option<OnionEvent>)
        requires
            old(self).wf(),
        ensures
            final(self).wf(),
            final(self).reachable == old(self).reachable,
            final(self).listeners@ == old(self).listeners@,
            final(self).listen_address@ == old(self).listen_address@,
            match event {
                Some(event) => old(self).pending@ == seq![event] + final(self).pending@,
                None => old(self).pending@.len() == 0 && final(self).pending@.len() == 0,
            },
    {
        if self.pending.len() == 0 {
            return None;
        }
        let event = self.pending.remove(0);
        assert(old(self).pending@ =~= seq![event] + self.pending@);
        Some(event)
    }

    /// Takes what the acceptor gave. Without a listener nothing may be taken,
    /// so that a stream that comes early is kept for the first listener.
    pub fn accept(&mut self, inbound: InboundStream) -> (event: OnionEvent)
        requires
            old(self).wf(),
            old(self).listeners@.len() > 0,
        ensures
            final(self).wf(),
            final(self).reachable == old(self).reachable,
            final(self).listen_address@ == old(self).listen_address@,
            ({
                let first = old(self).listeners@[0];
                match inbound {
                    InboundStream::Stream => {
                        &&& event == OnionEvent::Incoming(first)
                        &&& final(self).listeners@ == old(self).listeners@
                        &&& final(self).pending@ == old(self).pending@
                    },
                    InboundStream::Error(message) => {
                        &&& event == OnionEvent::ListenerError(first, message)
                        &&& final(self).listeners@ == old(self).listeners@
                        &&& final(self).pending@ == old(self).pending@
                    },
                    InboundStream::Stopped => {
                        &&& final(self).listeners@ == old(self).listeners@.drop_first()
                        &&& event == (if old(self).reachable {
                            OnionEvent::AddressExpired(first)
                        } else {
                            OnionEvent::ListenerClosed(first)
                        })
                        &&& final(self).pending@ == (if old(self).reachable {
                            old(self).pending@.push(OnionEvent::ListenerClosed(first))
                        } else {
                            old(self).pending@
                        })
                    },
                }
            }),
    {
        let first: u64 = self.listeners[0];
        match inbound {
            InboundStream::Stream => OnionEvent::Incoming(first),
            InboundStream::Error(message) => OnionEvent::ListenerError(first, message),
            InboundStream::Stopped => {
                self.listeners.remove(0);
                assert(self.listeners@ =~= old(self).listeners@.drop_first());
                if self.reachable {
                    self.pending.push(OnionEvent::ListenerClosed(first));
                    OnionEvent::AddressExpired(first)
                } else {
                    OnionEvent::ListenerClosed(first)
                }
            },
        }
    }
}

proof fn lemma_remove_id(list: Seq<u64>, at: int)
    requires
        0 <= at < list.len(),
        list.no_duplicates(),
    ensures
        list.remove(at).no_duplicates(),
        list.remove(at).to_set() == list.to_set().remove(list[at]),
{
    let after = list.remove(at);
    assert forall|id: u64| after.to_set().contains(id) == list.to_set().remove(list[at]).contains(
        id,
    ) by {
        if list.contains(id) && id != list[at] {
            let k = choose|k: int| 0 <= k < list.len() && list[k] == id;
            assert(after[if k < at { k } else { k - 1 }] == id);
        }
        if after.contains(id) {
            let k = choose|k: int| 0 <= k < after.len() && after[k] == id;
            assert(list[if k < at { k } else { k + 1 }] == id);
        }
    }
    assert(after.to_set() =~= list.to_set().remove(list[at]));
}

/// Every listener is told when the service can be reached and when it cannot any more,
/// in the order in which they listen.
pub proof fn every_listener_hears_of_reachability(listeners: Seq<u64>, i: int)
    requires
        0 <= i < listeners.len(),
    ensures
        reachability_events(listeners, true).len() == listeners.len(),
        reachability_events(listeners, false).len() == listeners.len(),
        reachability_events(listeners, true)[i] == OnionEvent::NewAddress(listeners[i]),
        reachability_events(listeners, false)[i] == OnionEvent::AddressExpired(listeners[i]),
{
}

} // verus!
