//! Which transport paths the Tor mode allows, and which it prefers.

use crate::address::{is_circuit, is_onion, AddressSet, Component, Multiaddr, PeerId};
use crate::table::KeySet;
use crate::tor::{canonical_onion, is_canonical_onion_address, TorMode};
use vstd::prelude::*;

verus! {

/// How a connection reaches its peer.
#[derive(Clone, Copy, Debug, PartialEq, Eq, PartialOrd, Ord, Structural)]
pub enum P2pPath {
    Direct,
    Relayed,
    HolePunched,
    RelayFallback,
    Tor,
}

/// The path of a connection that is reported again: a hole-punched connection
/// stays one.
pub open spec fn merged_path(recorded: Option<P2pPath>, generic: P2pPath) -> P2pPath {
    if recorded == Some(P2pPath::HolePunched) {
        P2pPath::HolePunched
    } else {
        generic
    }
}

/// The path of a connection that is reported again.
pub fn merge_established_path(recorded: Option<P2pPath>, generic: P2pPath) -> (path: P2pPath)
    ensures
        path == merged_path(recorded, generic),
{
    match recorded {
        Some(P2pPath::HolePunched) => P2pPath::HolePunched,
        _ => generic,
    }
}

/// The mode lets the node use the address. An onion address must be canonical
/// under every mode.
pub open spec fn address_allowed(mode: TorMode, address: Seq<Component>) -> bool {
    &&& is_onion(address) ==> canonical_onion(address)
    &&& mode == TorMode::DisableTor ==> !is_onion(address)
    &&& mode == TorMode::RequireTor ==> canonical_onion(address)
}

/// Whether the mode lets the node use an address.
pub fn address_allowed_by_tor_mode(mode: TorMode, address: &Multiaddr) -> (allowed: bool)
    ensures
        allowed == address_allowed(mode, address@),
{
    if address.is_onion() && !is_canonical_onion_address(address) {
        return false;
    }
    match mode {
        TorMode::DisableTor => !address.is_onion(),
        TorMode::RequireTor => is_canonical_onion_address(address),
        TorMode::Auto | TorMode::PreferTor => true,
    }
}

/// Whether a transport may dial an address or listen on it.
pub fn transport_address_allowed(mode: TorMode, address: &Multiaddr) -> (allowed: bool)
    ensures
        allowed == address_allowed(mode, address@),
{
    address_allowed_by_tor_mode(mode, address)
}

/// A transport that is used only as the mode allows.
pub struct PolicyTransport<T> {
    pub inner: T,
    pub mode: TorMode,
}

impl<T> PolicyTransport<T> {
    pub fn new(inner: T, mode: TorMode) -> (transport: Self)
        ensures
            transport.inner == inner,
            transport.mode == mode,
    {
        PolicyTransport { inner, mode }
    }

    /// Whether the transport may listen on an address, or dial it.
    pub fn admits(&self, address: &Multiaddr) -> (admitted: bool)
        ensures
            admitted == address_allowed(self.mode, address@),
    {
        transport_address_allowed(self.mode, address)
    }
}

/// Whether a relay serves a peer: only members of the guild, and nobody while
/// the members cannot be read.
pub fn guild_relay_admission(members: Option<&KeySet<PeerId>>, peer: PeerId) -> (admitted: bool)
    requires
        members matches Some(members) ==> members.wf(),
    ensures
        admitted == (members matches Some(members) && members@.contains(peer)),
{
    match members {
        Some(members) => members.contains(peer),
        None => false,
    }
}

/// The mode lets the node use a path.
pub open spec fn path_allowed(mode: TorMode, path: P2pPath) -> bool {
    &&& mode == TorMode::DisableTor ==> path != P2pPath::Tor
    &&& mode == TorMode::RequireTor ==> path == P2pPath::Tor
}

/// Whether the mode lets the node use a path.
pub fn transport_path_allowed(mode: TorMode, path: P2pPath) -> (allowed: bool)
    ensures
        allowed == path_allowed(mode, path),
{
    match mode {
        TorMode::DisableTor => path != P2pPath::Tor,
        TorMode::RequireTor => path == P2pPath::Tor,
        TorMode::Auto | TorMode::PreferTor => true,
    }
}

/// The tier of a path under a mode; a smaller one is preferred.
pub open spec fn path_rank(mode: TorMode, path: P2pPath) -> u8 {
    match mode {
        TorMode::RequireTor => if path == P2pPath::Tor {
            0
        } else {
            1
        },
        TorMode::PreferTor => match path {
            P2pPath::Tor => 0,
            P2pPath::Direct | P2pPath::HolePunched => 1,
            P2pPath::Relayed | P2pPath::RelayFallback => 2,
        },
        TorMode::Auto | TorMode::DisableTor => match path {
            P2pPath::Direct | P2pPath::HolePunched => 0,
            P2pPath::Relayed | P2pPath::RelayFallback => 1,
            P2pPath::Tor => 2,
        },
    }
}

/// The tier of a path under a mode.
pub fn path_preference_rank(mode: TorMode, path: P2pPath) -> (rank: u8)
    ensures
        rank == path_rank(mode, path),
        rank <= 2,
{
    match mode {
        TorMode::Auto | TorMode::DisableTor => match path {
            P2pPath::Direct | P2pPath::HolePunched => 0,
            P2pPath::Relayed | P2pPath::RelayFallback => 1,
            P2pPath::Tor => 2,
        },
        TorMode::PreferTor => match path {
            P2pPath::Tor => 0,
            P2pPath::Direct | P2pPath::HolePunched => 1,
            P2pPath::Relayed | P2pPath::RelayFallback => 2,
        },
        TorMode::RequireTor => match path {
            P2pPath::Tor => 0,
            _ => 1,
        },
    }
}

/// A connection is to be retired: the mode forbids its path, or a connection
/// at the selected tier is there and this one is of another tier.
pub open spec fn retires(
    mode: TorMode,
    path: P2pPath,
    selected_tier: Option<u8>,
    selected_connection_exists: bool,
) -> bool {
    ||| !path_allowed(mode, path)
    ||| selected_connection_exists && selected_tier is Some && path_rank(mode, path)
        != selected_tier->0
}

/// Whether a connection is to be retired.
pub fn should_retire_non_policy_connection(
    mode: TorMode,
    path: P2pPath,
    selected_tier: Option<u8>,
    selected_connection_exists: bool,
) -> (retire: bool)
    ensures
        retire == retires(mode, path, selected_tier, selected_connection_exists),
{
    if !transport_path_allowed(mode, path) {
        return true;
    }
    if !selected_connection_exists {
        return false;
    }
    match selected_tier {
        Some(tier) => path_preference_rank(mode, path) != tier,
        None => false,
    }
}

/// The path that dialling an address leads to.
pub open spec fn path_of_address(address: Seq<Component>) -> P2pPath {
    if is_onion(address) {
        P2pPath::Tor
    } else if is_circuit(address) {
        P2pPath::Relayed
    } else {
        P2pPath::Direct
    }
}

/// The path that dialling an address leads to.
pub fn address_path(address: &Multiaddr) -> (path: P2pPath)
    ensures
        path == path_of_address(address@),
{
    if address.is_onion() {
        P2pPath::Tor
    } else if address.is_circuit() {
        P2pPath::Relayed
    } else {
        P2pPath::Direct
    }
}

/// The two ends of a connection, as far as its path depends on them.
#[derive(Debug)]
pub enum ConnectedPoint {
    Dialer { address: Multiaddr },
    Listener { local_addr: Multiaddr },
}

/// The path of a connection: relayed if it goes through a circuit, else by
/// the dialled or the local address.
pub open spec fn path_of_endpoint(endpoint: ConnectedPoint) -> P2pPath {
    let address = match endpoint {
        ConnectedPoint::Dialer { address } => address@,
        ConnectedPoint::Listener { local_addr } => local_addr@,
    };
    if is_circuit(address) {
        P2pPath::Relayed
    } else if is_onion(address) {
        P2pPath::Tor
    } else {
        P2pPath::Direct
    }
}

/// The path of a connection.
pub fn connected_point_path(endpoint: &ConnectedPoint) -> (path: P2pPath)
    ensures
        path == path_of_endpoint(*endpoint),
{
    let address: &Multiaddr = match endpoint {
        ConnectedPoint::Dialer { address } => address,
        ConnectedPoint::Listener { local_addr } => local_addr,
    };
    if address.is_circuit() {
        P2pPath::Relayed
    } else if address.is_onion() {
        P2pPath::Tor
    } else {
        P2pPath::Direct
    }
}

/// The addresses of a list that the mode allows and that are of a tier.
pub open spec fn tier_members(
    mode: TorMode,
    addresses: Set<Seq<Component>>,
    tier: u8,
) -> Set<Seq<Component>> {
    addresses.filter(
        |address: Seq<Component>|
            address_allowed(mode, address) && path_rank(mode, path_of_address(address)) == tier,
    )
}

/// Addresses by tier.
pub struct PolicyTiers {
    pub first: AddressSet,
    pub second: AddressSet,
    pub third: AddressSet,
}

impl PolicyTiers {
    pub open spec fn wf(&self) -> bool {
        self.first.wf() && self.second.wf() && self.third.wf()
    }

    /// The addresses of a tier.
    pub open spec fn tier(&self, tier: u8) -> Set<Seq<Component>> {
        if tier == 0 {
            self.first@
        } else if tier == 1 {
            self.second@
        } else if tier == 2 {
            self.third@
        } else {
            Set::empty()
        }
    }
}

/// The views of a list of addresses.
pub open spec fn views(addresses: Seq<Multiaddr>) -> Seq<Seq<Component>> {
    addresses.map_values(|address: Multiaddr| address@)
}

/// Sorts addresses into the tiers of a mode; what the mode forbids is left out.
pub fn policy_address_tiers(mode: TorMode, addresses: &Vec<Multiaddr>) -> (tiers: PolicyTiers)
    ensures
        tiers.wf(),
        forall|tier: u8| tier <= 2 ==> #[trigger] tiers.tier(tier) == tier_members(
            mode,
            views(addresses@).to_set(),
            tier,
        ),
{
    let mut tiers = PolicyTiers {
        first: AddressSet::new(),
        second: AddressSet::new(),
        third: AddressSet::new(),
    };
    let mut i: usize = 0;
    assert forall|tier: u8| tier <= 2 implies #[trigger] tiers.tier(tier) == tier_members(
        mode,
        views(addresses@).take(0).to_set(),
        tier,
    ) by {
        assert(tiers.tier(tier) =~= tier_members(
            mode,
            views(addresses@).take(0).to_set(),
            tier,
        ));
    }
    while i < addresses.len()
        invariant
            i <= addresses@.len(),
            tiers.wf(),
            forall|tier: u8| tier <= 2 ==> #[trigger] tiers.tier(tier) == tier_members(
                mode,
                views(addresses@).take(i as int).to_set(),
                tier,
            ),
        decreases addresses@.len() - i,
    {
        let ghost before = tiers;
        let ghost taken = views(addresses@).take(i as int);
        let ghost address = addresses@[i as int]@;
        if address_allowed_by_tor_mode(mode, &addresses[i]) {
            let copy = addresses[i].duplicate();
            match path_preference_rank(mode, address_path(&addresses[i])) {
                0 => {
                    let _ = tiers.first.insert(copy);
                },
                1 => {
                    let _ = tiers.second.insert(copy);
                },
                _ => {
                    let _ = tiers.third.insert(copy);
                },
            }
        }
        proof {
            let next = views(addresses@).take(i + 1);
            assert(next =~= taken.push(address));
            crate::ordered::lemma_push_set(taken, address);
            assert forall|tier: u8| tier <= 2 implies #[trigger] tiers.tier(tier) == tier_members(
                mode,
                next.to_set(),
                tier,
            ) by {
                assert(before.tier(tier) == tier_members(mode, taken.to_set(), tier));
                assert(tiers.tier(tier) =~= tier_members(mode, next.to_set(), tier));
            }
        }
        i += 1;
    }
    assert(views(addresses@).take(i as int) =~= views(addresses@));
    tiers
}

/// The tier to use: the first one from the requested on that has addresses,
/// else the first that has any, else the first.
pub open spec fn selected_tier(
    mode: TorMode,
    addresses: Set<Seq<Component>>,
    requested: u8,
) -> u8 {
    let empty = Set::<Seq<Component>>::empty();
    if requested <= 0 && tier_members(mode, addresses, 0) != empty {
        0
    } else if requested <= 1 && tier_members(mode, addresses, 1) != empty {
        1
    } else if requested <= 2 && tier_members(mode, addresses, 2) != empty {
        2
    } else if tier_members(mode, addresses, 0) != empty {
        0
    } else if tier_members(mode, addresses, 1) != empty {
        1
    } else if tier_members(mode, addresses, 2) != empty {
        2
    } else {
        0
    }
}

/// The addresses of the tier to use.
pub open spec fn selected_addresses(
    mode: TorMode,
    addresses: Set<Seq<Component>>,
    requested: u8,
) -> Set<Seq<Component>> {
    tier_members(mode, addresses, selected_tier(mode, addresses, requested))
}

/// The tier to use and its addresses.
pub fn selected_policy_addresses(
    mode: TorMode,
    addresses: &Vec<Multiaddr>,
    requested_tier: u8,
) -> (selected: (u8, AddressSet))
    ensures
        selected.1.wf(),
        selected.0 == selected_tier(mode, views(addresses@).to_set(), requested_tier),
        selected.1@ == selected_addresses(mode, views(addresses@).to_set(), requested_tier),
{
    let tiers = policy_address_tiers(mode, addresses);
    let ghost all = views(addresses@).to_set();
    assert(tiers.tier(0) == tier_members(mode, all, 0));
    assert(tiers.tier(1) == tier_members(mode, all, 1));
    assert(tiers.tier(2) == tier_members(mode, all, 2));
    let has_first = !tiers.first.is_empty();
    let has_second = !tiers.second.is_empty();
    let has_third = !tiers.third.is_empty();
    if requested_tier == 0 && has_first {
        (0, tiers.first)
    } else if requested_tier <= 1 && has_second {
        (1, tiers.second)
    } else if requested_tier <= 2 && has_third {
        (2, tiers.third)
    } else if has_first {
        (0, tiers.first)
    } else if has_second {
        (1, tiers.second)
    } else {
        if has_third {
            (2, tiers.third)
        } else {
            (0, tiers.first)
        }
    }
}

/// The addresses of every tier before the current one, tier by tier.
pub fn next_preferred_addresses(tiers: &PolicyTiers, current_tier: u8) -> (addresses: Vec<
    Multiaddr,
>)
    requires
        tiers.wf(),
    ensures
        views(addresses@) == (if current_tier == 0 {
            Seq::empty()
        } else if current_tier == 1 {
            tiers.first.seq()
        } else if current_tier == 2 {
            tiers.first.seq() + tiers.second.seq()
        } else {
            tiers.first.seq() + tiers.second.seq() + tiers.third.seq()
        }),
{
    let mut addresses: Vec<Multiaddr> = Vec::new();
    if current_tier > 0 {
        append_members(&mut addresses, &tiers.first);
    }
    if current_tier > 1 {
        append_members(&mut addresses, &tiers.second);
    }
    if current_tier > 2 {
        append_members(&mut addresses, &tiers.third);
    }
    assert(views(addresses@) =~= (if current_tier == 0 {
        Seq::empty()
    } else if current_tier == 1 {
        tiers.first.seq()
    } else if current_tier == 2 {
        tiers.first.seq() + tiers.second.seq()
    } else {
        tiers.first.seq() + tiers.second.seq() + tiers.third.seq()
    }));
    addresses
}

fn append_members(list: &mut Vec<Multiaddr>, set: &AddressSet)
    ensures
        views(final(list)@) == views(old(list)@) + set.seq(),
{
    let mut members = set.to_vec();
    let ghost added = members@;
    list.append(&mut members);
    assert(views(list@) =~= views(old(list)@) + views(added));
    assert(views(added) =~= crate::ordered::models(added));
}

/// Every address selected for use is one that the mode allows, and all of them
/// lead to paths of the selected tier.
pub proof fn selection_obeys_the_mode(
    mode: TorMode,
    addresses: Set<Seq<Component>>,
    requested: u8,
    address: Seq<Component>,
)
    requires
        selected_addresses(mode, addresses, requested).contains(address),
    ensures
        addresses.contains(address),
        address_allowed(mode, address),
        path_allowed(mode, path_of_address(address)),
        path_rank(mode, path_of_address(address)) == selected_tier(mode, addresses, requested),
{
    if mode == TorMode::RequireTor {
        assert(address[0] is Onion3);
    }
}

/// Nothing is selected only where the mode allows none of the addresses.
pub proof fn selection_is_empty_only_without_allowed_addresses(
    mode: TorMode,
    addresses: Set<Seq<Component>>,
    requested: u8,
    address: Seq<Component>,
)
    requires
        addresses.contains(address),
        address_allowed(mode, address),
    ensures
        selected_addresses(mode, addresses, requested) != Set::<Seq<Component>>::empty(),
{
    let rank = path_rank(mode, path_of_address(address));
    assert(rank <= 2);
    assert(tier_members(mode, addresses, rank).contains(address));
}

/// A connection whose path the mode allows is retired only while a connection
/// at the selected tier is there to replace it; one whose path the mode
/// forbids is retired in any case.
pub proof fn retirement_needs_a_replacement(
    mode: TorMode,
    path: P2pPath,
    tier: Option<u8>,
    replacement: bool,
)
    ensures
        path_allowed(mode, path) && !replacement ==> !retires(mode, path, tier, replacement),
        !path_allowed(mode, path) ==> retires(mode, path, tier, replacement),
        tier == Some(path_rank(mode, path)) && path_allowed(mode, path) ==> !retires(
            mode,
            path,
            tier,
            replacement,
        ),
{
}

/// The path that the mode requires is its most preferred one, and no allowed
/// path ranks behind a forbidden one.
pub proof fn allowed_paths_rank_first(mode: TorMode, allowed: P2pPath, forbidden: P2pPath)
    requires
        path_allowed(mode, allowed),
        !path_allowed(mode, forbidden),
    ensures
        path_rank(mode, allowed) < path_rank(mode, forbidden),
{
}

/// The nearest tier at which there is an allowed address is selected, at the one that
/// was asked for or behind it; where none is behind it, the first of all. A tier holds
/// just the allowed addresses of the paths of its rank.
pub proof fn the_nearest_tier_is_selected(
    mode: TorMode,
    addresses: Set<Seq<Component>>,
    requested: u8,
    address: Seq<Component>,
)
    requires
        addresses.contains(address),
        address_allowed(mode, address),
    ensures
        ({
            let rank = path_rank(mode, path_of_address(address));
            let selected = selected_tier(mode, addresses, requested);
            &&& requested <= rank ==> requested <= selected <= rank
            &&& selected < requested ==> selected <= rank < requested
            &&& exists|other: Seq<Component>| #[trigger]
                addresses.contains(other) && address_allowed(mode, other) && path_rank(
                    mode,
                    path_of_address(other),
                ) == selected
            &&& selected_addresses(mode, addresses, requested).contains(address) <==> rank
                == selected
        }),
{
    let rank = path_rank(mode, path_of_address(address));
    let selected = selected_tier(mode, addresses, requested);
    assert(tier_members(mode, addresses, rank).contains(address));
    let members = tier_members(mode, addresses, selected);
    assert(members != Set::<Seq<Component>>::empty());
    assert(exists|other: Seq<Component>| members.contains(other)) by {
        if forall|other: Seq<Component>| !members.contains(other) {
            assert(members =~= Set::empty());
        }
    }
    let other = choose|other: Seq<Component>| members.contains(other);
    assert(addresses.contains(other));
}

} // verus!
