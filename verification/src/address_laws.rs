//! Which addresses a node uses for a peer, how it comes to know them, and how
//! long.

use crate::address::{
    address_text, is_circuit, is_onion, last_peer, terminal_peer, Component, PeerId,
};
use crate::book::{
    expiry, filled_in, normalized, usable_addresses, BookModel, KnownAddressProblem, LearnError,
    RecoveryAddressError,
};
use crate::discovery::IdentifyError;
use crate::endpoints::text_bytes;
use crate::loop_state::{ActionModel, LoopModel, PolicyDialKind};
use crate::policy::{address_allowed, path_allowed, path_of_address, path_rank, P2pPath};
use crate::tor::{canonical_onion, onion_matches_peer, TorMode};
use vstd::prelude::*;

verus! {

/// Onion addresses lead over Tor, circuits over relays, and all others directly;
/// what leads over Tor is forbidden where Tor is off, and all else where Tor is
/// required. Without a preference the direct way comes first and Tor last; with
/// one for Tor, Tor comes first and relays last. A punched hole is as good as a
/// direct way, and a fallback as a relay.
pub proof fn the_mode_orders_the_ways(mode: TorMode, address: Seq<Component>)
    ensures
        path_of_address(address) == (if is_onion(address) {
            P2pPath::Tor
        } else if is_circuit(address) {
            P2pPath::Relayed
        } else {
            P2pPath::Direct
        }),
        path_rank(mode, P2pPath::HolePunched) == path_rank(mode, P2pPath::Direct),
        path_rank(mode, P2pPath::RelayFallback) == path_rank(mode, P2pPath::Relayed),
        mode == TorMode::Auto || mode == TorMode::DisableTor ==> path_rank(mode, P2pPath::Direct)
            == 0 && path_rank(mode, P2pPath::Relayed) == 1 && path_rank(mode, P2pPath::Tor) == 2,
        mode == TorMode::PreferTor ==> path_rank(mode, P2pPath::Tor) == 0 && path_rank(
            mode,
            P2pPath::Direct,
        ) == 1 && path_rank(mode, P2pPath::Relayed) == 2,
        mode == TorMode::RequireTor ==> path_rank(mode, P2pPath::Tor) == 0 && path_rank(
            mode,
            P2pPath::Direct,
        ) == 1 && path_rank(mode, P2pPath::Relayed) == 1,
        path_allowed(mode, P2pPath::Tor) == (mode != TorMode::DisableTor),
        path_allowed(mode, P2pPath::Direct) == (mode != TorMode::RequireTor),
        path_allowed(mode, P2pPath::Relayed) == (mode != TorMode::RequireTor),
        path_allowed(mode, P2pPath::HolePunched) == (mode != TorMode::RequireTor),
        path_allowed(mode, P2pPath::RelayFallback) == (mode != TorMode::RequireTor),
        is_onion(address) ==> (address_allowed(mode, address) <==> canonical_onion(address) && mode
            != TorMode::DisableTor),
        !is_onion(address) && mode != TorMode::RequireTor ==> address_allowed(mode, address),
        address_allowed(mode, address) && mode == TorMode::RequireTor ==> canonical_onion(address),
{
}

/// The choice for a peer follows what is known of it. The transport is told to
/// know just the addresses that the node keeps of the peer, that the mode allows,
/// and that are of the tier in use, and of no other peer does anything change.
/// The tier in use is the selected one where there is an address, a healthy
/// connection or a dial at it; else the nearest behind it that has addresses, else
/// the first that has any.
pub proof fn the_transport_knows_the_addresses_of_the_tier(state: LoopModel, peer: PeerId)
    ensures
        ({
            let after = state.reconciled(peer);
            let tier = state.usable_tier(peer);
            let wanted = Set::new(
                |address: Seq<Component>|
                    state.book.retained(peer).contains(address) && address_allowed(
                        state.mode(),
                        address,
                    ) && path_rank(state.mode(), path_of_address(address)) == tier,
            );
            let known = if state.installed.contains_key(peer) {
                state.installed[peer]
            } else {
                Set::empty()
            };
            &&& after.installed_for(peer) =~= wanted
            &&& forall|other: PeerId|
                other != peer ==> (#[trigger] after.installed.contains_key(other)
                    == state.installed.contains_key(other)) && after.installed[other]
                    == state.installed[other]
            &&& known =~= wanted ==> after.actions == state.actions
            &&& !(known =~= wanted) ==> after.actions.len() == state.actions.len() + 1
                && (after.actions.last() matches ActionModel::Readdress {
                peer: about,
                removed,
                added,
            } && about == peer && removed =~= known.difference(wanted) && added
                =~= wanted.difference(known))
            &&& after.book == state.book && after.dials == state.dials && after.promotions
                == state.promotions
            &&& forall|other: PeerId|
                other != peer ==> #[trigger] after.tier(other) == state.tier(other)
            &&& after.tier(peer) == tier || after.tier(peer) == 0
        }),
        ({
            let asked = state.tier(peer);
            let tier = state.usable_tier(peer);
            let there = |t: u8| state.addressed(peer, t);
            &&& there(asked) || state.links.healthy_at(peer, asked, None) || state.dial_exists(
                peer,
                asked,
            ) ==> tier == asked
            &&& !(there(asked) || state.links.healthy_at(peer, asked, None) || state.dial_exists(
                peer,
                asked,
            )) && (there(0) || there(1) || there(2)) ==> {
                &&& there(tier)
                &&& tier <= 2
                &&& (exists|t: u8| asked <= t <= 2 && #[trigger] there(t)) ==> asked <= tier
                    && forall|t: u8| asked <= t < tier ==> !(#[trigger] there(t))
                &&& !(exists|t: u8| asked <= t <= 2 && #[trigger] there(t)) ==> forall|t: u8|
                    t < tier ==> !(#[trigger] there(t))
            }
        }),
{
    reveal(LoopModel::reconciled);
    let there = |t: u8| state.addressed(peer, t);
    assert(there(0) == state.addressed(peer, 0));
    assert(there(1) == state.addressed(peer, 1));
    assert(there(2) == state.addressed(peer, 2));
    let after = state.reconciled(peer);
    let tier = state.usable_tier(peer);
    let wanted = Set::new(
        |address: Seq<Component>|
            state.book.retained(peer).contains(address) && address_allowed(state.mode(), address)
                && path_rank(state.mode(), path_of_address(address)) == tier,
    );
    assert(state.members(peer, tier) =~= wanted);
}

/// A peer is dialled at its tier only if there is no healthy connection there and
/// no dial of it is under way, and then at just the addresses that the transport
/// knows of it, under a number of its own.
pub proof fn a_peer_is_dialled_once_at_its_tier(state: LoopModel, peer: PeerId)
    ensures
        ({
            let after = state.ensured(peer);
            let tier = state.tier(peer);
            let known = state.installed_for(peer);
            let needed = !state.links.healthy_at(peer, tier, None) && !state.dial_exists(peer, tier)
                && known != Set::<Seq<Component>>::empty();
            &&& !needed ==> after == state
            &&& needed ==> {
                let number = state.next_connection;
                &&& after.dials.contains_key(number)
                &&& after.dials[number].peer == peer
                &&& after.dials[number].tier == tier
                &&& after.dials[number].kind == PolicyDialKind::Selected
                &&& after.dials == state.dials.insert(number, after.dials[number])
                &&& after.actions == state.actions.push(
                    ActionModel::Dial { connection: number, peer, addresses: known },
                )
                &&& after.next_connection == number.wrapping_add(1)
            }
        }),
{
    reveal(LoopModel::ensured);
}

/// The tiers before the selected one are tried: where there is a healthy
/// connection it is noted as a promotion, and else a dial is made, as a probe.
pub proof fn better_tiers_are_probed(state: LoopModel, peer: PeerId, tier: u8, current: u8, now: u64)
    ensures
        ({
            let after = state.tier_tried(peer, tier, current, now);
            let tried = tier < current && state.addressed(peer, tier);
            &&& !tried ==> after == state
            &&& tried && state.links.healthy_at(peer, tier, None) ==> after == state.promoted(
                peer,
                tier,
                now,
            )
            &&& tried && !state.links.healthy_at(peer, tier, None) && !state.dial_exists(peer, tier)
                ==> {
                let number = state.next_connection;
                &&& after.dials.contains_key(number)
                &&& after.dials[number].peer == peer && after.dials[number].tier == tier
                &&& after.dials[number].kind == PolicyDialKind::PreferredProbe
                &&& after.actions == state.actions.push(
                    ActionModel::Dial {
                        connection: number,
                        peer,
                        addresses: state.members(peer, tier),
                    },
                )
            }
        }),
{
    reveal(LoopModel::tier_tried);
}

/// A promotion that is due selects its tier if its connection has lasted, and is
/// over either way; one that is not due stays.
pub proof fn a_promotion_is_selected_if_it_lasts(state: LoopModel, peer: PeerId, now: u64)
    ensures
        state.due_promotions(now).contains(peer) <==> state.promotions.contains_key(peer)
            && state.promotions[peer].deadline <= now,
{
}

/// The peer at the end of an address is taken away; nothing may be left over, and
/// an onion address must hold the key of the peer.
pub proof fn known_addresses_are_bare(peer: PeerId, address: Seq<Component>)
    ensures
        ({
            let bare = if last_peer(address) == Some(peer) {
                address.drop_last()
            } else {
                address
            };
            match normalized(peer, address) {
                Ok(base) => base == bare && base.len() > 0 && onion_matches_peer(base, peer),
                Err(KnownAddressProblem::NoTransport) => bare.len() == 0,
                Err(KnownAddressProblem::OnionMismatch) => bare.len() > 0 && !onion_matches_peer(
                    bare,
                    peer,
                ),
            }
        }),
{
}

/// What is learned of one peer says nothing of another, and nothing else in the
/// book changes. A learned address is there afterwards, with all that was there
/// before, for another quarter of an hour. It is refused where the cache has a
/// thousand and twenty-four other peers, or the peer as many addresses as it may.
pub proof fn a_learned_address_is_known(
    book: BookModel,
    peer: PeerId,
    other: PeerId,
    address: Seq<Component>,
    now: u64,
)
    requires
        normalized(peer, address) is Ok,
        address_allowed(book.mode, normalized(peer, address)->Ok_0),
        other != peer,
    ensures
        ({
            let base = normalized(peer, address)->Ok_0;
            let after = book.learned_with(peer, address, now);
            let known = book.learned.contains_key(peer);
            &&& after.learned.contains_key(peer)
            &&& after.learned[peer].addresses.contains(base)
            &&& forall|a: Seq<Component>| #[trigger]
                after.learned[peer].addresses.contains(a) <==> a == base || (known
                    && book.learned[peer].addresses.contains(a))
            &&& after.learned[peer].expires_at == now.saturating_add(900_000)
            &&& after.learned.contains_key(other) == book.learned.contains_key(other)
            &&& after.learned[other] == book.learned[other]
            &&& after == (BookModel { learned: after.learned, ..book })
            &&& book.learn_problem(peer, address) == (if !known && book.learned.dom().len() >= 1024 {
                Some(LearnError::CacheFull)
            } else if known && !book.learned[peer].addresses.contains(base)
                && book.learned[peer].addresses.len() >= book.limits.per_peer {
                Some(LearnError::TooManyEndpoints)
            } else {
                None
            })
        }),
{
}

/// Published addresses take the place of all that was learned of the peer: just
/// those that the mode allows are there afterwards, until they expire, and where
/// none is left the peer is forgotten. They are refused where they are too many or
/// have expired, where the cache is full, and where one of them is no address of
/// the peer.
pub proof fn published_addresses_take_the_place_of_others(
    book: BookModel,
    peer: PeerId,
    other: PeerId,
    addresses: Seq<Seq<Component>>,
    expires_at_unix: u64,
    now_unix: u64,
    now: u64,
)
    requires
        other != peer,
    ensures
        ({
            let after = book.replaced(peer, addresses, expires_at_unix, now_unix, now);
            let usable = usable_addresses(book.mode, peer, addresses);
            &&& usable == Set::<Seq<Component>>::empty() ==> !after.learned.contains_key(peer)
            &&& usable != Set::<Seq<Component>>::empty() ==> after.learned.contains_key(peer)
                && after.learned[peer].addresses == usable && after.learned[peer].expires_at
                == expiry(expires_at_unix, now_unix, now)
            &&& after.learned.contains_key(other) == book.learned.contains_key(other)
            &&& after.learned[other] == book.learned[other]
            &&& after == (BookModel { learned: after.learned, ..book })
            &&& addresses.len() > book.limits.per_peer ==> book.replace_problem(
                peer,
                addresses,
                expires_at_unix,
                now_unix,
            ) == Some(LearnError::TooManyEndpoints)
            &&& 0 < addresses.len() <= book.limits.per_peer && expires_at_unix <= now_unix
                ==> book.replace_problem(peer, addresses, expires_at_unix, now_unix) == Some(
                LearnError::Expired,
            )
            &&& 0 < addresses.len() <= book.limits.per_peer && expires_at_unix > now_unix
                && !book.learned.contains_key(peer) && book.learned.dom().len() >= 1024
                ==> book.replace_problem(peer, addresses, expires_at_unix, now_unix) == Some(
                LearnError::CacheFull,
            )
        }),
{
}

/// The addresses of a recovery attempt are kept for that attempt alone, of that
/// peer alone, and the peer is in quarantine at least as long as they live. They
/// are refused where there are none, too many, or expired ones, and where there
/// is no room for the attempt, the peer, or the quarantine.
pub proof fn attempts_keep_their_own_addresses(
    book: BookModel,
    scope: u128,
    elsewhere: u128,
    peer: PeerId,
    other: PeerId,
    addresses: Seq<Seq<Component>>,
    expires_at_unix: u64,
    now_unix: u64,
    now: u64,
)
    requires
        elsewhere != scope,
        other != peer,
    ensures
        ({
            let (after, problem) = book.scoped(
                scope,
                peer,
                addresses,
                expires_at_unix,
                now_unix,
                now,
            );
            let bad = addresses.len() == 0 || addresses.len() > book.limits.per_peer
                || expires_at_unix <= now_unix;
            let fresh = !book.recovery.contains_key(scope);
            &&& after.learned == book.learned && after.persistent == book.persistent
                && after.opportunistic == book.opportunistic
            &&& after.recovery.contains_key(elsewhere) == book.recovery.contains_key(elsewhere)
            &&& after.recovery[elsewhere] == book.recovery[elsewhere]
            &&& after.quarantine.contains_key(other) == book.quarantine.contains_key(other)
            &&& after.quarantine[other] == book.quarantine[other]
            &&& !fresh ==> after.recovery[scope].addresses.contains_key(other)
                == book.recovery[scope].addresses.contains_key(other)
            &&& bad ==> after == book && problem == Some(RecoveryAddressError::Invalid)
            &&& !bad && fresh && book.recovery.dom().len() >= 4 ==> after == book && problem == Some(
                RecoveryAddressError::TooManyScopes,
            )
            &&& !bad && !fresh && !book.recovery[scope].addresses.contains_key(peer)
                && book.recovery[scope].addresses.dom().len() >= 64 ==> problem == Some(
                RecoveryAddressError::TooManyPeers,
            )
            &&& problem is None ==> {
                let at = expiry(expires_at_unix, now_unix, now);
                &&& after.recovery.contains_key(scope)
                &&& after.recovery[scope].addresses.contains_key(peer)
                &&& after.recovery[scope].expires_at <= at
                &&& after.quarantine.contains_key(peer)
                &&& after.quarantine[peer] >= at
                &&& book.quarantine.contains_key(peer) ==> after.quarantine[peer]
                    >= book.quarantine[peer]
            }
        }),
{
}

/// What a node keeps of a peer to reach it is what was configured, what was
/// learned, and what recovery attempts keep; what unknown peers said of themselves
/// is not among it.
pub proof fn unknown_addresses_are_not_used(
    book: BookModel,
    peer: PeerId,
    address: Seq<Component>,
    unknown: BookModel,
)
    requires
        unknown == (BookModel { opportunistic: unknown.opportunistic, ..book }),
    ensures
        unknown.retained(peer) =~= book.retained(peer),
        book.persistent.contains_key(peer) && book.persistent[peer].contains(address)
            ==> book.retained(peer).contains(address),
        book.learned.contains_key(peer) && book.learned[peer].addresses.contains(address)
            ==> book.retained(peer).contains(address),
        book.retained(peer).contains(address) ==> (book.persistent.contains_key(peer)
            && book.persistent[peer].contains(address)) || (book.learned.contains_key(peer)
            && book.learned[peer].addresses.contains(address)) || exists|scope: u128| #[trigger]
            book.recovery.contains_key(scope) && book.recovery[scope].addresses.contains_key(peer)
                && book.recovery[scope].addresses[peer].contains(address),
{
}

/// What has outlived its time goes, and nothing else: addresses that were learned
/// or noted, recovery attempts, and quarantines.
pub proof fn what_is_past_its_time_goes(
    book: BookModel,
    peer: PeerId,
    scope: u128,
    now: u64,
)
    ensures
        book.expired_learned(now).contains(peer) <==> book.learned.contains_key(peer)
            && book.learned[peer].expires_at <= now,
        book.expired_opportunistic(now).contains(peer) <==> book.opportunistic.contains_key(peer)
            && book.opportunistic[peer].expires_at <= now,
        book.expired_scopes(now).contains(scope) <==> book.recovery.contains_key(scope)
            && book.recovery[scope].expires_at <= now,
        book.quarantine_expired(now).quarantine.contains_key(peer)
            <==> book.quarantine.contains_key(peer) && book.quarantine[peer] > now,
        !book.without_learned(peer).learned.contains_key(peer),
        !book.without_opportunistic(peer).opportunistic.contains_key(peer),
        !book.without_scope(scope).recovery.contains_key(scope),
{
}

/// What expires at some time lives here until then, but a quarter of an hour at
/// most; what has expired does not live on.
pub proof fn a_life_is_a_quarter_of_an_hour_at_most(expires_at_unix: u64, now_unix: u64, now: u64)
    requires
        now <= u64::MAX - 900_000,
    ensures
        ({
            let at = expiry(expires_at_unix, now_unix, now);
            &&& now <= at <= now + 900_000
            &&& expires_at_unix <= now_unix ==> at == now
            &&& expires_at_unix > now_unix && expires_at_unix - now_unix <= 900 ==> at - now == (
            expires_at_unix - now_unix) * 1000
            &&& expires_at_unix > now_unix && expires_at_unix - now_unix > 900 ==> at - now
                == 900_000
        }),
{
}

/// Addresses of a peer are added in order, those alone that the mode allows, each
/// without the peer. The first that is no address of the peer, or for which there is
/// no room, ends this, and what was added before stays.
pub proof fn addresses_are_added_until_one_is_refused(
    mode: TorMode,
    per_peer: nat,
    peer: PeerId,
    set: Set<Seq<Component>>,
    addresses: Seq<Seq<Component>>,
    next: Seq<Component>,
)
    ensures
        filled_in(mode, per_peer, peer, set, Seq::empty()) == (
            set,
            None::<RecoveryAddressError>,
        ),
        ({
            let (so_far, refused) = filled_in(mode, per_peer, peer, set, addresses);
            let after = filled_in(mode, per_peer, peer, set, addresses.push(next));
            &&& refused is Some ==> after == (so_far, refused)
            &&& refused is None ==> match normalized(peer, next) {
                Err(problem) => after == (so_far, Some(RecoveryAddressError::Address(problem))),
                Ok(base) => if !address_allowed(mode, base) || so_far.contains(base) {
                    after.0 =~= so_far && after.1 is None
                } else if so_far.len() >= per_peer {
                    after == (so_far, Some(RecoveryAddressError::TooManyEndpoints))
                } else {
                    after.1 is None && (forall|a: Seq<Component>| #[trigger]
                        after.0.contains(a) <==> so_far.contains(a) || a == base)
                },
            }
        }),
{
    assert(addresses.push(next).drop_last() =~= addresses);
}

/// The published addresses that can be used are those, without the peer, that are
/// addresses of the peer and that the mode allows.
pub proof fn usable_addresses_are_those_that_the_mode_allows(
    mode: TorMode,
    peer: PeerId,
    addresses: Seq<Seq<Component>>,
    at: int,
    base: Seq<Component>,
)
    requires
        0 <= at < addresses.len(),
    ensures
        normalized(peer, addresses[at]) == Ok::<Seq<Component>, KnownAddressProblem>(base)
            && address_allowed(mode, base) ==> usable_addresses(mode, peer, addresses).contains(base),
        usable_addresses(mode, peer, addresses).contains(base) ==> address_allowed(mode, base)
            && exists|i: int|
            0 <= i < addresses.len() && normalized(peer, #[trigger] addresses[i]) == Ok::<
                Seq<Component>,
                KnownAddressProblem,
            >(base),
{
}

/// A member, or a peer that was configured, is believed what it says of itself: the
/// address is learned, and nothing is kept of the peer as of a stranger.
pub proof fn an_identified_member_is_believed(
    state: LoopModel,
    peer: PeerId,
    base: Seq<Component>,
    now: u64,
)
    requires
        state.book.relay_members.contains(peer) || state.book.persistent.contains_key(peer),
        base.len() > 0,
        terminal_peer(base) is None,
        onion_matches_peer(base, peer),
        address_allowed(state.book.mode, base),
        text_bytes(address_text(base)).len() <= state.book.limits.bytes,
    ensures
        ({
            let known = state.book.learned.contains_key(peer);
            let (after, problem) = state.identified(peer, base, now);
            let full = !known && state.book.learned.dom().len() >= 1024;
            let crowded = known && !state.book.learned[peer].addresses.contains(base)
                && state.book.learned[peer].addresses.len() >= state.book.limits.per_peer;
            &&& state.identified(peer, base.push(Component::P2p(peer)), now) == (after, problem)
            &&& full ==> problem == Some(IdentifyError::Learn(LearnError::CacheFull))
            &&& crowded ==> problem == Some(IdentifyError::Learn(LearnError::TooManyEndpoints))
            &&& !full && !crowded ==> problem is None && after.book.learned.contains_key(peer)
                && after.book.learned[peer].addresses.contains(base)
                && after.book.learned[peer].expires_at == now.saturating_add(900_000)
            &&& !after.book.opportunistic.contains_key(peer)
            &&& after.book.recovery == state.book.recovery && after.book.persistent
                == state.book.persistent && after.book.quarantine == state.book.quarantine
        }),
{
    reveal(LoopModel::unknown_forgotten);
    reveal(LoopModel::reconciled);
    let full = base.push(Component::P2p(peer));
    assert(full.drop_last() =~= base);
    assert(last_peer(base) is None);
    assert(normalized(peer, base) == Ok::<Seq<Component>, KnownAddressProblem>(base));
    assert(normalized(peer, full) == Ok::<Seq<Component>, KnownAddressProblem>(base));
}

/// What a peer says of itself goes, for a peer of recovery attempts, to every
/// attempt that keeps addresses of it and to no other, if all of them have room.
pub proof fn an_identified_peer_of_attempts_is_noted_there(
    state: LoopModel,
    peer: PeerId,
    base: Seq<Component>,
    now: u64,
    scope: u128,
)
    requires
        !state.book.relay_members.contains(peer),
        !state.book.persistent.contains_key(peer),
        base.len() > 0,
        terminal_peer(base) is None,
        onion_matches_peer(base, peer),
        address_allowed(state.book.mode, base),
        text_bytes(address_text(base)).len() <= state.book.limits.bytes,
        state.book.recovery.contains_key(scope),
    ensures
        ({
            let (after, problem) = state.identified(peer, base, now);
            let of_it = state.book.recovery[scope].addresses.contains_key(peer);
            let crowded = of_it && !state.book.recovery[scope].addresses[peer].contains(base)
                && state.book.recovery[scope].addresses[peer].len() >= state.book.limits.per_peer;
            &&& crowded ==> problem == Some(IdentifyError::TooManyEndpoints) && after == state
            &&& of_it && problem is None ==> after.book.recovery.contains_key(scope)
                && after.book.recovery[scope].addresses[peer]
                == state.book.recovery[scope].addresses[peer].insert(base)
            &&& !of_it ==> after.book.recovery[scope] == state.book.recovery[scope]
            &&& after.book.recovery[scope].expires_at == state.book.recovery[scope].expires_at
            &&& after.book.learned == state.book.learned && after.book.persistent
                == state.book.persistent
        }),
{
    reveal(LoopModel::unknown_forgotten);
    reveal(LoopModel::unknown_noted);
    reveal(LoopModel::reconciled);
    assert(last_peer(base) is None);
    assert(normalized(peer, base) == Ok::<Seq<Component>, KnownAddressProblem>(base));
    if state.book.recovery[scope].addresses.contains_key(peer) {
        assert(state.book.scopes_of(peer).contains(scope));
    }
}

/// What a peer says of itself is refused where it is no address of the peer, where
/// it is too long, and where it leads on to a peer; what the mode does not allow is
/// passed over. Nothing changes then.
pub proof fn nonsense_is_not_noted(
    state: LoopModel,
    peer: PeerId,
    address: Seq<Component>,
    base: Seq<Component>,
    now: u64,
)
    ensures
        ({
            let (after, problem) = state.identified(peer, address, now);
            let read = normalized(peer, address) == Ok::<Seq<Component>, KnownAddressProblem>(base);
            &&& normalized(peer, address) matches Err(found) ==> after == state && problem == Some(
                IdentifyError::Address(found),
            )
            &&& read && !address_allowed(state.book.mode, base) ==> after == state
                && problem is None
            &&& read && address_allowed(state.book.mode, base) && (terminal_peer(base) is Some
                || text_bytes(address_text(base)).len() > state.book.limits.bytes) ==> after
                == state && problem == Some(IdentifyError::Invalid)
        }),
{
}

/// A stranger's address is kept for a quarter of an hour, for routing alone. Where
/// two hundred and fifty-six strangers are known already, the one whose time is over
/// first makes room, and of those the first in the order of peers.
pub proof fn the_first_stranger_makes_room(
    book: BookModel,
    peer: PeerId,
    other: PeerId,
    address: Seq<Component>,
    now: u64,
)
    requires
        book.opportunistic.dom().finite(),
        !book.opportunistic.contains_key(peer),
    ensures
        book.opportunistic.dom().len() < 256 ==> book.evicted(peer) is None,
        book.opportunistic.dom().len() >= 256 ==> {
            &&& book.evicted(peer) is Some
            &&& book.opportunistic.contains_key(book.evicted(peer)->0)
            &&& book.opportunistic.contains_key(other)
                ==> book.opportunistic[book.evicted(peer)->0].expires_at
                <= book.opportunistic[other].expires_at
        },
        book.limits.per_peer > 0 ==> book.noted(peer, address, now).opportunistic[peer].addresses
            =~= set![address],
        book.noted(peer, address, now).opportunistic[peer].expires_at == now.saturating_add(900_000),
        book.limits.per_peer > 0 ==> book.has_room(peer, address),
{
    crate::book::someone_makes_room(book, peer);
}

/// What is known of a peer is taken into account as long as it is kept for any
/// reason, and the word of a peer on itself only if it is a member or configured.
pub proof fn who_is_known_and_who_is_believed(book: BookModel, peer: PeerId, scope: u128)
    ensures
        book.authorized(peer) <==> book.relay_members.contains(peer)
            || book.persistent.contains_key(peer),
        book.relay_members.contains(peer) || book.persistent.contains_key(peer)
            || book.learned.contains_key(peer) ==> book.retains_history(peer),
        book.recovery.contains_key(scope) && book.recovery[scope].addresses.contains_key(peer)
            ==> book.retains_history(peer) && book.scopes_of(peer).contains(scope)
            && book.scope_peers(scope).contains(peer),
        book.retains_history(peer) && !book.relay_members.contains(peer)
            && !book.persistent.contains_key(peer) && !book.learned.contains_key(peer)
            ==> exists|scope: u128| #[trigger] book.recovery.contains_key(scope)
            && book.recovery[scope].addresses.contains_key(peer),
        book.scopes_of(peer).contains(scope) || book.scope_peers(scope).contains(peer)
            ==> book.recovery.contains_key(scope) && book.recovery[scope].addresses.contains_key(
            peer,
        ),
{
}

} // verus!
