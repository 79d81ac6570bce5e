//! What becomes of connections, whatever else happens around them.

use crate::address::{is_circuit, is_onion, peer_precedes, Component, PeerId};
use crate::events::ConnectionEvent;
use crate::links::{is_newest, newest_of, not_newer, LinkPath, LinksModel, Retirement};
use crate::loop_state::{
    ActionModel, LoopModel, PendingRequest, PolicyDialKind, RequestOutcome, TransportPromotion,
};
use crate::metrics::{P2pSessionDirection, P2pSessionOutcome, SessionRuntime};
use crate::policy::{path_allowed, path_rank, ConnectedPoint, P2pPath};
use crate::request_laws::{is_told, told_since};
use crate::requests::failure_actions;
use vstd::prelude::*;

verus! {

/// The connections and what is counted of them are as they were; only more of
/// them may be scheduled to go as duplicates.
pub open spec fn links_keep(before: LoopModel, after: LoopModel) -> bool {
    &&& after.links == (LinksModel {
        duplicate_retirement: after.links.duplicate_retirement,
        ..before.links
    })
    &&& before.links.duplicate_retirement.submap_of(after.links.duplicate_retirement)
    &&& after.log == before.log
    &&& after.open == before.open
    &&& after.book == before.book
    &&& after.inbound == before.inbound
    &&& after.responses == before.responses
    &&& after.last_paths == before.last_paths
    &&& after.transfers == before.transfers
    &&& after.path_transfers == before.path_transfers
    &&& after.local_peer == before.local_peer
    &&& after.relay_reservation_peers == before.relay_reservation_peers
}

pub(crate) proof fn lemma_links_keep_on(a: LoopModel, b: LoopModel, c: LoopModel)
    requires
        links_keep(a, b),
        links_keep(b, c),
    ensures
        links_keep(a, c),
{
    assert forall|k: u64| #[trigger]
        a.links.duplicate_retirement.contains_key(
            k,
        ) implies c.links.duplicate_retirement.contains_key(k) && c.links.duplicate_retirement[k]
        == a.links.duplicate_retirement[k] by {
        assert(b.links.duplicate_retirement.contains_key(k));
        assert(c.links.duplicate_retirement.contains_key(k));
    }
}

pub(crate) proof fn lemma_reconciling_keeps_links(state: LoopModel, peer: PeerId)
    ensures
        links_keep(state, state.reconciled(peer)),
{
    reveal(LoopModel::reconciled);
}

pub(crate) proof fn lemma_ensuring_keeps_links(state: LoopModel, peer: PeerId)
    ensures
        links_keep(state, state.ensured(peer)),
{
    reveal(LoopModel::ensured);
}

pub(crate) proof fn lemma_promoting_keeps_links(state: LoopModel, peer: PeerId, tier: u8, now: u64)
    ensures
        links_keep(state, state.promoted(peer, tier, now)),
{
    reveal(LoopModel::promoted);
}

pub(crate) proof fn lemma_retiring_keeps_links(state: LoopModel, peer: PeerId, now: u64)
    ensures
        links_keep(state, state.non_policy_retired(peer, now)),
{
    reveal(LoopModel::non_policy_retired);
    let after = state.non_policy_retired(peer, now);
    assert forall|c: u64| #[trigger]
        state.links.duplicate_retirement.contains_key(
            c,
        ) implies after.links.duplicate_retirement.contains_key(c)
        && after.links.duplicate_retirement[c] == state.links.duplicate_retirement[c] by {
        assert(state.links.retiring(c));
    }
}

pub(crate) proof fn lemma_falling_back_keeps_links(state: LoopModel, peer: PeerId, now: u64)
    ensures
        links_keep(state, state.fallen_back(peer, now)),
{
    reveal(LoopModel::fallen_back);
    if let Some(next) = state.next_tier(peer) {
        let open = LoopModel { promotions: state.promotions.remove(peer), ..state };
        let chosen = open.with_tier(peer, next);
        lemma_reconciling_keeps_links(chosen, peer);
        let moved = open.reselected(peer, next);
        assert(links_keep(state, moved));
        lemma_retiring_keeps_links(moved, peer, now);
        lemma_ensuring_keeps_links(moved, peer);
        lemma_links_keep_on(state, moved, state.fallen_back(peer, now));
    }
}

pub(crate) proof fn lemma_sending_keeps_links(state: LoopModel, request: PendingRequest, now: u64)
    ensures
        links_keep(state, state.queued_or_dispatched(request, now)),
{
    reveal(LoopModel::queued_or_dispatched);
    reveal(LoopModel::dispatched);
    let peer = request.peer;
    lemma_reconciling_keeps_links(state, peer);
    let chosen = state.reconciled(peer);
    lemma_retiring_keeps_links(chosen, peer, now);
    lemma_ensuring_keeps_links(chosen, peer);
    lemma_links_keep_on(state, chosen, chosen.non_policy_retired(peer, now));
    lemma_links_keep_on(state, chosen, chosen.ensured(peer));
}

pub(crate) proof fn lemma_draining_keeps_links(state: LoopModel, peer: PeerId, now: u64, steps: nat)
    ensures
        links_keep(state, state.drained_steps(peer, now, steps)),
    decreases steps,
{
    if steps > 0 && state.queued.len() > 0 {
        let rest = LoopModel { queued: state.queued.drop_first(), ..state };
        lemma_sending_keeps_links(rest, state.queued[0], now);
        let next = state.first_drained(peer, now);
        lemma_draining_keeps_links(next, peer, now, (steps - 1) as nat);
        assert(links_keep(state, next));
        lemma_links_keep_on(state, next, state.drained_steps(peer, now, steps));
    }
}

pub(crate) proof fn lemma_drained_keeps_links(state: LoopModel, peer: PeerId, now: u64)
    ensures
        links_keep(state, state.drained(peer, now)),
{
    reveal(LoopModel::drained);
    lemma_draining_keeps_links(state, peer, now, state.queued.len());
}

pub(crate) proof fn lemma_observing_keeps_links(
    state: LoopModel,
    peer: PeerId,
    connection: u64,
    now: u64,
)
    ensures
        links_keep(state, state.observed(peer, connection, now)),
{
    reveal(LoopModel::observed);
    let start = state.reconciled(peer);
    lemma_reconciling_keeps_links(state, peer);
    if start.links.paths.contains_key(connection) {
        let tier = crate::policy::path_rank(state.mode(), start.links.paths[connection].path);
        lemma_promoting_keeps_links(start, peer, tier, now);
        lemma_ensuring_keeps_links(start, peer);
        lemma_retiring_keeps_links(start.promoted(peer, tier, now), peer, now);
        lemma_retiring_keeps_links(start.ensured(peer), peer, now);
        lemma_retiring_keeps_links(start, peer, now);
        let promoted = start.promoted(peer, tier, now);
        let ensured = start.ensured(peer);
        lemma_links_keep_on(start, promoted, promoted.non_policy_retired(peer, now));
        lemma_links_keep_on(start, ensured, ensured.non_policy_retired(peer, now));
        lemma_links_keep_on(state, start, state.observed(peer, connection, now));
    }
}

/// A connection is relayed, upgraded or not, to the peer.
pub open spec fn leads_over_relay(links: LinksModel, connection: u64, peer: PeerId) -> bool {
    links.paths.contains_key(connection) && links.paths[connection].peer == peer && (
    links.paths[connection].path == P2pPath::Relayed || links.paths[connection].path
        == P2pPath::RelayFallback)
}

/// After a hole punch ended with a connection, that connection leads to the peer
/// through the punched hole, in the table of paths and in its session. Every
/// other connection to the peer that was relayed goes half a second later, once
/// the peer is idle; no other connection is scheduled to go for the punch, the
/// punched one least of all. At most one more connection is taken for punched: a
/// direct one to the same peer, in the direction that both ends keep.
pub proof fn a_punched_hole_replaces_relays(
    state: LoopModel,
    peer: PeerId,
    connection: u64,
    now: u64,
    unix_now: u64,
)
    ensures
        ({
            let after = state.after(
                ConnectionEvent::HolePunchEnded { peer, connection: Some(connection) },
                now,
                unix_now,
            );
            &&& after.links.paths.contains_key(connection)
            &&& after.links.paths[connection] == (LinkPath { peer, path: P2pPath::HolePunched })
            &&& state.log.sessions.contains_key(connection) ==> after.log.sessions.contains_key(
                connection,
            ) && after.log.sessions[connection].path == P2pPath::HolePunched
            &&& forall|c: u64| #[trigger]
                after.links.relay_retirement.contains_key(c) <==> (
                state.links.relay_retirement.contains_key(c) || (c != connection
                    && leads_over_relay(state.links, c, peer)))
            &&& forall|c: u64|
                c != connection && #[trigger] leads_over_relay(state.links, c, peer)
                    ==> after.links.relay_retirement[c] == (Retirement {
                    peer,
                    deadline: now.saturating_add(500),
                })
            &&& forall|c: u64|
                c != connection && #[trigger] after.links.paths.contains_key(c) ==> {
                    &&& state.links.paths.contains_key(c)
                    &&& after.links.paths[c] == state.links.paths[c] || {
                        &&& state.links.paths[c] == (LinkPath { peer, path: P2pPath::Direct })
                        &&& after.links.paths[c] == (LinkPath { peer, path: P2pPath::HolePunched })
                        &&& state.links.dialers.contains_key(c)
                        &&& state.links.dialers[c] == peer_precedes(state.local_peer, peer)
                    }
                }
            &&& forall|c: u64| #[trigger]
                state.links.paths.contains_key(c) ==> after.links.paths.contains_key(c)
            &&& after.links.closed == state.links.closed
            &&& after.links.dialers == state.links.dialers
            &&& after.links.collapsing == state.links.collapsing
            &&& after.links.unhealthy == state.links.unhealthy
            &&& after.open == state.open
        }),
{
    reveal(LoopModel::punched);
    let punched = state.punched(peer, connection);
    lemma_observing_keeps_links(punched, peer, connection, now);
    let observed = punched.observed(peer, connection, now);
    let scheduled = observed.duplicates_scheduled(peer, connection, now);
    let after = state.upgraded(peer, connection, now);
    let first = state.classified(connection, peer, P2pPath::HolePunched);
    let prefers = state.prefers_dialer(peer);
    let counterparts = first.links.counterparts(peer, connection, prefers);
    if let Some(other) = crate::links::newest_of(counterparts, first.log.sessions) {
        let chosen = choose|c: u64|
            crate::links::is_newest(c, counterparts, first.log.sessions);
        assert(counterparts.contains(other));
    }
    assert forall|c: u64| #[trigger]
        after.links.relay_retirement.contains_key(c) <==> (
        state.links.relay_retirement.contains_key(c) || (c != connection && leads_over_relay(
            state.links,
            c,
            peer,
        ))) by {
        assert(scheduled.links.paths == punched.links.paths);
        assert(scheduled.links.any_relayed(peer).contains(c) == (c != connection
            && leads_over_relay(state.links, c, peer)));
    }
    assert forall|c: u64|
        c != connection && #[trigger] leads_over_relay(
            state.links,
            c,
            peer,
        ) implies after.links.relay_retirement[c] == (Retirement {
        peer,
        deadline: now.saturating_add(500),
    }) by {
        assert(scheduled.links.any_relayed(peer).contains(c));
    }
}

/// After a hole punch ended without a connection, the connections to the peer
/// that were relayed and waited to be upgraded are fallbacks, and nothing else
/// has changed its path.
pub proof fn without_a_hole_relays_are_fallbacks(
    state: LoopModel,
    peer: PeerId,
    now: u64,
    unix_now: u64,
)
    ensures
        ({
            let after = state.after(
                ConnectionEvent::HolePunchEnded { peer, connection: None },
                now,
                unix_now,
            );
            &&& forall|c: u64| #[trigger]
                state.links.paths.contains_key(c) ==> after.links.paths[c] == (
                if state.links.paths[c] == (LinkPath { peer, path: P2pPath::Relayed }) {
                    LinkPath { peer, path: P2pPath::RelayFallback }
                } else {
                    state.links.paths[c]
                })
            &&& after.links.paths.dom() =~= state.links.paths.dom()
            &&& after.links == (LinksModel { paths: after.links.paths, ..state.links })
            &&& after == (LoopModel { links: after.links, log: after.log, ..state })
        }),
{
}

/// The paths, the sessions and all else are as they were; only which connections
/// are scheduled to go may have changed.
pub open spec fn paths_keep(before: LoopModel, after: LoopModel) -> bool {
    &&& after.links == (LinksModel {
        duplicate_retirement: after.links.duplicate_retirement,
        relay_retirement: after.links.relay_retirement,
        ..before.links
    })
    &&& forall|c: u64| #[trigger]
        after.links.relay_retirement.contains_key(c) ==> before.links.relay_retirement.contains_key(
            c,
        ) && after.links.relay_retirement[c] == before.links.relay_retirement[c]
    &&& after.log == before.log
    &&& after.open == before.open
    &&& after.book == before.book
    &&& after.last_paths == before.last_paths
}

pub(crate) proof fn lemma_restoring_keeps_paths(
    state: LoopModel,
    peer: PeerId,
    path: Option<P2pPath>,
    now: u64,
)
    ensures
        paths_keep(state, state.transport_restored(peer, path, now)),
{
    reveal(LoopModel::transport_restored);
    let eligible = LoopModel { links: state.links.restored(peer), ..state };
    assert(paths_keep(state, eligible));
    let best = eligible.links.best_tier(peer);
    lemma_retiring_keeps_links(eligible, peer, now);
    if let Some(tier) = best {
        let open = LoopModel { promotions: eligible.promotions.remove(peer), ..eligible };
        lemma_reconciling_keeps_links(open.with_tier(peer, tier), peer);
        lemma_retiring_keeps_links(open.reselected(peer, tier), peer, now);
    }
    lemma_falling_back_keeps_links(eligible, peer, now);
    lemma_reconciling_keeps_links(eligible, peer);
    lemma_ensuring_keeps_links(eligible.reconciled(peer), peer);
}

/// A connection that is closed is gone from everywhere but the paths of closed
/// connections, where it stays for forty seconds; every other connection keeps
/// its path. Its session ends as collapsed where this node was closing it, as
/// failed where it failed or had failed, and as closed else. Without a hole
/// punched connection to the peer no relayed one is scheduled to go any more.
pub proof fn a_closed_connection_is_gone(
    state: LoopModel,
    connection: u64,
    peer: PeerId,
    remaining: u32,
    failed: bool,
    now: u64,
    unix_now: u64,
)
    ensures
        ({
            let after = state.after(
                ConnectionEvent::ConnectionClosed { connection, peer, remaining, failed },
                now,
                unix_now,
            );
            &&& after.links.paths == state.links.paths.remove(connection)
            &&& after.links.dialers == state.links.dialers.remove(connection)
            &&& after.links.unhealthy == state.links.unhealthy.remove(connection)
            &&& !after.links.relay_retirement.contains_key(connection)
            &&& after.open == state.open.remove(connection)
            &&& state.links.paths.contains_key(connection)
                ==> after.links.closed.contains_key(connection)
                && after.links.closed[connection].peer == peer
                && after.links.closed[connection].path == state.links.paths[connection].path
                && after.links.closed[connection].expires_at == now.saturating_add(40_000)
            &&& !state.links.paths.contains_key(connection) ==> after.links.closed
                == state.links.closed
            &&& (forall|c: u64| #[trigger]
                state.links.paths.contains_key(c) && c != connection
                    ==> state.links.paths[c].peer != peer || state.links.paths[c].path
                    != P2pPath::HolePunched) ==> forall|c: u64| #[trigger]
                after.links.relay_retirement.contains_key(c)
                    ==> after.links.relay_retirement[c].peer != peer
            &&& !after.log.sessions.contains_key(connection)
            &&& state.log.sessions.contains_key(connection) ==> {
                let session = state.log.sessions[connection];
                let ended = after.log.recent.last();
                &&& after.log.recent.len() > 0
                &&& ended.sequence == session.sequence
                &&& ended.path == session.path
                &&& ended.direction == session.direction
                &&& ended.closed_at_unix_seconds == unix_now
                &&& ended.opened_at_unix_seconds == session.opened_at_unix_seconds
                &&& ended.duration_millis == now.saturating_sub(session.opened_at)
                &&& ended.outcome == (if state.links.collapsing.contains(connection) {
                    P2pSessionOutcome::Collapsed
                } else if failed || state.links.unhealthy.contains(connection) {
                    P2pSessionOutcome::TransportError
                } else {
                    P2pSessionOutcome::Closed
                })
            }
            &&& remaining == 0 ==> !after.last_paths.contains_key(peer)
            &&& remaining != 0 ==> after.last_paths == state.last_paths
        }),
{
    let path = if state.links.paths.contains_key(connection) {
        Some(state.links.paths[connection].path)
    } else {
        None
    };
    let unlinked = state.unlinked(connection, peer, failed, now, unix_now);
    let gone = unlinked.relays_reconsidered(peer);
    let left = if remaining == 0 {
        LoopModel { last_paths: gone.last_paths.remove(peer), ..gone }
    } else {
        gone
    };
    let decided = left.promotion_reconsidered(peer);
    lemma_restoring_keeps_paths(decided, peer, path, now);
    let restored = decided.transport_restored(peer, path, now);
    lemma_drained_keeps_links(restored, peer, now);
    let drained = restored.drained(peer, now);
    let after = drained.selection_forgotten(peer);
    assert(after.links.paths == state.links.paths.remove(connection));
    if forall|c: u64| #[trigger]
        state.links.paths.contains_key(c) && c != connection ==> state.links.paths[c].peer != peer
            || state.links.paths[c].path != P2pPath::HolePunched {
        assert(!unlinked.links.connected_by(peer, P2pPath::HolePunched));
    }
}

/// A connection that is established leads to its peer, over the path that its
/// ends show: over a relay, over Tor, or directly; a connection that was already
/// known to be punched stays so, and a direct one may turn out to be the other
/// half of a punch. It was dialled by the end that dialled it, and its session
/// begins now. No other session ends.
pub proof fn an_established_connection_is_known(
    state: LoopModel,
    connection: u64,
    peer: PeerId,
    endpoint: ConnectedPoint,
    now: u64,
    unix_now: u64,
)
    requires
        state.links.paths.dom().finite(),
    ensures
        ({
            let after = state.after(
                ConnectionEvent::ConnectionEstablished { connection, peer, endpoint },
                now,
                unix_now,
            );
            let (address, dialled) = match endpoint {
                ConnectedPoint::Dialer { address } => (address@, true),
                ConnectedPoint::Listener { local_addr } => (local_addr@, false),
            };
            let shown = if is_circuit(address) {
                P2pPath::Relayed
            } else if is_onion(address) {
                P2pPath::Tor
            } else {
                P2pPath::Direct
            };
            let punched = state.links.paths.contains_key(connection)
                && state.links.paths[connection].path == P2pPath::HolePunched;
            &&& after.links.paths.contains_key(connection)
            &&& after.links.paths[connection].peer == peer
            &&& punched ==> after.links.paths[connection].path == P2pPath::HolePunched
            &&& !punched ==> after.links.paths[connection].path == shown || shown
                == P2pPath::Direct && after.links.paths[connection].path == P2pPath::HolePunched
            &&& after.links.dialers == state.links.dialers.insert(connection, dialled)
            &&& after.open == state.open.insert(connection)
            &&& after.log.sessions.contains_key(connection)
            &&& after.log.sessions[connection].peer == peer
            &&& after.log.sessions[connection].sequence == state.log.next_sequence
            &&& after.log.sessions[connection].opened_at == now
            &&& after.log.sessions[connection].opened_at_unix_seconds == unix_now
            &&& after.log.sessions[connection].direction == (if dialled {
                P2pSessionDirection::Outbound
            } else {
                P2pSessionDirection::Inbound
            })
            &&& after.links.closed == state.links.closed
            &&& after.links.relay_retirement == state.links.relay_retirement
            &&& after.links.unhealthy == state.links.unhealthy
            &&& forall|c: u64| #[trigger]
                state.links.paths.contains_key(c) && c != connection
                    ==> after.links.paths.contains_key(c) && after.links.paths[c].peer
                    == state.links.paths[c].peer
            &&& forall|c: u64| #[trigger]
                state.log.sessions.contains_key(c) ==> after.log.sessions.contains_key(c)
        }),
{
    reveal(LoopModel::paired);
    reveal(LoopModel::punched);
    let path = crate::policy::path_of_endpoint(endpoint);
    let dialer = endpoint is Dialer;
    let noted = state.noted(connection, peer, path, dialer, now, unix_now);
    let known = noted.paired(connection, peer);
    let punches = noted.links.paired_punches(peer, connection, noted.prefers_dialer(peer));
    if noted.links.paths[connection].path == P2pPath::Direct && punches.len() > 0 {
        let list = crate::ordered::sorted_numbers(punches);
        crate::ordered::lemma_sorted_exists::<u64>(punches);
        crate::ordered::lemma_distinct_len(list);
        assert(list.to_set().contains(list[0]));
        assert(punches.contains(list[0]));
        let first = noted.classified(list[0], peer, P2pPath::HolePunched);
        let counterparts = first.links.counterparts(peer, list[0], noted.prefers_dialer(peer));
        if let Some(other) = crate::links::newest_of(counterparts, first.log.sessions) {
            assert(counterparts.contains(other));
        }
    }
    lemma_observing_keeps_links(known, peer, connection, now);
    let observed = known.observed(peer, connection, now);
    let scheduled = observed.duplicates_scheduled(peer, connection, now);
    lemma_drained_keeps_links(scheduled, peer, now);
}

/// Duplicates are looked for only among the connections of the best rank to the
/// peer, and never are all of those to go: one stays that both ends keep.
pub proof fn duplicates_leave_one_to_keep(
    links: LinksModel,
    peer: PeerId,
    new_connection: u64,
    prefers_dialer: bool,
)
    ensures
        ({
            let gone = links.duplicates(peer, new_connection, prefers_dialer);
            &&& forall|c: u64| #[trigger]
                gone.contains(c) ==> {
                    &&& links.paths.contains_key(c)
                    &&& links.paths[c].peer == peer
                    &&& forall|other: u64| #[trigger]
                        links.paths.contains_key(other) && links.paths[other].peer == peer
                            ==> path_rank(links.mode, links.paths[c].path) <= path_rank(
                            links.mode,
                            links.paths[other].path,
                        )
                    &&& exists|kept: u64| #[trigger]
                        links.paths.contains_key(kept) && !gone.contains(kept)
                            && links.paths[kept].peer == peer && path_rank(
                            links.mode,
                            links.paths[kept].path,
                        ) == path_rank(links.mode, links.paths[c].path) && links.dialled(kept)
                            == prefers_dialer
                    &&& links.dialled(c) == prefers_dialer ==> prefers_dialer && c
                        == new_connection
                }
            &&& forall|c: u64, kept: u64|
                #![trigger gone.contains(c), links.dialled(kept)]
                links.paths.contains_key(c) && links.paths.contains_key(kept)
                    && links.paths[c].peer == peer && links.paths[kept].peer == peer && path_rank(
                    links.mode,
                    links.paths[c].path,
                ) == path_rank(links.mode, links.paths[kept].path) && links.is_best(c, peer)
                    && links.dialled(kept) == prefers_dialer && links.dialled(c) != prefers_dialer
                    ==> gone.contains(c)
        }),
{
    let gone = links.duplicates(peer, new_connection, prefers_dialer);
    assert forall|c: u64| #[trigger] gone.contains(c) implies {
        &&& links.paths.contains_key(c)
        &&& links.paths[c].peer == peer
        &&& forall|other: u64| #[trigger]
            links.paths.contains_key(other) && links.paths[other].peer == peer ==> path_rank(
                links.mode,
                links.paths[c].path,
            ) <= path_rank(links.mode, links.paths[other].path)
        &&& exists|kept: u64| #[trigger]
            links.paths.contains_key(kept) && !gone.contains(kept) && links.paths[kept].peer == peer
                && path_rank(links.mode, links.paths[kept].path) == path_rank(
                links.mode,
                links.paths[c].path,
            ) && links.dialled(kept) == prefers_dialer
        &&& links.dialled(c) == prefers_dialer ==> prefers_dialer && c == new_connection
    } by {
        assert forall|other: u64| #[trigger]
            links.paths.contains_key(other) && links.paths[other].peer == peer implies path_rank(
            links.mode,
            links.paths[c].path,
        ) <= path_rank(links.mode, links.paths[other].path) by {
            let rank = path_rank(links.mode, links.paths[other].path);
            assert(links.rank_present(peer, rank));
        }
        let keeper = choose|k: u64| #[trigger]
            links.paths.contains_key(k) && links.is_best(k, peer) && links.dialled(k)
                == prefers_dialer;
        if gone.contains(keeper) {
            let older = choose|older: u64| #[trigger]
                links.paths.contains_key(older) && older != new_connection && links.is_best(
                    older,
                    peer,
                ) && links.dialled(older);
            assert(!gone.contains(older));
        }
    }
}

/// An action tells a caller that waits for an answer of the peer.
spec fn tells_one(
    action: ActionModel,
    requests: Seq<PendingRequest>,
    peer: PeerId,
    outcome: RequestOutcome,
) -> bool {
    exists|k: int|
        0 <= k < requests.len() && (#[trigger] requests[k]).peer == peer && requests[k].waiting
            && is_told(action, requests[k].cancellation_id, outcome)
}

/// What is told to whom when the requests that wait for a peer fail together.
proof fn lemma_failure_actions(
    requests: Seq<PendingRequest>,
    peer: PeerId,
    outcome: RequestOutcome,
)
    ensures
        forall|i: int|
            0 <= i < failure_actions(requests, peer, outcome).len() ==> tells_one(
                #[trigger] failure_actions(requests, peer, outcome)[i],
                requests,
                peer,
                outcome,
            ),
        forall|k: int|
            0 <= k < requests.len() && (#[trigger] requests[k]).peer == peer && requests[k].waiting
                ==> exists|i: int|
                0 <= i < failure_actions(requests, peer, outcome).len() && is_told(
                    #[trigger] failure_actions(requests, peer, outcome)[i],
                    requests[k].cancellation_id,
                    outcome,
                ),
    decreases requests.len(),
{
    if requests.len() > 0 {
        let fewer = requests.drop_last();
        lemma_failure_actions(fewer, peer, outcome);
        let before = failure_actions(fewer, peer, outcome);
        let after = failure_actions(requests, peer, outcome);
        assert forall|i: int| 0 <= i < after.len() implies tells_one(
            #[trigger] after[i],
            requests,
            peer,
            outcome,
        ) by {
            if i < before.len() {
                assert(after[i] == before[i]);
                assert(tells_one(before[i], fewer, peer, outcome));
                let k = choose|k: int|
                    0 <= k < fewer.len() && (#[trigger] fewer[k]).peer == peer && fewer[k].waiting
                        && is_told(before[i], fewer[k].cancellation_id, outcome);
                assert(requests[k] == fewer[k]);
            } else {
                assert(requests[requests.len() - 1].peer == peer);
            }
        }
        assert forall|k: int|
            0 <= k < requests.len() && (#[trigger] requests[k]).peer == peer
                && requests[k].waiting implies exists|i: int|
            0 <= i < after.len() && is_told(
                #[trigger] after[i],
                requests[k].cancellation_id,
                outcome,
            ) by {
            if k < fewer.len() {
                assert(fewer[k] == requests[k]);
                let i = choose|i: int|
                    0 <= i < before.len() && is_told(
                        #[trigger] before[i],
                        fewer[k].cancellation_id,
                        outcome,
                    );
                assert(after[i] == before[i]);
            } else {
                assert(is_told(
                    after[before.len() as int],
                    requests[k].cancellation_id,
                    outcome,
                ));
            }
        }
    }
}

/// Where requests to a peer fail together, none of them waits any more, all
/// others wait on, what is with the transport stays there, and just the callers
/// of those requests that still wait are told, all of the same end.
pub proof fn requests_to_a_peer_fail_together(
    state: LoopModel,
    peer: PeerId,
    outcome: RequestOutcome,
)
    ensures
        ({
            let after = state.queue_failed(peer, outcome);
            &&& after.pending == state.pending
            &&& forall|q: PendingRequest| #[trigger]
                after.queued.contains(q) <==> state.queued.contains(q) && q.peer != peer
            &&& state.actions.is_prefix_of(after.actions)
            &&& forall|id: u128, end: RequestOutcome| #[trigger]
                told_since(state, after, id, end) <==> end == outcome && exists|k: int|
                    0 <= k < state.queued.len() && (#[trigger] state.queued[k]).peer == peer
                        && state.queued[k].waiting && state.queued[k].cancellation_id == id
        }),
{
    broadcast use vstd::seq_lib::group_filter_ensures;

    reveal(LoopModel::queue_failed);
    lemma_failure_actions(state.queued, peer, outcome);
    let after = state.queue_failed(peer, outcome);
    let others = |r: PendingRequest| r.peer != peer;
    let told = failure_actions(state.queued, peer, outcome);
    assert(after.actions == state.actions + told);
    assert(state.actions =~= after.actions.subrange(0, state.actions.len() as int));
    assert forall|q: PendingRequest| #[trigger]
        after.queued.contains(q) <==> state.queued.contains(q) && q.peer != peer by {
        if after.queued.contains(q) {
            let k = choose|k: int| 0 <= k < after.queued.len() && after.queued[k] == q;
            assert(others(after.queued[k]));
            state.queued.lemma_filter_contains_rev(others, q);
        }
        if state.queued.contains(q) && q.peer != peer {
            let k = choose|k: int| 0 <= k < state.queued.len() && state.queued[k] == q;
            state.queued.lemma_filter_contains(others, k);
        }
    }
    assert forall|id: u128, end: RequestOutcome| #[trigger]
        told_since(state, after, id, end) <==> end == outcome && exists|k: int|
            0 <= k < state.queued.len() && (#[trigger] state.queued[k]).peer == peer
                && state.queued[k].waiting && state.queued[k].cancellation_id == id by {
        if told_since(state, after, id, end) {
            let i = choose|i: int|
                state.actions.len() <= i < after.actions.len() && is_told(
                    #[trigger] after.actions[i],
                    id,
                    end,
                );
            assert(after.actions[i] == told[i - state.actions.len()]);
        }
        if end == outcome && exists|k: int|
            0 <= k < state.queued.len() && (#[trigger] state.queued[k]).peer == peer
                && state.queued[k].waiting && state.queued[k].cancellation_id == id {
            let k = choose|k: int|
                0 <= k < state.queued.len() && (#[trigger] state.queued[k]).peer == peer
                    && state.queued[k].waiting && state.queued[k].cancellation_id == id;
            let i = choose|i: int|
                0 <= i < told.len() && is_told(
                    #[trigger] told[i],
                    state.queued[k].cancellation_id,
                    outcome,
                );
            assert(after.actions[state.actions.len() + i] == told[i]);
        }
    }
}

/// There is no way to a peer behind a tier: no address and no healthy
/// connection.
pub open spec fn no_way_behind(state: LoopModel, peer: PeerId, tier: u8) -> bool {
    forall|later: u8|
        tier < later <= 2 ==> !(#[trigger] state.addressed(peer, later))
            && !state.links.healthy_at(peer, later, None)
}

/// A dial that this node asked for and that failed is no longer under way. Only
/// if it was at the tier that is selected, with no healthy connection there and
/// no way to the peer behind it, do the requests that wait for the peer fail, and
/// then all of them do.
pub proof fn a_failed_dial_ends_requests_only_without_another_way(
    state: LoopModel,
    connection: u64,
    peer: Option<PeerId>,
    now: u64,
    unix_now: u64,
)
    requires
        state.dials.contains_key(connection),
    ensures
        ({
            let dial = state.dials[connection];
            let to = dial.peer;
            let counted = LoopModel {
                dials: state.dials.remove(connection),
                log: state.log.dial_failed(dial.path),
                ..state
            };
            let after = state.after(
                ConnectionEvent::OutgoingConnectionError { connection, peer },
                now,
                unix_now,
            );
            let lost = dial.kind == PolicyDialKind::Selected && state.tier(to) == dial.tier
                && !state.links.healthy_at(to, dial.tier, None);
            &&& lost && no_way_behind(counted, to, dial.tier) && counted.outstanding(to) ==> after
                == counted.queue_failed(to, RequestOutcome::TiersExhausted).drained(
                to,
                now,
            ).selection_forgotten(to)
            &&& !lost ==> after == counted.drained(to, now).selection_forgotten(to)
            &&& lost && !no_way_behind(counted, to, dial.tier) ==> after == counted.fallen_back(
                to,
                now,
            ).drained(to, now).selection_forgotten(to)
        }),
{
    let dial = state.dials[connection];
    let counted = LoopModel {
        dials: state.dials.remove(connection),
        log: state.log.dial_failed(dial.path),
        ..state
    };
    assert(counted.tier(dial.peer) == state.tier(dial.peer));
    if counted.next_tier(dial.peer) is Some && dial.tier == counted.tier(dial.peer) {
        let next = counted.next_tier(dial.peer)->0;
        assert(counted.addressed(dial.peer, next) || counted.links.healthy_at(
            dial.peer,
            next,
            None,
        ));
    }
}

/// Falling back selects the nearest tier behind the selected one at which there
/// is an address or a healthy connection, and gives up any promotion.
pub proof fn falling_back_goes_to_the_nearest_tier(state: LoopModel, peer: PeerId)
    ensures
        match state.next_tier(peer) {
            None => no_way_behind(state, peer, state.tier(peer)),
            Some(next) => {
                &&& state.tier(peer) < next <= 2
                &&& state.addressed(peer, next) || state.links.healthy_at(peer, next, None)
                &&& forall|between: u8|
                    state.tier(peer) < between < next ==> !(#[trigger] state.addressed(
                        peer,
                        between,
                    )) && !state.links.healthy_at(peer, between, None)
            },
        },
{
}

/// A connection of a better tier than the selected one is noted as a promotion,
/// to be selected half a second later, unless one as good is noted already.
pub proof fn a_better_tier_is_noted(state: LoopModel, peer: PeerId, tier: u8, now: u64)
    ensures
        ({
            let after = state.promoted(peer, tier, now);
            if tier < state.tier(peer) && !(state.promotions.contains_key(peer)
                && state.promotions[peer].tier <= tier) {
                after == (LoopModel {
                    promotions: state.promotions.insert(
                        peer,
                        (TransportPromotion { tier, deadline: now.saturating_add(500) }),
                    ),
                    ..state
                })
            } else {
                after == state
            }
        }),
{
    reveal(LoopModel::promoted);
}

/// Relayed connections stop being scheduled to go, and are closed, only where
/// their time is over and the peer is idle, or where no healthy punched
/// connection is left; then they are kept. Duplicates go only where their time is
/// over and the peer is idle, and only those are closed that another healthy
/// connection, of no worse rank, replaces.
pub proof fn retirement_waits_for_idle_peers(state: LoopModel, connection: u64, now: u64)
    ensures
        state.finished_relays(now).contains(connection) <==> {
            &&& state.links.relay_retirement.contains_key(connection)
            &&& ({
                let entry = state.links.relay_retirement[connection];
                let punched = exists|c: u64| #[trigger]
                    state.links.paths.contains_key(c) && state.links.paths[c].peer == entry.peer
                        && state.links.paths[c].path == P2pPath::HolePunched
                        && !state.links.unhealthy.contains(c) && !state.links.collapsing.contains(c)
                        && !state.links.relay_retirement.contains_key(c)
                        && !state.links.duplicate_retirement.contains_key(c);
                !punched || (entry.deadline <= now && !state.busy(entry.peer))
            })
        },
        state.finished_duplicates(now).contains(connection) <==> {
            &&& state.links.duplicate_retirement.contains_key(connection)
            &&& state.links.duplicate_retirement[connection].deadline <= now
            &&& !state.busy(state.links.duplicate_retirement[connection].peer)
        },
        state.links.duplicate_retirement.contains_key(connection) && state.duplicate_replaced(
            connection,
        ) ==> exists|c: u64| #[trigger]
            state.links.paths.contains_key(c) && c != connection && state.links.paths[c].peer
                == state.links.duplicate_retirement[connection].peer && path_rank(
                state.links.mode,
                state.links.paths[c].path,
            ) <= path_rank(state.mode(), state.links.paths[connection].path)
                && !state.links.unhealthy.contains(c) && !state.links.collapsing.contains(c)
                && !state.links.relay_retirement.contains_key(c)
                && !state.links.duplicate_retirement.contains_key(c),
{
    if state.links.relay_retirement.contains_key(connection) {
        let peer = state.links.relay_retirement[connection].peer;
        if state.links.healthy_path(peer, P2pPath::HolePunched) {
            let c = choose|c: u64| #[trigger]
                state.links.paths.contains_key(c) && state.links.healthy(c, peer)
                    && state.links.paths[c].path == P2pPath::HolePunched;
            assert(state.links.paths.contains_key(c) && !state.links.retiring(c));
        }
    }
    if state.links.duplicate_retirement.contains_key(connection) && state.duplicate_replaced(
        connection,
    ) {
        let peer = state.links.duplicate_retirement[connection].peer;
        assert(state.links.replaceable(
            peer,
            connection,
            path_rank(state.mode(), state.links.paths[connection].path),
        ));
    }
}

/// A retirement that ends with closing asks the transport to close that
/// connection, if the transport holds it, and nothing is closed else.
pub proof fn a_retired_connection_is_closed(
    state: LoopModel,
    connection: u64,
    peer: PeerId,
    now: u64,
)
    ensures
        state.open.contains(connection) ==> state.retired(connection, peer, true, now) == (
        LoopModel {
            links: state.links.collapsing_with(connection),
            actions: state.actions.push(ActionModel::Close { connection }),
            ..state
        }),
        state.retired(connection, peer, false, now) == state.drained(peer, now),
{
    reveal(LoopModel::retired);
}

/// A connection is healthy if it leads to the peer, has not failed, and is neither
/// being closed nor to go. The best tier of a peer is the first at which there is a
/// healthy connection.
pub proof fn the_best_healthy_connection_counts(links: LinksModel, connection: u64, peer: PeerId)
    ensures
        links.healthy(connection, peer) <==> links.paths.contains_key(connection)
            && links.paths[connection].peer == peer && !links.unhealthy.contains(connection)
            && !links.collapsing.contains(connection) && !links.relay_retirement.contains_key(
            connection,
        ) && !links.duplicate_retirement.contains_key(connection),
        links.healthy(connection, peer) ==> {
            &&& links.best_tier(peer) matches Some(tier) && tier <= path_rank(
                links.mode,
                links.paths[connection].path,
            )
            &&& links.healthy_path(peer, links.paths[connection].path)
        },
        links.best_tier(peer) matches Some(tier) ==> exists|c: u64| #[trigger]
            links.paths.contains_key(c) && links.healthy(c, peer) && path_rank(
                links.mode,
                links.paths[c].path,
            ) == tier,
        links.paths.contains_key(connection) && links.paths[connection].peer == peer
            ==> links.connected(peer) && links.connected_by(peer, links.paths[connection].path),
        links.connected(peer) ==> exists|c: u64| #[trigger]
            links.paths.contains_key(c) && links.paths[c].peer == peer,
{
    if links.healthy(connection, peer) {
        let rank = path_rank(links.mode, links.paths[connection].path);
        assert(links.healthy_at(peer, rank, None));
    }
}

/// What goes over a connection counts for the path that the connection has, or had
/// when it was closed; what goes over a relay counts as a fallback. A failure counts
/// only for a connection that leads, or led, to the peer.
pub proof fn traffic_counts_for_the_path_of_its_connection(
    links: LinksModel,
    connection: u64,
    peer: PeerId,
    now: u64,
)
    ensures
        ({
            let open = links.paths.contains_key(connection);
            let closed = !open && links.closed.contains_key(connection);
            let path = if open {
                links.paths[connection].path
            } else {
                links.closed[connection].path
            };
            let leads = if open {
                links.paths[connection].peer
            } else {
                links.closed[connection].peer
            };
            let counted = match path {
                P2pPath::Direct => P2pPath::Direct,
                P2pPath::Relayed => P2pPath::RelayFallback,
                P2pPath::HolePunched => P2pPath::HolePunched,
                P2pPath::RelayFallback => P2pPath::RelayFallback,
                P2pPath::Tor => P2pPath::Tor,
            };
            &&& open || closed ==> links.application_path(connection) == Some(counted)
            &&& !open && !closed ==> links.application_path(connection) is None
                && links.failure_path(peer, connection) is None
            &&& (open || closed) && leads == peer ==> links.failure_path(peer, connection) == Some(
                counted,
            )
            &&& closed && leads != peer ==> links.failure_path(peer, connection) is None
            &&& links.closed_expired(now).closed.contains_key(connection)
                <==> links.closed.contains_key(connection) && links.closed[connection].expires_at
                > now
            &&& links.closed_expired(now).paths == links.paths
        }),
{
}

/// A connection whose path the mode forbids is to go; and so is, once there is a
/// healthy connection at the tier that is selected, every healthy connection of
/// another tier, but for the tier of a promotion. They go half a second later.
pub proof fn connections_of_other_tiers_go(
    links: LinksModel,
    peer: PeerId,
    selected: u8,
    promotion: Option<u8>,
    connection: u64,
    now: u64,
)
    ensures
        ({
            let after = links.non_policy_retired(peer, selected, promotion, now);
            let rank = path_rank(links.mode, links.paths[connection].path);
            let goes = links.healthy(connection, peer) && promotion != Some(rank) && (!path_allowed(
                links.mode,
                links.paths[connection].path,
            ) || (rank != selected && links.healthy_at(peer, selected, None)));
            &&& after.duplicate_retirement.contains_key(connection) <==> goes
                || links.duplicate_retirement.contains_key(connection)
            &&& goes ==> after.duplicate_retirement[connection] == (Retirement {
                peer,
                deadline: now.saturating_add(500),
            })
            &&& !goes && links.duplicate_retirement.contains_key(connection)
                ==> after.duplicate_retirement[connection] == links.duplicate_retirement[connection]
            &&& after.paths == links.paths && after.relay_retirement == links.relay_retirement
                && after.unhealthy == links.unhealthy && after.collapsing == links.collapsing
        }),
{
}

/// Duplicates are, among the connections of the best rank to a peer, those that were
/// not dialled by the end that comes first; and where this node comes first and had
/// dialled one before, the new one. Where none was dialled by that end, all stay.
pub proof fn duplicates_are_those_of_the_wrong_end(
    links: LinksModel,
    peer: PeerId,
    new_connection: u64,
    connection: u64,
    other: u64,
)
    requires
        links.is_best(connection, peer),
        links.is_best(other, peer),
        connection != other,
    ensures
        links.dialled(other) && !links.dialled(connection) ==> links.duplicates(
            peer,
            new_connection,
            true,
        ).contains(connection),
        !links.dialled(other) && links.dialled(connection) ==> links.duplicates(
            peer,
            new_connection,
            false,
        ).contains(connection),
        links.dialled(other) && links.dialled(connection) ==> links.duplicates(
            peer,
            connection,
            true,
        ).contains(connection) && !links.duplicates(peer, connection, true).contains(other),
        !links.dialled(connection) ==> !links.duplicates(peer, new_connection, false).contains(
            connection,
        ),
        links.dialled(connection) && connection != new_connection ==> !links.duplicates(
            peer,
            new_connection,
            true,
        ).contains(connection),
        links.dialled(connection) <==> links.dialers.contains_key(connection)
            && links.dialers[connection],
{
}

/// Both ends keep the connections that the one of them dialled that comes first in
/// the order of peers; duplicates go half a second later, but never those to a relay
/// on which the node has a reservation.
pub proof fn duplicates_go_later(
    state: LoopModel,
    peer: PeerId,
    connection: u64,
    c: u64,
    now: u64,
)
    ensures
        ({
            let after = state.duplicates_scheduled(peer, connection, now);
            let gone = state.links.duplicates(
                peer,
                connection,
                peer_precedes(state.local_peer, peer),
            );
            &&& state.relay_reservation_peers.contains(peer) ==> after == state
            &&& !state.relay_reservation_peers.contains(peer) ==> {
                &&& after.links.duplicate_retirement.contains_key(c) <==> gone.contains(c)
                    || state.links.duplicate_retirement.contains_key(c)
                &&& gone.contains(c) ==> after.links.duplicate_retirement[c] == (Retirement {
                    peer,
                    deadline: now.saturating_add(500),
                })
                &&& after.links.paths == state.links.paths
                &&& after.actions == state.actions
            }
        }),
{
}

/// After the connections that were to replace others are lost, what was to go as a
/// duplicate stays, unless it is being closed already; relayed connections stay too,
/// unless there is a healthy punched one.
pub proof fn without_replacement_connections_stay(links: LinksModel, peer: PeerId, c: u64)
    ensures
        ({
            let after = links.restored(peer);
            &&& after.duplicate_retirement.contains_key(c) <==> links.duplicate_retirement.contains_key(
                c,
            ) && (links.duplicate_retirement[c].peer != peer || links.collapsing.contains(c))
            &&& links.relay_retirement.contains_key(c) && links.relay_retirement[c].peer != peer
                ==> after.relay_retirement.contains_key(c)
            &&& !links.connected_by(peer, P2pPath::HolePunched)
                && links.relay_retirement.contains_key(c) && links.relay_retirement[c].peer == peer
                ==> !after.relay_retirement.contains_key(c)
            &&& after.paths == links.paths && after.unhealthy == links.unhealthy
                && after.collapsing == links.collapsing
        }),
{
}

/// The last opened of some connections is the one with the highest number of its
/// session.
pub proof fn the_last_opened_is_the_newest(
    set: Set<u64>,
    sessions: Map<u64, SessionRuntime>,
    other: u64,
)
    requires
        set.contains(other),
        sessions.contains_key(other),
        newest_of(set, sessions) is Some,
        sessions.contains_key(newest_of(set, sessions)->0),
    ensures
        set.contains(newest_of(set, sessions)->0),
        sessions[other].sequence <= sessions[newest_of(set, sessions)->0].sequence,
{
    let newest = newest_of(set, sessions)->0;
    assert(is_newest(newest, set, sessions));
    assert(not_newer(other, newest, sessions));
}

/// A connection over which a request to its peer failed is taken for unhealthy, and
/// the transport is asked to close it, if it still holds it. Nothing is done about a
/// connection that leads to another peer.
pub proof fn a_connection_that_failed_is_closed(state: LoopModel, connection: u64, peer: PeerId)
    ensures
        ({
            let after = state.distrusted(connection, peer);
            let leads = state.links.paths.contains_key(connection)
                && state.links.paths[connection].peer == peer;
            &&& !leads ==> after == state
            &&& leads && state.open.contains(connection) ==> {
                &&& after.links.unhealthy == state.links.unhealthy.insert(connection)
                &&& !after.links.healthy(connection, peer)
                &&& after.actions == state.actions.push(ActionModel::Close { connection })
            }
            &&& leads && !state.open.contains(connection) ==> after.actions == state.actions
                && !after.links.unhealthy.contains(connection)
            &&& after.links.paths == state.links.paths
            &&& after.open == state.open && after.pending == state.pending && after.queued
                == state.queued
        }),
{
}

/// A request that failed at the tier that it was meant for goes on if another healthy
/// connection at that tier is left, if there is a way behind that tier, or if another
/// tier was selected meanwhile; else its caller is told that it failed.
pub proof fn a_request_that_failed_goes_on_if_it_can(
    state: LoopModel,
    request: PendingRequest,
    peer: PeerId,
    duplicate: bool,
    now: u64,
)
    ensures
        ({
            let after = state.retried(request, peer, duplicate, now);
            let behind = state.next_tier(peer) is Some;
            &&& duplicate ==> after == state.queued_or_dispatched(request, now)
            &&& !duplicate && state.tier(peer) <= request.transport_tier && behind ==> after
                == state.fallen_back(peer, now).queued_or_dispatched(request, now)
            &&& !duplicate && state.tier(peer) > request.transport_tier ==> after
                == state.queued_or_dispatched(request, now)
            &&& !duplicate && state.tier(peer) < request.transport_tier && !behind ==> after
                == state.queued_or_dispatched(request, now)
            &&& !duplicate && state.tier(peer) == request.transport_tier && !behind ==> after
                == state.finished(request, RequestOutcome::Failed)
        }),
{
    reveal(LoopModel::retried);
}

/// What a peer says of itself is taken address by address, in the order in which it
/// says it, whatever becomes of each.
pub proof fn what_a_peer_says_is_taken_in_order(
    state: LoopModel,
    peer: PeerId,
    addresses: Seq<Seq<Component>>,
    next: Seq<Component>,
    now: u64,
)
    ensures
        state.each_identified(peer, Seq::empty(), now) == state,
        state.each_identified(peer, addresses.push(next), now) == state.each_identified(
            peer,
            addresses,
            now,
        ).identified(peer, next, now).0,
{
    assert(addresses.push(next).drop_last() =~= addresses);
}

/// Where the connection at the selected tier is lost, the best tier at which a healthy
/// connection is left is selected, if it is no worse; a promotion to it is then done.
/// Nothing is done as long as a healthy connection at the tier is left.
pub proof fn the_best_connection_that_is_left_is_used(
    state: LoopModel,
    peer: PeerId,
    path: Option<P2pPath>,
    now: u64,
)
    requires
        state.links.mode == state.book.mode,
    ensures
        ({
            let after = state.transport_restored(peer, path, now);
            let selected = state.tier(peer);
            let left = state.links.restored(peer).best_tier(peer);
            let lost = !state.links.healthy_at(peer, selected, None);
            &&& !lost ==> after == state
            &&& lost && left == Some(selected) ==> after.tier(peer) == selected && after.promotions
                == state.promotions
            &&& lost && left is Some && left->0 < selected ==> after.tier(peer) == left->0
                && !after.promotions.contains_key(peer)
            &&& lost && !(left is Some && left->0 <= selected) && path is Some && path_rank(
                state.book.mode,
                path->0,
            ) == selected && state.next_tier(peer) is Some ==> !after.promotions.contains_key(peer)
        }),
{
    reveal(LoopModel::transport_restored);
    reveal(LoopModel::non_policy_retired);
    reveal(LoopModel::reconciled);
    reveal(LoopModel::fallen_back);
    reveal(LoopModel::ensured);
    let selected = state.tier(peer);
    let eligible = LoopModel { links: state.links.restored(peer), ..state };
    let best = eligible.links.best_tier(peer);
    if !state.links.healthy_at(peer, selected, None) && best is Some && best->0 < selected {
        let tier = best->0;
        let dropped = LoopModel { promotions: eligible.promotions.remove(peer), ..eligible };
        let chosen = dropped.with_tier(peer, tier);
        assert(chosen.tier(peer) == tier);
        assert(chosen.links.healthy_at(peer, tier, None));
        assert(chosen.usable_tier(peer) == tier);
        let c = choose|c: u64| #[trigger]
            chosen.links.paths.contains_key(c) && chosen.links.healthy(c, peer) && path_rank(
                chosen.links.mode,
                chosen.links.paths[c].path,
            ) == tier;
        assert(chosen.links.connected(peer));
    }
    if !state.links.healthy_at(peer, selected, None) {
        assert forall|tier: u8| state.links.healthy_at(peer, tier, None) implies #[trigger]
            eligible.links.healthy_at(peer, tier, None) by {
            let c = choose|c: u64| #[trigger]
                state.links.paths.contains_key(c) && state.links.healthy(c, peer) && path_rank(
                    state.links.mode,
                    state.links.paths[c].path,
                ) == tier;
            assert(eligible.links.paths.contains_key(c) && eligible.links.healthy(c, peer));
        }
        assert(state.next_tier(peer) is Some ==> eligible.next_tier(peer) is Some);
    }
}

/// A connection of a better tier than the selected one is noted as a promotion; the
/// tier that is selected for a peer is one at which there are addresses, a healthy
/// connection or a dial, where there is any such.
pub proof fn the_tier_that_is_used_can_be_had(state: LoopModel, peer: PeerId, tier: u8)
    requires
        tier <= 2,
        state.tier(peer) <= 2,
    ensures
        ({
            let used = state.usable_tier(peer);
            let selected = state.tier(peer);
            &&& state.addressed(peer, selected) || state.links.healthy_at(peer, selected, None)
                || state.dial_exists(peer, selected) ==> used == selected
            &&& state.addressed(peer, tier) ==> state.addressed(peer, used)
                || state.links.healthy_at(peer, used, None) || state.dial_exists(peer, used)
            &&& state.links.healthy_at(peer, tier, None) ==> state.addressed(peer, used)
                || state.links.healthy_at(peer, used, None) || state.dial_exists(peer, used)
            &&& used != selected && state.addressed(peer, tier) && tier >= selected ==> selected
                <= used <= tier
            &&& used != selected && used < selected && state.addressed(peer, tier) ==> used <= tier
        }),
{
}

} // verus!
