//! What is done from time to time: what is past its time is forgotten, and
//! connections that nobody needs go.

use crate::address::{sorted_peers, PeerId};
use crate::book::BookModel;
use crate::connection_laws::lemma_drained_keeps_links;
use crate::links::LinksModel;
use crate::loop_state::{ActionModel, LoopModel, PendingRequest, TransportPromotion};
use crate::ordered::{lemma_sorted_exists, sorted_list, sorted_numbers, Ranked};
use crate::policy::P2pPath;
use vstd::prelude::*;

verus! {

proof fn lemma_all_listed<T: Ranked>(set: Set<T::Model>)
    requires
        set.finite(),
    ensures
        sorted_list::<T>(set).to_set() == set,
{
    lemma_sorted_exists::<T>(set);
}

proof fn lemma_to_set_of_last<T>(list: Seq<T>)
    requires
        list.len() > 0,
    ensures
        list.to_set() =~= list.drop_last().to_set().insert(list.last()),
{
    assert forall|x: T| #[trigger]
        list.to_set().contains(x) == list.drop_last().to_set().insert(list.last()).contains(x) by {
        if list.to_set().contains(x) {
            let k = choose|k: int| 0 <= k < list.len() && list[k] == x;
            if k < list.len() - 1 {
                assert(list.drop_last()[k] == x);
            }
        }
        if list.drop_last().to_set().contains(x) {
            let k = choose|k: int| 0 <= k < list.drop_last().len() && list.drop_last()[k] == x;
            assert(list[k] == x);
        }
        if x == list.last() {
            assert(list[list.len() - 1] == x);
        }
    }
}

proof fn lemma_learned_expired(state: LoopModel, peers: Seq<PeerId>)
    ensures
        state.each_learned_expired(peers).book == (BookModel {
            learned: state.book.learned.remove_keys(peers.to_set()),
            ..state.book
        }),
    decreases peers.len(),
{
    reveal(LoopModel::reconciled);
    let after = state.each_learned_expired(peers);
    if peers.len() > 0 {
        lemma_learned_expired(state, peers.drop_last());
        lemma_to_set_of_last(peers);
        assert(after.book.learned =~= state.book.learned.remove_keys(peers.to_set()));
    } else {
        assert(after.book.learned =~= state.book.learned.remove_keys(peers.to_set()));
    }
}

proof fn lemma_unknown_forgotten(state: LoopModel, peers: Seq<PeerId>)
    ensures
        state.each_unknown_forgotten(peers).book == (BookModel {
            opportunistic: state.book.opportunistic.remove_keys(peers.to_set()),
            ..state.book
        }),
    decreases peers.len(),
{
    reveal(LoopModel::unknown_forgotten);
    let after = state.each_unknown_forgotten(peers);
    if peers.len() > 0 {
        lemma_unknown_forgotten(state, peers.drop_last());
        lemma_to_set_of_last(peers);
        assert(after.book.opportunistic =~= state.book.opportunistic.remove_keys(peers.to_set()));
    } else {
        assert(after.book.opportunistic =~= state.book.opportunistic.remove_keys(peers.to_set()));
    }
}

proof fn lemma_reconsidered(state: LoopModel, peers: Seq<PeerId>)
    ensures
        state.each_reconsidered(peers).book == state.book,
    decreases peers.len(),
{
    reveal(LoopModel::reconciled);
    if peers.len() > 0 {
        lemma_reconsidered(state, peers.drop_last());
    }
}

proof fn lemma_recovery_cleared(state: LoopModel, scopes: Seq<u128>)
    ensures
        state.each_recovery_cleared(scopes).book == (BookModel {
            recovery: state.book.recovery.remove_keys(scopes.to_set()),
            ..state.book
        }),
    decreases scopes.len(),
{
    reveal(LoopModel::recovery_cleared);
    let after = state.each_recovery_cleared(scopes);
    if scopes.len() > 0 {
        let before = state.each_recovery_cleared(scopes.drop_last());
        let scope = scopes.last();
        lemma_recovery_cleared(state, scopes.drop_last());
        lemma_reconsidered(
            before.with_book(before.book.without_scope(scope)),
            sorted_peers(before.book.scope_peers(scope)),
        );
        lemma_to_set_of_last(scopes);
        assert(after.book.recovery =~= state.book.recovery.remove_keys(scopes.to_set()));
    } else {
        assert(after.book.recovery =~= state.book.recovery.remove_keys(scopes.to_set()));
    }
}

/// When a node looks for what is past its time, everything in its book that is goes
/// at once: what was learned, what strangers said, recovery attempts, quarantines.
/// Everything that still has time stays as it is, and so does what was configured.
pub proof fn what_is_past_its_time_is_forgotten(
    state: LoopModel,
    now: u64,
    peer: PeerId,
    scope: u128,
)
    requires
        state.book.learned.dom().finite(),
        state.book.opportunistic.dom().finite(),
        state.book.recovery.dom().finite(),
    ensures
        ({
            let before = state.book;
            let after = state.addresses_expired(now).book;
            &&& after.learned.contains_key(peer) <==> before.learned.contains_key(peer)
                && before.learned[peer].expires_at > now
            &&& after.learned.contains_key(peer) ==> after.learned[peer] == before.learned[peer]
            &&& after.opportunistic.contains_key(peer) <==> before.opportunistic.contains_key(peer)
                && before.opportunistic[peer].expires_at > now
            &&& after.opportunistic.contains_key(peer) ==> after.opportunistic[peer]
                == before.opportunistic[peer]
            &&& after.recovery.contains_key(scope) <==> before.recovery.contains_key(scope)
                && before.recovery[scope].expires_at > now
            &&& after.recovery.contains_key(scope) ==> after.recovery[scope]
                == before.recovery[scope]
            &&& after.quarantine.contains_key(peer) <==> before.quarantine.contains_key(peer)
                && before.quarantine[peer] > now
            &&& after.quarantine.contains_key(peer) ==> after.quarantine[peer]
                == before.quarantine[peer]
            &&& after.persistent == before.persistent && after.relay_members
                == before.relay_members && after.mode == before.mode && after.limits
                == before.limits
        }),
{
    let learned = state.each_learned_expired(sorted_peers(state.book.expired_learned(now)));
    lemma_all_listed::<PeerId>(state.book.expired_learned(now));
    lemma_learned_expired(state, sorted_peers(state.book.expired_learned(now)));
    let unknown = learned.each_unknown_forgotten(
        sorted_peers(learned.book.expired_opportunistic(now)),
    );
    lemma_all_listed::<PeerId>(learned.book.expired_opportunistic(now));
    lemma_unknown_forgotten(learned, sorted_peers(learned.book.expired_opportunistic(now)));
    lemma_all_listed::<u128>(unknown.book.expired_scopes(now));
    lemma_recovery_cleared(unknown, sorted_list::<u128>(unknown.book.expired_scopes(now)));
}

/// More was asked of the transport, but no connection was to be closed, and what
/// was noted as a promotion is as it was.
pub open spec fn nothing_closed(before: LoopModel, after: LoopModel, now: u64) -> bool {
    &&& before.actions.is_prefix_of(after.actions)
    &&& forall|i: int|
        before.actions.len() <= i < after.actions.len() ==> !((#[trigger] after.actions[i]) is Close)
    &&& after.promotions == before.promotions
    &&& after.links.paths == before.links.paths
    &&& scheduled_later(before.links, after.links, now)
}

/// Duplicates were scheduled to go before, or they go half a second later.
pub open spec fn scheduled_later(before: LinksModel, after: LinksModel, now: u64) -> bool {
    forall|c: u64| #[trigger]
        after.duplicate_retirement.contains_key(c) ==> (before.duplicate_retirement.contains_key(c)
            && before.duplicate_retirement[c] == after.duplicate_retirement[c])
            || (before.paths.contains_key(c) && after.duplicate_retirement[c].deadline
            == now.saturating_add(500))
}

proof fn lemma_nothing_closed_on(a: LoopModel, b: LoopModel, c: LoopModel, now: u64)
    requires
        nothing_closed(a, b, now),
        nothing_closed(b, c, now),
    ensures
        nothing_closed(a, c, now),
{
    assert forall|i: int| a.actions.len() <= i < c.actions.len() implies !((
    #[trigger] c.actions[i]) is Close) by {
        if i < b.actions.len() {
            assert(c.actions[i] == b.actions[i]);
        }
    }
}

proof fn lemma_sending_closes_nothing(state: LoopModel, request: PendingRequest, now: u64)
    ensures
        nothing_closed(state, state.queued_or_dispatched(request, now), now),
{
    reveal(LoopModel::queued_or_dispatched);
    reveal(LoopModel::dispatched);
    reveal(LoopModel::reconciled);
    reveal(LoopModel::ensured);
    reveal(LoopModel::non_policy_retired);
    let chosen = state.reconciled(request.peer);
    assert(nothing_closed(state, chosen, now));
    assert(nothing_closed(chosen, chosen.ensured(request.peer), now));
    lemma_nothing_closed_on(state, chosen, chosen.ensured(request.peer), now);
    let ready = chosen.non_policy_retired(request.peer, now);
    assert(nothing_closed(state, ready, now));
    assert(nothing_closed(ready, ready.dispatched(request, now), now));
    lemma_nothing_closed_on(state, ready, ready.dispatched(request, now), now);
}

proof fn lemma_draining_closes_nothing(state: LoopModel, peer: PeerId, now: u64, steps: nat)
    ensures
        nothing_closed(state, state.drained_steps(peer, now, steps), now),
    decreases steps,
{
    if steps > 0 && state.queued.len() > 0 {
        let rest = LoopModel { queued: state.queued.drop_first(), ..state };
        lemma_sending_closes_nothing(rest, state.queued[0], now);
        let next = state.first_drained(peer, now);
        assert(nothing_closed(state, next, now));
        lemma_draining_closes_nothing(next, peer, now, (steps - 1) as nat);
        lemma_nothing_closed_on(state, next, state.drained_steps(peer, now, steps), now);
    }
}

proof fn lemma_drained_closes_nothing(state: LoopModel, peer: PeerId, now: u64)
    ensures
        nothing_closed(state, state.drained(peer, now), now),
{
    reveal(LoopModel::drained);
    lemma_draining_closes_nothing(state, peer, now, state.queued.len());
}

/// Among what was asked of the transport since is that a connection be closed.
pub open spec fn closing_since(before: LoopModel, after: LoopModel, connection: u64) -> bool {
    exists|i: int|
        before.actions.len() <= i < after.actions.len() && (#[trigger] after.actions[i])
            == (ActionModel::Close { connection })
}

proof fn lemma_retired(state: LoopModel, connection: u64, peer: PeerId, close: bool, now: u64, c: u64)
    ensures
        ({
            let after = state.retired(connection, peer, close, now);
            &&& state.actions.is_prefix_of(after.actions)
            &&& after.promotions == state.promotions
            &&& after.open == state.open
            &&& scheduled_later(state.links, after.links, now)
            &&& after.links.paths == state.links.paths
            &&& after.links.relay_retirement == state.links.relay_retirement
            &&& closing_since(state, after, c) <==> c == connection && close && state.open.contains(
                c,
            )
        }),
{
    reveal(LoopModel::retired);
    let after = state.retired(connection, peer, close, now);
    let collapsed = state.collapsed(connection);
    lemma_drained_closes_nothing(collapsed, peer, now);
    lemma_drained_closes_nothing(state, peer, now);
    lemma_drained_keeps_links(collapsed, peer, now);
    lemma_drained_keeps_links(state, peer, now);
    if close && state.open.contains(connection) {
        assert(after.actions[state.actions.len() as int] == (ActionModel::Close { connection }));
    }
}

/// The retirements of relayed connections that end are gone, all others stay. Just
/// those of the connections are closed that the transport still holds and that a
/// healthy punched connection to the peer replaces.
pub proof fn replaced_relays_are_closed(
    state: LoopModel,
    before: LoopModel,
    connections: Seq<u64>,
    now: u64,
    c: u64,
)
    ensures
        ({
            let after = state.each_relay_retired(before, connections, now);
            &&& state.actions.is_prefix_of(after.actions)
            &&& after.promotions == state.promotions
            &&& after.open == state.open
            &&& scheduled_later(state.links, after.links, now)
            &&& after.links.paths == state.links.paths
            &&& after.links.relay_retirement.contains_key(c) <==> !connections.contains(c)
                && state.links.relay_retirement.contains_key(c)
            &&& closing_since(state, after, c) <==> connections.contains(c) && state.open.contains(c)
                && before.links.healthy_path(
                before.links.relay_retirement[c].peer,
                P2pPath::HolePunched,
            )
        }),
    decreases connections.len(),
{
    if connections.len() > 0 {
        let rest = connections.drop_last();
        let last = connections.last();
        replaced_relays_are_closed(state, before, rest, now, c);
        let so_far = state.each_relay_retired(before, rest, now);
        let freed = LoopModel {
            links: LinksModel {
                relay_retirement: so_far.links.relay_retirement.remove(last),
                ..so_far.links
            },
            ..so_far
        };
        let peer = before.links.relay_retirement[last].peer;
        let close = before.links.healthy_path(peer, P2pPath::HolePunched);
        lemma_retired(freed, last, peer, close, now, c);
        lemma_to_set_of_last(connections);
        assert(connections.contains(c) == connections.to_set().contains(c));
        assert(rest.contains(c) == rest.to_set().contains(c));
        let after = state.each_relay_retired(before, connections, now);
        lemma_closings_add_up(state, so_far, freed, after, c);
    }
}

proof fn lemma_closings_add_up(
    state: LoopModel,
    so_far: LoopModel,
    freed: LoopModel,
    after: LoopModel,
    c: u64,
)
    requires
        freed.actions == so_far.actions,
        state.actions.is_prefix_of(so_far.actions),
        freed.actions.is_prefix_of(after.actions),
    ensures
        closing_since(state, after, c) == (closing_since(state, so_far, c) || closing_since(
            freed,
            after,
            c,
        )),
        state.actions.is_prefix_of(after.actions),
{
    if closing_since(state, after, c) {
        let i = choose|i: int|
            state.actions.len() <= i < after.actions.len() && (#[trigger] after.actions[i])
                == (ActionModel::Close { connection: c });
        if i < so_far.actions.len() {
            assert(so_far.actions[i] == after.actions[i]);
        }
    }
    if closing_since(state, so_far, c) {
        let i = choose|i: int|
            state.actions.len() <= i < so_far.actions.len() && (#[trigger] so_far.actions[i])
                == (ActionModel::Close { connection: c });
        assert(so_far.actions[i] == after.actions[i]);
    }
}

/// Of the duplicates whose retirement ends just those are closed that the transport
/// still holds and that another connection, as good, replaces. All paths stay as
/// they are until the transport has closed a connection.
pub proof fn replaced_duplicates_are_closed(
    state: LoopModel,
    before: LoopModel,
    connections: Seq<u64>,
    now: u64,
    c: u64,
)
    ensures
        ({
            let after = state.each_duplicate_retired(before, connections, now);
            &&& state.actions.is_prefix_of(after.actions)
            &&& after.promotions == state.promotions
            &&& after.open == state.open
            &&& scheduled_later(state.links, after.links, now)
            &&& after.links.paths == state.links.paths
            &&& after.links.relay_retirement == state.links.relay_retirement
            &&& closing_since(state, after, c) <==> connections.contains(c) && state.open.contains(c)
                && before.duplicate_replaced(c)
        }),
    decreases connections.len(),
{
    if connections.len() > 0 {
        let rest = connections.drop_last();
        let last = connections.last();
        replaced_duplicates_are_closed(state, before, rest, now, c);
        let so_far = state.each_duplicate_retired(before, rest, now);
        let freed = LoopModel {
            links: LinksModel {
                duplicate_retirement: so_far.links.duplicate_retirement.remove(last),
                ..so_far.links
            },
            ..so_far
        };
        let peer = before.links.duplicate_retirement[last].peer;
        lemma_retired(freed, last, peer, before.duplicate_replaced(last), now, c);
        lemma_to_set_of_last(connections);
        assert(connections.contains(c) == connections.to_set().contains(c));
        assert(rest.contains(c) == rest.to_set().contains(c));
        let after = state.each_duplicate_retired(before, connections, now);
        lemma_closings_add_up(state, so_far, freed, after, c);
    }
}

proof fn lemma_promotion_processed(state: LoopModel, peer: PeerId, tier: u8, now: u64)
    ensures
        ({
            let after = state.promotion_processed(peer, tier, now);
            &&& after.promotions == state.promotions.remove(peer)
            &&& state.actions.is_prefix_of(after.actions)
            &&& forall|i: int|
                state.actions.len() <= i < after.actions.len() ==> !((
                #[trigger] after.actions[i]) is Close)
            &&& after.open == state.open
            &&& scheduled_later(state.links, after.links, now)
            &&& after.links.paths == state.links.paths
            &&& after.links.relay_retirement == state.links.relay_retirement
        }),
{
    reveal(LoopModel::promotion_processed);
    reveal(LoopModel::reconciled);
    reveal(LoopModel::non_policy_retired);
    let done = LoopModel { promotions: state.promotions.remove(peer), ..state };
    let chosen = if done.links.healthy_at(peer, tier, None) {
        done.reselected(peer, tier).non_policy_retired(peer, now)
    } else {
        done
    };
    assert(nothing_closed(done, chosen, now));
    lemma_drained_closes_nothing(chosen, peer, now);
    lemma_nothing_closed_on(done, chosen, chosen.drained(peer, now), now);
    lemma_drained_keeps_links(chosen, peer, now);
}

proof fn lemma_promotions_processed(
    state: LoopModel,
    promotions: Map<PeerId, TransportPromotion>,
    peers: Seq<PeerId>,
    now: u64,
)
    ensures
        ({
            let after = state.each_promotion_processed(promotions, peers, now);
            &&& after.promotions =~= state.promotions.remove_keys(peers.to_set())
            &&& state.actions.is_prefix_of(after.actions)
            &&& forall|i: int|
                state.actions.len() <= i < after.actions.len() ==> !((
                #[trigger] after.actions[i]) is Close)
            &&& after.open == state.open
            &&& scheduled_later(state.links, after.links, now)
            &&& after.links.paths == state.links.paths
            &&& after.links.relay_retirement == state.links.relay_retirement
        }),
    decreases peers.len(),
{
    if peers.len() > 0 {
        let rest = peers.drop_last();
        lemma_promotions_processed(state, promotions, rest, now);
        let so_far = state.each_promotion_processed(promotions, rest, now);
        lemma_promotion_processed(so_far, peers.last(), promotions[peers.last()].tier, now);
        lemma_to_set_of_last(peers);
        let after = state.each_promotion_processed(promotions, peers, now);
        assert forall|i: int| state.actions.len() <= i < after.actions.len() implies !((
        #[trigger] after.actions[i]) is Close) by {
            if i < so_far.actions.len() {
                assert(after.actions[i] == so_far.actions[i]);
            }
        }
    }
}

/// When a node settles, every promotion that is due is decided, and no other. No
/// path changes, and no connection is closed but a relayed one or a duplicate that
/// was to go and whose time was over. A relayed one does not wait to go any more once
/// there is no punched connection to the peer. Where nothing else is to be decided,
/// what has finished waiting and is replaced is closed.
pub proof fn settling_decides_what_is_due(state: LoopModel, now: u64, peer: PeerId, c: u64)
    requires
        state.promotions.dom().finite(),
        state.links.relay_retirement.dom().finite(),
        state.links.duplicate_retirement.dom().finite(),
        state.links.paths.dom().finite(),
        now <= u64::MAX - 500,
    ensures
        ({
            let after = state.settled(now);
            &&& after.promotions.contains_key(peer) <==> state.promotions.contains_key(peer)
                && state.promotions[peer].deadline > now
            &&& after.promotions.contains_key(peer) ==> after.promotions[peer]
                == state.promotions[peer]
            &&& after.links.paths == state.links.paths
            &&& after.open == state.open
            &&& state.actions.is_prefix_of(after.actions)
            &&& closing_since(state, after, c) ==> state.open.contains(c) && ((
            state.links.relay_retirement.contains_key(c) && state.links.relay_retirement[c].deadline
                <= now) || (state.links.duplicate_retirement.contains_key(c)
                && state.links.duplicate_retirement[c].deadline <= now))
            &&& after.links.relay_retirement.contains_key(c)
                ==> state.links.relay_retirement.contains_key(c)
            &&& state.links.relay_retirement.contains_key(c) && !state.links.connected_by(
                state.links.relay_retirement[c].peer,
                P2pPath::HolePunched,
            ) ==> !after.links.relay_retirement.contains_key(c)
            &&& state.promotions.dom().is_empty() && state.links.relay_retirement.contains_key(c)
                ==> (after.links.relay_retirement.contains_key(c) <==> !state.finished_relays(
                now,
            ).contains(c))
            &&& state.promotions.dom().is_empty() && state.finished_relays(now).contains(c)
                && state.open.contains(c) && state.links.healthy_path(
                state.links.relay_retirement[c].peer,
                P2pPath::HolePunched,
            ) ==> closing_since(state, after, c)
            &&& state.promotions.dom().is_empty() && state.links.relay_retirement.dom().is_empty()
                ==> (closing_since(state, after, c) <==> state.finished_duplicates(now).contains(c)
                && state.open.contains(c) && state.duplicate_replaced(c))
        }),
{
    let due = state.due_promotions(now);
    lemma_all_listed::<PeerId>(due);
    lemma_promotions_processed(state, state.promotions, sorted_peers(due), now);
    if state.promotions.dom().is_empty() {
        assert(sorted_peers(due).len() == 0) by {
            if sorted_peers(due).len() > 0 {
                assert(sorted_peers(due).to_set().contains(sorted_peers(due)[0]));
            }
        }
    }
    let promoted = state.each_promotion_processed(state.promotions, sorted_peers(due), now);
    let relays = sorted_numbers(promoted.finished_relays(now));
    replaced_relays_are_closed(promoted, promoted, relays, now, c);
    let relayed = promoted.each_relay_retired(promoted, relays, now);
    let finished = promoted.finished_relays(now);
    lemma_all_listed::<u64>(finished);
    if state.links.relay_retirement.dom().is_empty() {
        assert(relays.len() == 0) by {
            if relays.len() > 0 {
                assert(relays.to_set().contains(relays[0]));
            }
        }
    }
    assert(relays.contains(c) == relays.to_set().contains(c));
    let dropping = relayed.finished_duplicates(now);
    assert(dropping.subset_of(
        state.links.duplicate_retirement.dom().union(state.links.paths.dom()),
    ));
    lemma_all_listed::<u64>(dropping);
    let duplicates = sorted_numbers(relayed.finished_duplicates(now));
    replaced_duplicates_are_closed(relayed, relayed, duplicates, now, c);
    assert(duplicates.contains(c) == duplicates.to_set().contains(c));
    let after = state.settled(now);
    lemma_closings_add_up(state, promoted, promoted, relayed, c);
    lemma_closings_add_up(state, relayed, relayed, after, c);
}

} // verus!
