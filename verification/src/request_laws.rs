//! What becomes of requests, whatever else happens around them.

use crate::address::{peer_of_key, sorted_peers, Component, PeerId};
use crate::ids::Id32;
use crate::laws::same_request;
use crate::loop_state::{ActionModel, LoopModel, PendingRequest, RequestOutcome};
use crate::metrics::{metrics_at, PathMetrics};
use crate::ordered::sorted_numbers;
use crate::peer_events::{InboundDecision, ResponseContext};
use crate::policy::{path_rank, P2pPath};
use crate::requests::{expiry_actions, first_with, peers_where};
use vstd::prelude::*;

verus! {

/// A caller is told of the end of its request.
pub open spec fn is_told(action: ActionModel, cancellation_id: u128, outcome: RequestOutcome) -> bool {
    action == (ActionModel::Finish { cancellation_id, outcome })
}

/// Among the actions that came in since, a caller is told of the end of its
/// request.
pub open spec fn told_since(
    before: LoopModel,
    after: LoopModel,
    cancellation_id: u128,
    outcome: RequestOutcome,
) -> bool {
    exists|i: int|
        before.actions.len() <= i < after.actions.len() && is_told(
            #[trigger] after.actions[i],
            cancellation_id,
            outcome,
        )
}

/// The caller of a request waits, and its time is over.
pub open spec fn is_late(request: PendingRequest, now: u64) -> bool {
    request.waiting && request.deadline <= now
}

/// The requests are as they were, and nobody is told anything; only the
/// transport is given other things to do.
pub open spec fn quiet(before: LoopModel, after: LoopModel) -> bool {
    &&& after.pending == before.pending
    &&& after.queued == before.queued
    &&& after.next_request == before.next_request
    &&& before.actions.is_prefix_of(after.actions)
    &&& forall|i: int|
        before.actions.len() <= i < after.actions.len() ==> !(#[trigger] after.actions[i] is Finish)
            && !(after.actions[i] is Send)
}

proof fn lemma_quiet_goes_on(a: LoopModel, b: LoopModel, c: LoopModel)
    requires
        quiet(a, b),
        quiet(b, c),
    ensures
        quiet(a, c),
{
    assert(a.actions.is_prefix_of(c.actions)) by {
        assert(a.actions =~= c.actions.subrange(0, a.actions.len() as int)) by {
            assert forall|i: int| 0 <= i < a.actions.len() implies a.actions[i] == c.actions[i] by {
                assert(a.actions[i] == b.actions[i]);
                assert(b.actions[i] == c.actions[i]);
            }
        }
    }
    assert forall|i: int| a.actions.len() <= i < c.actions.len() implies !(
    #[trigger] c.actions[i] is Finish) && !(c.actions[i] is Send) by {
        if i < b.actions.len() {
            assert(b.actions[i] == c.actions[i]);
        }
    }
}

proof fn lemma_quiet_same(before: LoopModel, after: LoopModel)
    requires
        after.pending == before.pending,
        after.queued == before.queued,
        after.next_request == before.next_request,
        after.actions == before.actions,
    ensures
        quiet(before, after),
{
    assert(before.actions =~= before.actions.subrange(0, before.actions.len() as int));
}

proof fn lemma_quiet_pushed(before: LoopModel, after: LoopModel, action: ActionModel)
    requires
        after.pending == before.pending,
        after.queued == before.queued,
        after.next_request == before.next_request,
        after.actions == before.actions.push(action),
        !(action is Finish),
        !(action is Send),
    ensures
        quiet(before, after),
{
    assert(before.actions =~= after.actions.subrange(0, before.actions.len() as int));
}

pub(crate) proof fn lemma_reconciling_is_quiet(state: LoopModel, peer: PeerId)
    ensures
        quiet(state, state.reconciled(peer)),
{
    reveal(LoopModel::reconciled);
    let after = state.reconciled(peer);
    if after.actions == state.actions {
        lemma_quiet_same(state, after);
    } else {
        lemma_quiet_pushed(state, after, after.actions.last());
    }
}

pub(crate) proof fn lemma_ensuring_is_quiet(state: LoopModel, peer: PeerId)
    ensures
        quiet(state, state.ensured(peer)),
{
    reveal(LoopModel::ensured);
    let after = state.ensured(peer);
    if after.actions == state.actions {
        lemma_quiet_same(state, after);
    } else {
        lemma_quiet_pushed(state, after, after.actions.last());
    }
}

pub(crate) proof fn lemma_retiring_is_quiet(state: LoopModel, peer: PeerId, now: u64)
    ensures
        quiet(state, state.non_policy_retired(peer, now)),
{
    reveal(LoopModel::non_policy_retired);
    lemma_quiet_same(state, state.non_policy_retired(peer, now));
}

/// What a request comes to that is to be sent: nothing where nobody waits; its
/// caller is told where its time is over, or where it was sent six times; else
/// it is sent, at the tier that is selected and over a settled connection at that
/// tier, or it waits behind the others.
pub proof fn a_request_is_sent_or_waits(state: LoopModel, request: PendingRequest, now: u64)
    ensures
        ({
            let after = state.queued_or_dispatched(request, now);
            let id = request.cancellation_id;
            if !request.waiting {
                after == state
            } else if request.deadline <= now {
                after == state.acting(
                    ActionModel::Finish {
                        cancellation_id: id,
                        outcome: RequestOutcome::DeadlineExpired,
                    },
                )
            } else if request.attempts >= 6 {
                after == state.acting(
                    ActionModel::Finish {
                        cancellation_id: id,
                        outcome: RequestOutcome::AttemptsExhausted,
                    },
                )
            } else {
                ||| {
                    &&& after.queued == state.queued.push(request)
                    &&& after.pending == state.pending
                    &&& after.next_request == state.next_request
                    &&& after.dial_exists(request.peer, after.tier(request.peer))
                        || after.installed_for(request.peer) == Set::<Seq<Component>>::empty()
                        || after.unsettled(request.peer)
                }
                ||| {
                    let number = state.next_request;
                    let sent = after.pending[number];
                    &&& after.queued == state.queued
                    &&& after.pending == state.pending.insert(number, sent)
                    &&& same_request(request, sent)
                    &&& sent.attempts == request.attempts + 1
                    &&& sent.started_at == now
                    &&& sent.transport_tier == after.tier(request.peer)
                    &&& after.links.healthy_at(request.peer, sent.transport_tier, None)
                    &&& !after.unsettled(request.peer)
                    &&& after.actions.last() == (ActionModel::Send {
                        request: number,
                        cancellation_id: id,
                        peer: request.peer,
                    })
                    &&& after.next_request == number.wrapping_add(1)
                }
            }
        }),
{
    reveal(LoopModel::queued_or_dispatched);
    reveal(LoopModel::dispatched);
    reveal(LoopModel::non_policy_retired);
    reveal(LoopModel::ensured);
    let peer = request.peer;
    let chosen = state.reconciled(peer);
    lemma_reconciling_is_quiet(state, peer);
    lemma_ensuring_is_quiet(chosen, peer);
    lemma_retiring_is_quiet(chosen, peer, now);
    let after = state.queued_or_dispatched(request, now);
    if request.waiting && request.deadline > now && request.attempts < 6 {
        let tier = chosen.tier(peer);
        let retired = chosen.non_policy_retired(peer, now);
        if chosen.links.healthy_at(peer, tier, None) {
            let c = choose|c: u64| #[trigger]
                chosen.links.paths.contains_key(c) && chosen.links.healthy(c, peer) && path_rank(
                    chosen.links.mode,
                    chosen.links.paths[c].path,
                ) == tier;
            if !retired.unsettled(peer) {
                assert(retired.links.paths.contains_key(c));
                assert(retired.links.healthy(c, peer));
                assert(after.links.paths.contains_key(c) && after.links.healthy(c, peer));
                assert(after.links.healthy_at(peer, tier, None));
                assert(after.unsettled(peer) == retired.unsettled(peer));
            } else {
                assert(after.unsettled(peer) == retired.unsettled(peer));
            }
        } else {
            let ready = chosen.ensured(peer);
            assert(after.queued == state.queued.push(request));
            assert(after.tier(peer) == tier);
            if !chosen.dial_exists(peer, tier) && chosen.installed_for(peer) != Set::<
                Seq<Component>,
            >::empty() {
                let number = chosen.next_connection;
                assert(after.dials.contains_key(number));
            } else if chosen.dial_exists(peer, tier) {
                let number = choose|number: u64| #[trigger]
                    chosen.dials.contains_key(number) && chosen.dials[number].peer == peer
                        && chosen.dials[number].tier == tier;
                assert(after.dials.contains_key(number));
            }
        }
    }
}

/// Requests that wait are carried on: what is with the transport stays there as
/// it is, nobody is told that its time is over, and every request that may still
/// be sent waits on or is with the transport, the same as it was signed.
pub open spec fn carried_on(before: LoopModel, after: LoopModel) -> bool {
    &&& before.next_request <= after.next_request
    &&& after.next_request + after.queued.len() <= before.next_request + before.queued.len()
    &&& forall|r: u64| #[trigger]
        before.pending.contains_key(r) ==> after.pending.contains_key(r) && after.pending[r]
            == before.pending[r]
    &&& forall|r: u64| #[trigger]
        after.pending.contains_key(r) ==> before.pending.contains_key(r) || exists|i: int|
            0 <= i < before.queued.len() && same_request(
                #[trigger] before.queued[i],
                after.pending[r],
            )
    &&& before.actions.is_prefix_of(after.actions)
    &&& forall|i: int, id: u128|
        before.actions.len() <= i < after.actions.len() ==> !(#[trigger] is_told(
            after.actions[i],
            id,
            RequestOutcome::DeadlineExpired,
        ))
    &&& forall|i: int|
        0 <= i < before.queued.len() && (#[trigger] before.queued[i]).attempts < 6
            ==> after.queued.contains(before.queued[i]) || exists|r: u64| #[trigger]
            after.pending.contains_key(r) && same_request(before.queued[i], after.pending[r])
    &&& forall|i: int|
        0 <= i < after.queued.len() ==> before.queued.contains(#[trigger] after.queued[i])
}

/// Every request with the transport has a number below the next one, and there
/// are numbers left for those that wait.
pub open spec fn numbered(state: LoopModel) -> bool {
    &&& forall|r: u64| #[trigger] state.pending.contains_key(r) ==> r < state.next_request
    &&& state.next_request + state.queued.len() <= u64::MAX
}

proof fn lemma_prefix_goes_on(a: Seq<ActionModel>, b: Seq<ActionModel>, c: Seq<ActionModel>)
    requires
        a.is_prefix_of(b),
        b.is_prefix_of(c),
    ensures
        a.is_prefix_of(c),
        a.len() <= b.len() <= c.len(),
        forall|i: int| 0 <= i < b.len() ==> #[trigger] c[i] == b[i],
{
    assert forall|i: int| 0 <= i < b.len() implies #[trigger] c[i] == b[i] by {
        assert(c.subrange(0, b.len() as int)[i] == c[i]);
    }
    assert(a =~= c.subrange(0, a.len() as int)) by {
        assert forall|i: int| 0 <= i < a.len() implies a[i] == c[i] by {
            assert(b.subrange(0, a.len() as int)[i] == b[i]);
        }
    }
}

proof fn lemma_carried_further(a: LoopModel, b: LoopModel, c: LoopModel)
    requires
        carried_on(a, b),
        carried_on(b, c),
    ensures
        carried_on(a, c),
{
    lemma_prefix_goes_on(a.actions, b.actions, c.actions);
    assert forall|i: int, id: u128| a.actions.len() <= i < c.actions.len() implies !(
    #[trigger] is_told(c.actions[i], id, RequestOutcome::DeadlineExpired)) by {
        if i < b.actions.len() {
            assert(c.actions[i] == b.actions[i]);
            assert(!is_told(b.actions[i], id, RequestOutcome::DeadlineExpired));
        }
    }
    assert forall|i: int|
        0 <= i < a.queued.len() && (#[trigger] a.queued[i]).attempts < 6 implies c.queued.contains(
        a.queued[i],
    ) || exists|r: u64| #[trigger]
        c.pending.contains_key(r) && same_request(a.queued[i], c.pending[r]) by {
        let q = a.queued[i];
        if b.queued.contains(q) {
            let k = choose|k: int| 0 <= k < b.queued.len() && b.queued[k] == q;
            assert(b.queued[k].attempts < 6);
        } else {
            let r = choose|r: u64| #[trigger]
                b.pending.contains_key(r) && same_request(q, b.pending[r]);
            assert(c.pending.contains_key(r));
        }
    }
    assert forall|r: u64| #[trigger] c.pending.contains_key(r) implies a.pending.contains_key(r)
        || exists|i: int|
        0 <= i < a.queued.len() && same_request(#[trigger] a.queued[i], c.pending[r]) by {
        if b.pending.contains_key(r) {
            assert(c.pending[r] == b.pending[r]);
        } else {
            let i = choose|i: int|
                0 <= i < b.queued.len() && same_request(#[trigger] b.queued[i], c.pending[r]);
            assert(a.queued.contains(b.queued[i]));
            let k = choose|k: int| 0 <= k < a.queued.len() && a.queued[k] == b.queued[i];
            assert(same_request(a.queued[k], c.pending[r]));
        }
    }
    assert forall|i: int| 0 <= i < c.queued.len() implies a.queued.contains(
        #[trigger] c.queued[i],
    ) by {
        assert(b.queued.contains(c.queued[i]));
        let k = choose|k: int| 0 <= k < b.queued.len() && b.queued[k] == c.queued[i];
        assert(a.queued.contains(b.queued[k]));
    }
}

proof fn lemma_carried_itself(state: LoopModel)
    ensures
        carried_on(state, state),
{
    assert(state.actions =~= state.actions.subrange(0, state.actions.len() as int));
}

/// All requests that wait have callers, and time.
pub open spec fn all_live(state: LoopModel, now: u64) -> bool {
    forall|i: int|
        0 <= i < state.queued.len() ==> (#[trigger] state.queued[i]).waiting
            && state.queued[i].deadline > now
}

proof fn lemma_first_is_carried_on(state: LoopModel, peer: PeerId, now: u64)
    requires
        numbered(state),
        all_live(state, now),
        state.queued.len() > 0,
    ensures
        carried_on(state, state.first_drained(peer, now)),
        numbered(state.first_drained(peer, now)),
        all_live(state.first_drained(peer, now), now),
{
    let request = state.queued[0];
    let tail = state.queued.drop_first();
    let rest = LoopModel { queued: tail, ..state };
    let after = state.first_drained(peer, now);
    assert forall|i: int| 0 <= i < tail.len() implies tail[i] == state.queued[i + 1] by {}
    if request.peer == peer {
        a_request_is_sent_or_waits(rest, request, now);
        lemma_sending_keeps_actions(rest, request, now);
    } else {
        assert(after.queued == tail.push(request));
        assert(state.actions =~= state.actions.subrange(0, state.actions.len() as int));
    }
    assert(after.queued == tail || after.queued == tail.push(request));
    assert forall|i: int| 0 <= i < after.queued.len() implies state.queued.contains(
        #[trigger] after.queued[i],
    ) by {
        if i < tail.len() {
            assert(after.queued[i] == state.queued[i + 1]);
        } else {
            assert(after.queued[i] == state.queued[0]);
        }
    }
    assert forall|i: int| 0 <= i < after.queued.len() implies (
    #[trigger] after.queued[i]).waiting && after.queued[i].deadline > now by {
        assert(state.queued.contains(after.queued[i]));
        let k = choose|k: int| 0 <= k < state.queued.len() && state.queued[k] == after.queued[i];
        assert(state.queued[k].waiting);
    }
    assert forall|i: int|
        0 <= i < state.queued.len() && (#[trigger] state.queued[i]).attempts
            < 6 implies after.queued.contains(state.queued[i]) || exists|r: u64| #[trigger]
        after.pending.contains_key(r) && same_request(state.queued[i], after.pending[r]) by {
        if i > 0 {
            assert(after.queued[i - 1] == state.queued[i]);
        } else if after.queued == tail.push(request) {
            assert(after.queued[tail.len() as int] == request);
        } else {
            assert(after.pending.contains_key(state.next_request));
        }
    }
    assert forall|r: u64| #[trigger] after.pending.contains_key(r) implies state.pending.contains_key(
        r,
    ) || exists|i: int|
        0 <= i < state.queued.len() && same_request(#[trigger] state.queued[i], after.pending[r]) by {
        if !state.pending.contains_key(r) {
            assert(same_request(state.queued[0], after.pending[r]));
        }
    }
}

/// Sending a request that is live tells nobody that its time is over.
proof fn lemma_sending_keeps_actions(state: LoopModel, request: PendingRequest, now: u64)
    requires
        request.waiting,
        request.deadline > now,
    ensures
        state.actions.is_prefix_of(state.queued_or_dispatched(request, now).actions),
        forall|i: int, id: u128|
            state.actions.len() <= i < state.queued_or_dispatched(request, now).actions.len()
                ==> !(#[trigger] is_told(
                state.queued_or_dispatched(request, now).actions[i],
                id,
                RequestOutcome::DeadlineExpired,
            )),
{
    reveal(LoopModel::queued_or_dispatched);
    reveal(LoopModel::dispatched);
    let peer = request.peer;
    let chosen = state.reconciled(peer);
    lemma_reconciling_is_quiet(state, peer);
    lemma_ensuring_is_quiet(chosen, peer);
    lemma_retiring_is_quiet(chosen, peer, now);
    lemma_quiet_goes_on(state, chosen, chosen.ensured(peer));
    lemma_quiet_goes_on(state, chosen, chosen.non_policy_retired(peer, now));
    let after = state.queued_or_dispatched(request, now);
    let ready = if chosen.links.healthy_at(peer, chosen.tier(peer), None) {
        chosen.non_policy_retired(peer, now)
    } else {
        chosen.ensured(peer)
    };
    if request.attempts >= 6 {
        assert(state.actions =~= after.actions.subrange(0, state.actions.len() as int));
    } else if after.actions == ready.actions {
    } else {
        assert(ready.actions =~= after.actions.subrange(0, ready.actions.len() as int));
        lemma_prefix_goes_on(state.actions, ready.actions, after.actions);
        assert forall|i: int, id: u128| state.actions.len() <= i < after.actions.len() implies !(
        #[trigger] is_told(after.actions[i], id, RequestOutcome::DeadlineExpired)) by {
            if i < ready.actions.len() {
                assert(after.actions[i] == ready.actions[i]);
            }
        }
    }
}

proof fn lemma_steps_carry_on(state: LoopModel, peer: PeerId, now: u64, steps: nat)
    requires
        numbered(state),
        all_live(state, now),
    ensures
        carried_on(state, state.drained_steps(peer, now, steps)),
        numbered(state.drained_steps(peer, now, steps)),
        all_live(state.drained_steps(peer, now, steps), now),
    decreases steps,
{
    lemma_carried_itself(state);
    if steps > 0 && state.queued.len() > 0 {
        let next = state.first_drained(peer, now);
        lemma_first_is_carried_on(state, peer, now);
        lemma_steps_carry_on(next, peer, now, (steps - 1) as nat);
        lemma_carried_further(state, next, next.drained_steps(peer, now, (steps - 1) as nat));
    }
}

proof fn lemma_each_carries_on(state: LoopModel, peers: Seq<PeerId>, now: u64)
    requires
        numbered(state),
        all_live(state, now),
    ensures
        carried_on(state, state.each_drained(peers, now)),
        numbered(state.each_drained(peers, now)),
        all_live(state.each_drained(peers, now), now),
    decreases peers.len(),
{
    lemma_carried_itself(state);
    if peers.len() > 0 {
        let before = state.each_drained(peers.drop_last(), now);
        lemma_each_carries_on(state, peers.drop_last(), now);
        reveal(LoopModel::drained);
        lemma_steps_carry_on(before, peers.last(), now, before.queued.len());
        lemma_carried_further(state, before, before.drained(peers.last(), now));
    }
}

proof fn lemma_forgetting_selections(state: LoopModel, peers: Seq<PeerId>)
    ensures
        state.each_selection_forgotten(peers).pending == state.pending,
        state.each_selection_forgotten(peers).queued == state.queued,
        state.each_selection_forgotten(peers).actions == state.actions,
        state.each_selection_forgotten(peers).next_request == state.next_request,
    decreases peers.len(),
{
    if peers.len() > 0 {
        lemma_forgetting_selections(state, peers.drop_last());
    }
}

proof fn lemma_expiry_actions(requests: Seq<PendingRequest>, now: u64)
    ensures
        forall|i: int|
            0 <= i < expiry_actions(requests, now).len() ==> exists|k: int|
                0 <= k < requests.len() && is_late(#[trigger] requests[k], now) && is_told(
                    #[trigger] expiry_actions(requests, now)[i],
                    requests[k].cancellation_id,
                    RequestOutcome::DeadlineExpired,
                ),
        forall|k: int|
            0 <= k < requests.len() && is_late(#[trigger] requests[k], now) ==> exists|i: int|
                0 <= i < expiry_actions(requests, now).len() && is_told(
                    #[trigger] expiry_actions(requests, now)[i],
                    requests[k].cancellation_id,
                    RequestOutcome::DeadlineExpired,
                ),
    decreases requests.len(),
{
    if requests.len() > 0 {
        let fewer = requests.drop_last();
        lemma_expiry_actions(fewer, now);
        let before = expiry_actions(fewer, now);
        let after = expiry_actions(requests, now);
        assert forall|i: int| 0 <= i < after.len() implies exists|k: int|
            0 <= k < requests.len() && is_late(#[trigger] requests[k], now) && is_told(
                #[trigger] after[i],
                requests[k].cancellation_id,
                RequestOutcome::DeadlineExpired,
            ) by {
            if i < before.len() {
                let k = choose|k: int|
                    0 <= k < fewer.len() && is_late(#[trigger] fewer[k], now) && is_told(
                        #[trigger] before[i],
                        fewer[k].cancellation_id,
                        RequestOutcome::DeadlineExpired,
                    );
                assert(requests[k] == fewer[k] && after[i] == before[i]);
            } else {
                assert(is_late(requests[requests.len() - 1], now));
            }
        }
        assert forall|k: int|
            0 <= k < requests.len() && is_late(#[trigger] requests[k], now) implies exists|i: int|
            0 <= i < after.len() && is_told(
                #[trigger] after[i],
                requests[k].cancellation_id,
                RequestOutcome::DeadlineExpired,
            ) by {
            if k < fewer.len() {
                assert(fewer[k] == requests[k]);
                let i = choose|i: int|
                    0 <= i < before.len() && is_told(
                        #[trigger] before[i],
                        fewer[k].cancellation_id,
                        RequestOutcome::DeadlineExpired,
                    );
                assert(after[i] == before[i]);
            } else {
                assert(is_told(
                    after[before.len() as int],
                    requests[k].cancellation_id,
                    RequestOutcome::DeadlineExpired,
                ));
            }
        }
    }
}

proof fn lemma_timed_out(state: LoopModel, list: Seq<u64>)
    requires
        list.no_duplicates(),
        forall|i: int| 0 <= i < list.len() ==> state.pending.contains_key(#[trigger] list[i]),
    ensures
        ({
            let after = state.each_timed_out(list);
            &&& after.queued == state.queued
            &&& after.next_request == state.next_request
            &&& after.pending.dom() == state.pending.dom()
            &&& forall|r: u64| #[trigger]
                state.pending.contains_key(r) ==> after.pending[r] == (if list.contains(r) {
                    PendingRequest { waiting: false, ..state.pending[r] }
                } else {
                    state.pending[r]
                })
            &&& after.actions.len() == state.actions.len() + list.len()
            &&& state.actions.is_prefix_of(after.actions)
            &&& forall|i: int|
                0 <= i < list.len() ==> is_told(
                    #[trigger] after.actions[state.actions.len() + i],
                    state.pending[list[i]].cancellation_id,
                    RequestOutcome::DeadlineExpired,
                )
        }),
    decreases list.len(),
{
    if list.len() == 0 {
        assert(state.actions =~= state.actions.subrange(0, state.actions.len() as int));
    } else {
        let fewer = list.drop_last();
        assert forall|i: int| 0 <= i < fewer.len() implies state.pending.contains_key(
            #[trigger] fewer[i],
        ) by {
            assert(fewer[i] == list[i]);
        }
        lemma_timed_out(state, fewer);
        let before = state.each_timed_out(fewer);
        let after = state.each_timed_out(list);
        let last = list.last();
        assert(state.pending.contains_key(list[list.len() - 1]));
        assert(!fewer.contains(last)) by {
            if fewer.contains(last) {
                let k = choose|k: int| 0 <= k < fewer.len() && fewer[k] == last;
                assert(list[k] == list[list.len() - 1]);
            }
        }
        assert(after.pending.dom() =~= state.pending.dom());
        assert forall|r: u64| #[trigger] list.contains(r) == (fewer.contains(r) || r == last) by {
            if list.contains(r) && r != last {
                let k = choose|k: int| 0 <= k < list.len() && list[k] == r;
                assert(fewer[k] == r);
            }
            if fewer.contains(r) {
                let k = choose|k: int| 0 <= k < fewer.len() && fewer[k] == r;
                assert(list[k] == r);
            }
            assert(list[list.len() - 1] == last);
        }
        assert(before.actions =~= after.actions.subrange(0, before.actions.len() as int));
        lemma_prefix_goes_on(state.actions, before.actions, after.actions);
        assert forall|i: int| 0 <= i < list.len() implies is_told(
            #[trigger] after.actions[state.actions.len() + i],
            state.pending[list[i]].cancellation_id,
            RequestOutcome::DeadlineExpired,
        ) by {
            if i < fewer.len() {
                assert(fewer[i] == list[i]);
                assert(after.actions[state.actions.len() + i] == before.actions[state.actions.len()
                    + i]);
            }
        }
    }
}

/// Of the requests that wait, those that are live stay, in their order.
proof fn lemma_swept(state: LoopModel, now: u64)
    ensures
        all_live(state.swept(now), now),
        forall|q: PendingRequest| #[trigger]
            state.swept(now).queued.contains(q) <==> state.queued.contains(q) && q.waiting
                && q.deadline > now,
        state.swept(now).queued.len() <= state.queued.len(),
{
    broadcast use vstd::seq_lib::group_filter_ensures;

    let live = |r: PendingRequest| r.live(now);
    let after = state.swept(now).queued;
    assert forall|q: PendingRequest| #[trigger] after.contains(q) <==> state.queued.contains(q)
        && q.waiting && q.deadline > now by {
        if after.contains(q) {
            let k = choose|k: int| 0 <= k < after.len() && after[k] == q;
            assert(live(after[k]));
            state.queued.lemma_filter_contains_rev(live, q);
        }
        if state.queued.contains(q) && q.waiting && q.deadline > now {
            assert(live(q));
            let k = choose|k: int| 0 <= k < state.queued.len() && state.queued[k] == q;
            state.queued.lemma_filter_contains(live, k);
        }
    }
    assert forall|i: int| 0 <= i < after.len() implies (#[trigger] after[i]).waiting
        && after[i].deadline > now by {
        assert(after.contains(after[i]));
    }
}

/// Maintenance ends just what is late. A request that is with the transport is
/// ended for its caller if and only if the caller waits and its deadline is not
/// after the time of the maintenance; every other stays in flight as it is. The
/// callers that are told that their time is over are those of the requests, with
/// the transport or waiting to be sent, that are late, and no others. A request
/// that waits with time left is not lost: it waits on, or is sent as it was
/// signed.
pub proof fn maintenance_ends_just_what_is_late(state: LoopModel, now: u64)
    requires
        state.pending.dom().finite(),
        numbered(state),
    ensures
        ({
            let after = state.maintained(now);
            &&& forall|r: u64| #[trigger]
                state.pending.contains_key(r) ==> after.pending.contains_key(r) && after.pending[r]
                    == (if state.pending[r].waiting && state.pending[r].deadline <= now {
                    PendingRequest { waiting: false, ..state.pending[r] }
                } else {
                    state.pending[r]
                })
            &&& forall|id: u128| #[trigger]
                told_since(state, after, id, RequestOutcome::DeadlineExpired) <==> ((exists|r: u64|
                 #[trigger]
                    state.pending.contains_key(r) && state.pending[r].waiting
                        && state.pending[r].deadline <= now && state.pending[r].cancellation_id
                        == id) || (exists|i: int|
                    0 <= i < state.queued.len() && (#[trigger] state.queued[i]).waiting
                        && state.queued[i].deadline <= now && state.queued[i].cancellation_id
                        == id))
            &&& forall|i: int|
                0 <= i < state.queued.len() && (#[trigger] state.queued[i]).waiting
                    && state.queued[i].deadline > now && state.queued[i].attempts < 6
                    ==> after.queued.contains(state.queued[i]) || exists|r: u64| #[trigger]
                    after.pending.contains_key(r) && same_request(state.queued[i], after.pending[r])
            &&& forall|i: int|
                0 <= i < after.queued.len() ==> state.queued.contains(#[trigger] after.queued[i])
                    && after.queued[i].waiting && after.queued[i].deadline > now
            &&& forall|r: u64| #[trigger]
                after.pending.contains_key(r) && !state.pending.contains_key(r) ==> exists|i: int|
                    0 <= i < state.queued.len() && same_request(
                        #[trigger] state.queued[i],
                        after.pending[r],
                    )
        }),
{
    let swept = state.swept(now);
    let late = swept.overdue(now);
    lemma_swept(state, now);
    lemma_expiry_actions(state.queued, now);
    crate::ordered::lemma_sorted_exists::<u64>(late);
    let list = sorted_numbers(late);
    assert(list.no_duplicates());
    assert forall|r: u64| #[trigger] list.contains(r) == late.contains(r) by {
        assert(list.to_set().contains(r) == list.contains(r));
    }
    assert forall|i: int| 0 <= i < list.len() implies swept.pending.contains_key(
        #[trigger] list[i],
    ) by {
        assert(list.contains(list[i]));
    }
    lemma_timed_out(swept, list);
    let timed = swept.each_timed_out(list);
    let expired = LoopModel { links: timed.links.closed_expired(now), ..timed };
    let peers = sorted_peers(peers_where(expired.queued, |r: PendingRequest| true));
    assert forall|r: u64| #[trigger] expired.pending.contains_key(r) implies r
        < expired.next_request by {
        assert(state.pending.contains_key(r));
    }
    lemma_each_carries_on(expired, peers, now);
    let drained = expired.each_drained(peers, now);
    lemma_forgetting_selections(drained, sorted_peers(state.released(now)));
    let after = state.maintained(now);
    assert(state.actions =~= swept.actions.subrange(0, state.actions.len() as int));
    lemma_prefix_goes_on(state.actions, swept.actions, timed.actions);
    lemma_prefix_goes_on(swept.actions, timed.actions, drained.actions);
    lemma_prefix_goes_on(state.actions, timed.actions, drained.actions);
    assert forall|r: u64| #[trigger] state.pending.contains_key(r) implies late.contains(r)
        == is_late(state.pending[r], now) by {}
    assert forall|r: u64| #[trigger]
        state.pending.contains_key(r) implies after.pending.contains_key(r) && after.pending[r] == (
    if state.pending[r].waiting && state.pending[r].deadline <= now {
        PendingRequest { waiting: false, ..state.pending[r] }
    } else {
        state.pending[r]
    }) by {
        assert(expired.pending.contains_key(r));
        assert(list.contains(r) == late.contains(r));
    }
    assert forall|id: u128| #[trigger]
        told_since(state, after, id, RequestOutcome::DeadlineExpired) <==> ((exists|r: u64|
         #[trigger]
            state.pending.contains_key(r) && state.pending[r].waiting && state.pending[r].deadline
                <= now && state.pending[r].cancellation_id == id) || (exists|i: int|
            0 <= i < state.queued.len() && (#[trigger] state.queued[i]).waiting
                && state.queued[i].deadline <= now && state.queued[i].cancellation_id == id)) by {
        let due = expiry_actions(state.queued, now);
        if told_since(state, after, id, RequestOutcome::DeadlineExpired) {
            let i = choose|i: int|
                state.actions.len() <= i < after.actions.len() && is_told(
                    #[trigger] after.actions[i],
                    id,
                    RequestOutcome::DeadlineExpired,
                );
            if i < swept.actions.len() {
                assert(after.actions[i] == timed.actions[i]);
                assert(timed.actions[i] == swept.actions[i]);
                assert(swept.actions[i] == due[i - state.actions.len()]);
            } else if i < timed.actions.len() {
                assert(after.actions[i] == timed.actions[i]);
                let k = i - swept.actions.len();
                assert(timed.actions[swept.actions.len() + k] == timed.actions[i]);
                assert(list.contains(list[k]));
                assert(state.pending.contains_key(list[k]));
            }
        }
        if exists|r: u64| #[trigger]
            state.pending.contains_key(r) && state.pending[r].waiting && state.pending[r].deadline
                <= now && state.pending[r].cancellation_id == id {
            let r = choose|r: u64| #[trigger]
                state.pending.contains_key(r) && state.pending[r].waiting
                    && state.pending[r].deadline <= now && state.pending[r].cancellation_id == id;
            assert(list.contains(r));
            let k = choose|k: int| 0 <= k < list.len() && list[k] == r;
            assert(is_told(
                timed.actions[swept.actions.len() + k],
                id,
                RequestOutcome::DeadlineExpired,
            ));
            assert(after.actions[swept.actions.len() + k] == timed.actions[swept.actions.len()
                + k]);
        }
        if exists|i: int|
            0 <= i < state.queued.len() && (#[trigger] state.queued[i]).waiting
                && state.queued[i].deadline <= now && state.queued[i].cancellation_id == id {
            let q = choose|q: int|
                0 <= q < state.queued.len() && (#[trigger] state.queued[q]).waiting
                    && state.queued[q].deadline <= now && state.queued[q].cancellation_id == id;
            assert(is_late(state.queued[q], now));
            let i = choose|i: int|
                0 <= i < due.len() && is_told(
                    #[trigger] due[i],
                    state.queued[q].cancellation_id,
                    RequestOutcome::DeadlineExpired,
                );
            let at = state.actions.len() + i;
            assert(swept.actions[at] == due[i]);
            assert(after.actions[at] == due[i]);
        }
    }
    assert forall|i: int|
        0 <= i < state.queued.len() && (#[trigger] state.queued[i]).waiting
            && state.queued[i].deadline > now && state.queued[i].attempts
            < 6 implies after.queued.contains(state.queued[i]) || exists|r: u64| #[trigger]
        after.pending.contains_key(r) && same_request(state.queued[i], after.pending[r]) by {
        assert(swept.queued.contains(state.queued[i]));
        let k = choose|k: int| 0 <= k < swept.queued.len() && swept.queued[k] == state.queued[i];
        assert(expired.queued[k].attempts < 6);
    }
    assert forall|i: int| 0 <= i < after.queued.len() implies state.queued.contains(
        #[trigger] after.queued[i],
    ) && after.queued[i].waiting && after.queued[i].deadline > now by {
        assert(drained.queued[i].waiting);
        assert(expired.queued.contains(drained.queued[i]));
        assert(swept.queued.contains(after.queued[i]));
    }
    assert forall|r: u64| #[trigger]
        after.pending.contains_key(r) && !state.pending.contains_key(r) implies exists|i: int|
        0 <= i < state.queued.len() && same_request(#[trigger] state.queued[i], after.pending[r]) by {
        assert(drained.pending.contains_key(r));
        assert(!expired.pending.contains_key(r));
        let k = choose|k: int|
            0 <= k < expired.queued.len() && same_request(
                #[trigger] expired.queued[k],
                after.pending[r],
            );
        assert(swept.queued.contains(expired.queued[k]));
        let i = choose|i: int| 0 <= i < state.queued.len() && state.queued[i] == expired.queued[k];
        assert(same_request(state.queued[i], after.pending[r]));
    }
}

/// A response ends its request, whatever it says: the request is no longer with
/// the transport, and its caller, if it waits, is told once. It is told that the
/// answer came only if that came from the peer that was asked, validly signed by
/// the node that was asked, in the version that is spoken, and named this very
/// request of this node; else that it came from another peer, or does not belong
/// to the request. A response to nothing that is asked changes no request.
pub proof fn a_response_ends_just_its_request(
    state: LoopModel,
    request: u64,
    peer: PeerId,
    connection: u64,
    bytes: Option<u64>,
    response: ResponseContext,
    now: u64,
)
    ensures
        ({
            let after = state.response_heard(request, peer, connection, bytes, response, now);
            if !state.pending.contains_key(request) {
                &&& after.pending == state.pending
                &&& after.queued == state.queued
                &&& after.actions == state.actions
            } else {
                let asked = state.pending[request];
                let belongs = response == (ResponseContext {
                    signature_valid: true,
                    signer: asked.recipient,
                    format_version: 1,
                    request_id: asked.request_id,
                    recipient: asked.response_recipient,
                    request_hash: asked.request_hash,
                    succeeded: response.succeeded,
                }) && peer_of_key(asked.recipient@) == Some(asked.peer);
                let outcome = if asked.peer != peer {
                    RequestOutcome::WrongPeer
                } else if belongs {
                    RequestOutcome::Answered
                } else {
                    RequestOutcome::Mismatched
                };
                &&& after.pending == state.pending.remove(request)
                &&& after.queued == state.queued
                &&& asked.waiting ==> after.actions.len() > state.actions.len() && is_told(
                    after.actions.last(),
                    asked.cancellation_id,
                    outcome,
                )
                &&& forall|i: int|
                    state.actions.len() <= i < after.actions.len() - (if asked.waiting {
                        1int
                    } else {
                        0
                    }) ==> !(#[trigger] after.actions[i] is Finish)
            }
        }),
{
    let heard = state.heard(peer, connection);
    if state.pending.contains_key(request) {
        reveal(LoopModel::request_answered);
        let asked = state.pending[request];
        let taken = LoopModel { pending: heard.pending.remove(request), ..heard };
        let path = state.links.application_path(connection);
        let size = match bytes {
            Some(bytes) => bytes,
            None => 0,
        };
        let outcome = taken.verdict(asked, peer, response);
        let counted = if asked.peer == peer {
            taken.transferred(peer, path, asked.request_bytes, size)
        } else {
            taken
        };
        let logged = LoopModel {
            log: counted.log.request_ended(
                path,
                asked.started_at,
                now,
                outcome == RequestOutcome::Answered && response.succeeded,
            ),
            ..counted
        };
        lemma_quiet_same(taken, logged);
        lemma_observing_is_quiet(logged, peer, connection, now);
        lemma_quiet_goes_on(taken, logged, logged.observed(peer, connection, now));
    }
}

pub(crate) proof fn lemma_observing_is_quiet(
    state: LoopModel,
    peer: PeerId,
    connection: u64,
    now: u64,
)
    ensures
        quiet(state, state.observed(peer, connection, now)),
{
    reveal(LoopModel::observed);
    reveal(LoopModel::promoted);
    lemma_reconciling_is_quiet(state, peer);
    let start = state.reconciled(peer);
    if start.links.paths.contains_key(connection) {
        let tier = path_rank(state.mode(), start.links.paths[connection].path);
        let promoted = start.promoted(peer, tier, now);
        lemma_quiet_same(start, promoted);
        lemma_ensuring_is_quiet(start, peer);
        let ensured = start.ensured(peer);
        lemma_retiring_is_quiet(promoted, peer, now);
        lemma_retiring_is_quiet(ensured, peer, now);
        lemma_retiring_is_quiet(start, peer, now);
        lemma_quiet_goes_on(start, promoted, promoted.non_policy_retired(peer, now));
        lemma_quiet_goes_on(start, ensured, ensured.non_policy_retired(peer, now));
        lemma_quiet_goes_on(state, start, state.observed(peer, connection, now));
    }
}

/// The bytes of a request and its response count for the peer that was asked,
/// and on the path that the response came over: what was sent as sent, and what
/// came as received. A request of a peer counts as received, and a response to it
/// as sent once the transport has sent it to that peer.
pub proof fn bytes_count_for_the_peer_that_was_asked(
    state: LoopModel,
    peer: PeerId,
    path: P2pPath,
    sent: u64,
    received: u64,
)
    ensures
        ({
            let after = state.transferred(peer, Some(path), sent, received);
            let before = metrics_at(state.log.metrics, path);
            &&& metrics_at(after.log.metrics, path) == (PathMetrics {
                application_bytes_sent: before.application_bytes_sent.saturating_add(sent),
                application_bytes_received: before.application_bytes_received.saturating_add(
                    received,
                ),
                ..before
            })
            &&& state.book.retains_history(peer) ==> {
                &&& after.transfers.contains_key(peer)
                &&& after.transfers[peer].sent == (if state.transfers.contains_key(peer) {
                    state.transfers[peer].sent
                } else {
                    0
                }).saturating_add(sent)
                &&& after.transfers[peer].received == (if state.transfers.contains_key(peer) {
                    state.transfers[peer].received
                } else {
                    0
                }).saturating_add(received)
            }
            &&& !state.book.retains_history(peer) ==> after.transfers == state.transfers
                && after.path_transfers == state.path_transfers
            &&& forall|other: PeerId|
                other != peer ==> after.transfers.contains_key(other)
                    == #[trigger] state.transfers.contains_key(other) && after.transfers[other]
                    == state.transfers[other]
            &&& after.pending == state.pending && after.queued == state.queued && after.actions
                == state.actions && after.links == state.links
        }),
{
}

/// A request of a peer is taken up only if the peer itself signed it and there is
/// capacity, and only then does the peer count as busy with it. A request that
/// came to nothing, or was answered, is no longer worked on; and what was sent
/// counts only for the peer that it was meant for.
pub proof fn requests_of_peers_are_taken_up_in_their_own_name(
    state: LoopModel,
    request: u64,
    peer: PeerId,
    connection: u64,
    bytes: Option<u64>,
    signer: Id32,
    capacity: bool,
)
    ensures
        ({
            let (after, decision) = state.request_heard(
                request,
                peer,
                connection,
                bytes,
                signer,
                capacity,
            );
            let own = peer_of_key(signer@) == Some(peer);
            let path = state.links.application_path(connection);
            &&& decision == (if !own {
                InboundDecision::Ignored
            } else if !capacity {
                InboundDecision::Refused { path }
            } else {
                InboundDecision::Accepted { path }
            })
            &&& after.inbound == (if own && capacity {
                state.inbound.insert(request, peer)
            } else {
                state.inbound
            })
            &&& after.pending == state.pending && after.queued == state.queued && after.actions
                == state.actions
        }),
        ({
            let after = state.response_sent(request, peer);
            let counts = state.responses.contains_key(request) && state.responses[request].peer
                == peer;
            &&& after.inbound == state.inbound.remove(request)
            &&& after.responses == state.responses.remove(request)
            &&& !counts ==> after.transfers == state.transfers && after.log == state.log
            &&& counts && state.responses[request].path is Some ==> metrics_at(
                after.log.metrics,
                state.responses[request].path->0,
            ).application_bytes_sent == metrics_at(
                state.log.metrics,
                state.responses[request].path->0,
            ).application_bytes_sent.saturating_add(state.responses[request].bytes)
        }),
        state.inbound_failed(request) == (LoopModel {
            inbound: state.inbound.remove(request),
            responses: state.responses.remove(request),
            ..state
        }),
{
}

/// A caller that cancels its request is told nothing. A request that waits is
/// taken out, the first with that number, and no other; one that is with the
/// transport stays there with nobody waiting.
pub proof fn a_cancelled_request_is_taken_out(state: LoopModel, id: u128, at: int)
    requires
        0 <= at < state.queued.len(),
        state.queued[at].cancellation_id == id,
        forall|k: int| 0 <= k < at ==> (#[trigger] state.queued[k]).cancellation_id != id,
    ensures
        state.cancelled(id).queued == state.queued.remove(at),
        state.cancelled(id).pending == state.pending,
        state.cancelled(id).actions == state.actions,
{
    lemma_first_with(state.queued, id, at);
}

proof fn lemma_first_with(requests: Seq<PendingRequest>, id: u128, at: int)
    requires
        0 <= at < requests.len(),
        requests[at].cancellation_id == id,
        forall|k: int| 0 <= k < at ==> (#[trigger] requests[k]).cancellation_id != id,
    ensures
        first_with(requests, id) == Some(at),
    decreases requests.len(),
{
    if at < requests.len() - 1 {
        lemma_first_with(requests.drop_last(), id, at);
    } else {
        lemma_none_with(requests.drop_last(), id);
    }
}

proof fn lemma_none_with(requests: Seq<PendingRequest>, id: u128)
    requires
        forall|k: int|
            0 <= k < requests.len() ==> (#[trigger] requests[k]).cancellation_id != id,
    ensures
        first_with(requests, id) is None,
    decreases requests.len(),
{
    if requests.len() > 0 {
        assert forall|k: int| 0 <= k < requests.drop_last().len() implies (
        #[trigger] requests.drop_last()[k]).cancellation_id != id by {
            assert(requests[k].cancellation_id != id);
        }
        lemma_none_with(requests.drop_last(), id);
        assert(requests[requests.len() - 1].cancellation_id != id);
    }
}

/// A caller that is gone waits for nothing any more, and no other caller is
/// touched.
pub proof fn a_caller_that_is_gone_waits_no_more(state: LoopModel, id: u128)
    ensures
        ({
            let after = state.caller_gone(id);
            &&& after.queued.len() == state.queued.len()
            &&& forall|i: int|
                0 <= i < state.queued.len() ==> #[trigger] after.queued[i] == (PendingRequest {
                    waiting: state.queued[i].waiting && state.queued[i].cancellation_id != id,
                    ..state.queued[i]
                })
            &&& after.pending.dom() =~= state.pending.dom()
            &&& forall|r: u64| #[trigger]
                state.pending.contains_key(r) ==> after.pending[r] == (PendingRequest {
                    waiting: state.pending[r].waiting && state.pending[r].cancellation_id != id,
                    ..state.pending[r]
                })
            &&& after == (LoopModel { queued: after.queued, pending: after.pending, ..state })
        }),
{
}

/// A request that failed over a path of another tier than it was meant for is
/// sent or waits again, at the tier that is selected; one that failed where it
/// was meant to go is told to have failed only if there is no other healthy
/// connection at that tier and no way to the peer behind it. The failure counts
/// on the path that failed, if it is known.
pub proof fn a_failed_request_looks_for_another_way(
    state: LoopModel,
    request: u64,
    peer: PeerId,
    connection: u64,
    now: u64,
)
    requires
        state.pending.contains_key(request),
        state.pending[request].waiting,
        state.pending[request].deadline > now,
        state.pending[request].attempts < 6,
        state.links.mode == state.mode(),
    ensures
        ({
            let failed = state.pending[request];
            let after = state.outbound_failed(request, peer, connection, now);
            let path = state.links.failure_path(peer, connection);
            let elsewhere = path is Some && path_rank(state.mode(), path->0)
                != failed.transport_tier;
            let spare = exists|c: u64| #[trigger]
                state.links.paths.contains_key(c) && c != connection && state.links.paths[c].peer
                    == peer && !state.links.retiring(c) && path_rank(
                    state.mode(),
                    state.links.paths[c].path,
                ) == failed.transport_tier;
            &&& told_since(state, after, failed.cancellation_id, RequestOutcome::Failed)
                ==> !elsewhere && !spare && state.tier(peer) == failed.transport_tier && (forall|
                later: u8,
            |
                state.tier(peer) < later <= 2 ==> !(#[trigger] state.addressed(peer, later)))
            &&& !told_since(
                state,
                after,
                failed.cancellation_id,
                RequestOutcome::DeadlineExpired,
            )
        }),
{
    let failed = state.pending[request];
    let taken = LoopModel { pending: state.pending.remove(request), ..state };
    let path = state.links.failure_path(peer, connection);
    let logged = LoopModel {
        log: taken.log.request_ended(
            if path is Some {
                path
            } else {
                taken.path_hint(peer)
            },
            failed.started_at,
            now,
            false,
        ),
        ..taken
    };
    let cut = logged.distrusted(connection, peer);
    let after = state.outbound_failed(request, peer, connection, now);
    let spare = taken.links.healthy_at(peer, failed.transport_tier, Some(connection));
    reveal(LoopModel::retried);
    assert(cut.tier(peer) == state.tier(peer));
    assert(told_nothing(state, cut)) by {
        assert forall|i: int| state.actions.len() <= i < cut.actions.len() implies !(
        #[trigger] cut.actions[i] is Finish) by {}
    }
    lemma_ensuring_is_quiet(cut, peer);
    lemma_told_nothing_goes_on(state, cut, cut.ensured(peer));
    lemma_live_is_not_failed(state, cut.ensured(peer), failed, now);
    lemma_live_is_not_failed(state, cut, failed, now);
    lemma_falling_back_is_quiet(cut, peer, now);
    let moved = cut.fallen_back(peer, now);
    lemma_told_nothing_goes_on(state, cut, moved);
    lemma_live_is_not_failed(state, moved, failed, now);
    let elsewhere = path is Some && path_rank(state.mode(), path->0) != failed.transport_tier;
    if elsewhere {
        assert(!told_since(state, after, failed.cancellation_id, RequestOutcome::Failed));
    } else if spare {
        assert(!told_since(state, after, failed.cancellation_id, RequestOutcome::Failed));
    } else {
        let advanced = cut.tier(peer) <= failed.transport_tier && cut.next_tier(peer) is Some;
        assert forall|tier: u8| #[trigger] cut.addressed(peer, tier) == state.addressed(
            peer,
            tier,
        ) by {}
        if !advanced && cut.tier(peer) == failed.transport_tier {
            assert forall|later: u8| state.tier(peer) < later <= 2 implies !(
            #[trigger] state.addressed(peer, later)) by {
                assert(!cut.addressed(peer, later));
            }
        }
        if !advanced && cut.tier(peer) == failed.transport_tier {
            lemma_finishing_tells_one(state, cut, failed);
        }
    }
    if exists|c: u64| #[trigger]
        state.links.paths.contains_key(c) && c != connection && state.links.paths[c].peer == peer
            && !state.links.retiring(c) && path_rank(state.mode(), state.links.paths[c].path)
            == failed.transport_tier {
        let c = choose|c: u64| #[trigger]
            state.links.paths.contains_key(c) && c != connection && state.links.paths[c].peer
                == peer && !state.links.retiring(c) && path_rank(
                state.mode(),
                state.links.paths[c].path,
            ) == failed.transport_tier;
        assert(taken.links.paths.contains_key(c) && taken.links.healthy(c, peer));
    }
}

/// Since a state nobody was told of the end of a request.
spec fn told_nothing(before: LoopModel, after: LoopModel) -> bool {
    &&& before.actions.is_prefix_of(after.actions)
    &&& forall|i: int|
        before.actions.len() <= i < after.actions.len() ==> !(#[trigger] after.actions[i] is Finish)
}

proof fn lemma_told_nothing_goes_on(a: LoopModel, b: LoopModel, c: LoopModel)
    requires
        told_nothing(a, b),
        quiet(b, c),
    ensures
        told_nothing(a, c),
{
    lemma_prefix_goes_on(a.actions, b.actions, c.actions);
    assert forall|i: int| a.actions.len() <= i < c.actions.len() implies !(
    #[trigger] c.actions[i] is Finish) by {
        if i < b.actions.len() {
            assert(c.actions[i] == b.actions[i]);
        }
    }
}

pub(crate) proof fn lemma_falling_back_is_quiet(state: LoopModel, peer: PeerId, now: u64)
    ensures
        quiet(state, state.fallen_back(peer, now)),
{
    reveal(LoopModel::fallen_back);
    match state.next_tier(peer) {
        None => {
            lemma_quiet_same(state, state);
        },
        Some(next) => {
            let open = LoopModel { promotions: state.promotions.remove(peer), ..state };
            let chosen = open.with_tier(peer, next);
            lemma_quiet_same(state, chosen);
            lemma_reconciling_is_quiet(chosen, peer);
            let moved = open.reselected(peer, next);
            lemma_quiet_goes_on(state, chosen, moved);
            lemma_retiring_is_quiet(moved, peer, now);
            lemma_ensuring_is_quiet(moved, peer);
            lemma_quiet_goes_on(state, moved, state.fallen_back(peer, now));
        },
    }
}

proof fn lemma_live_is_not_failed(
    start: LoopModel,
    state: LoopModel,
    request: PendingRequest,
    now: u64,
)
    requires
        told_nothing(start, state),
        request.waiting,
        request.deadline > now,
        request.attempts < 6,
    ensures
        ({
            let after = state.queued_or_dispatched(request, now).selection_forgotten(request.peer);
            &&& !told_since(start, after, request.cancellation_id, RequestOutcome::Failed)
            &&& !told_since(start, after, request.cancellation_id, RequestOutcome::DeadlineExpired)
        }),
{
    reveal(LoopModel::queued_or_dispatched);
    reveal(LoopModel::dispatched);
    let peer = request.peer;
    let chosen = state.reconciled(peer);
    lemma_reconciling_is_quiet(state, peer);
    lemma_ensuring_is_quiet(chosen, peer);
    lemma_retiring_is_quiet(chosen, peer, now);
    lemma_told_nothing_goes_on(start, state, chosen);
    lemma_told_nothing_goes_on(start, chosen, chosen.ensured(peer));
    lemma_told_nothing_goes_on(start, chosen, chosen.non_policy_retired(peer, now));
    let ready = if chosen.links.healthy_at(peer, chosen.tier(peer), None) {
        chosen.non_policy_retired(peer, now)
    } else {
        chosen.ensured(peer)
    };
    let after = state.queued_or_dispatched(request, now);
    assert(after.actions == ready.actions || after.actions == ready.actions.push(
        after.actions.last(),
    ));
    assert forall|i: int| start.actions.len() <= i < after.actions.len() implies !(
    #[trigger] after.actions[i] is Finish) by {
        if i < ready.actions.len() {
            assert(after.actions[i] == ready.actions[i]);
        }
    }
}

proof fn lemma_finishing_tells_one(start: LoopModel, state: LoopModel, request: PendingRequest)
    requires
        told_nothing(start, state),
        request.waiting,
    ensures
        ({
            let after = state.finished(request, RequestOutcome::Failed).selection_forgotten(
                request.peer,
            );
            !told_since(start, after, request.cancellation_id, RequestOutcome::DeadlineExpired)
        }),
{
    let after = state.finished(request, RequestOutcome::Failed).selection_forgotten(request.peer);
    assert(after.actions == state.actions.push(
        ActionModel::Finish {
            cancellation_id: request.cancellation_id,
            outcome: RequestOutcome::Failed,
        },
    ));
    assert forall|i: int| start.actions.len() <= i < state.actions.len() implies
        after.actions[i] == #[trigger] state.actions[i] by {}
}

} // verus!
