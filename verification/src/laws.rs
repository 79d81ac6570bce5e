//! What holds of the event loop whatever happens.

use crate::address::{Component, PeerId};
use crate::commands::{pending_request, Command};
use crate::events::{ConnectionEvent, SwarmEvent};
use crate::loop_state::{
    ActionModel, LoopModel, PendingRequest, PolicyDial, PolicyDialKind, RequestOutcome,
    TransportPromotion,
};
use crate::metrics::LogModel;
use crate::peer_events::{PeerEvent, ResponseContext};
use crate::policy::{address_allowed, path_allowed, tier_members, P2pPath};
use crate::requests::MAX_REQUEST_TRANSPORT_ATTEMPTS;
use crate::tor::TorMode;
use vstd::prelude::*;

verus! {

/// The mode allows every address of a set.
pub open spec fn all_allowed(mode: TorMode, addresses: Set<Seq<Component>>) -> bool {
    forall|address: Seq<Component>| #[trigger]
        addresses.contains(address) ==> address_allowed(mode, address)
}

/// What is asked of the transport keeps to the mode: it is told to dial only
/// allowed addresses.
pub open spec fn obeys(mode: TorMode, action: ActionModel) -> bool {
    match action {
        ActionModel::Dial { addresses, .. } => all_allowed(mode, addresses),
        ActionModel::Readdress { added, .. } => all_allowed(mode, added),
        _ => true,
    }
}

impl LoopModel {
    /// The addresses in use and the dials asked for keep to the mode.
    pub open spec fn obedient(self) -> bool {
        &&& forall|peer: PeerId| #[trigger]
            self.installed.contains_key(peer) ==> all_allowed(self.mode(), self.installed[peer])
        &&& forall|i: int|
            0 <= i < self.actions.len() ==> obeys(self.mode(), #[trigger] self.actions[i])
    }

    /// No two undecided dials are of the same peer at the same tier.
    pub open spec fn dials_once(self) -> bool {
        forall|a: u64, b: u64|
            #![trigger self.dials[a], self.dials[b]]
            self.dials.contains_key(a) && self.dials.contains_key(b) && self.dials[a].peer
                == self.dials[b].peer && self.dials[a].tier == self.dials[b].tier ==> a == b
    }

    /// What holds of every state: the mode is obeyed, no dial is made twice,
    /// and no request is sent too often.
    pub open spec fn orderly(self) -> bool {
        self.obedient() && self.dials_once() && self.in_budget()
    }
}

proof fn lemma_acting(state: LoopModel, action: ActionModel)
    requires
        state.orderly(),
        obeys(state.mode(), action),
    ensures
        state.acting(action).orderly(),
{
    let after = state.acting(action);
    assert forall|i: int| 0 <= i < after.actions.len() implies obeys(
        after.mode(),
        #[trigger] after.actions[i],
    ) by {
        if i < state.actions.len() {
            assert(after.actions[i] == state.actions[i]);
        }
    }
}

proof fn lemma_reconciled(state: LoopModel, peer: PeerId)
    requires
        state.orderly(),
    ensures
        state.reconciled(peer).orderly(),
        state.reconciled(peer).mode() == state.mode(),
        state.reconciled(peer).book == state.book,
        state.reconciled(peer).pending == state.pending,
        state.reconciled(peer).queued == state.queued,
{
    reveal(LoopModel::reconciled);
    let tier = state.usable_tier(peer);
    let desired = state.members(peer, tier);
    let moved = state.with_tier(peer, tier).readdressed(peer, desired);
    assert forall|i: int| 0 <= i < moved.actions.len() implies obeys(
        moved.mode(),
        #[trigger] moved.actions[i],
    ) by {
        if i < state.actions.len() {
            assert(moved.actions[i] == state.actions[i]);
        }
    }
    assert(moved.orderly());
}

proof fn lemma_reselected(state: LoopModel, peer: PeerId, tier: u8)
    requires
        state.orderly(),
    ensures
        state.reselected(peer, tier).orderly(),
        state.reselected(peer, tier).mode() == state.mode(),
        state.reselected(peer, tier).pending == state.pending,
        state.reselected(peer, tier).queued == state.queued,
{
    lemma_reconciled(state.with_tier(peer, tier), peer);
}

proof fn lemma_dialled(
    state: LoopModel,
    peer: PeerId,
    tier: u8,
    addresses: Set<Seq<Component>>,
    kind: PolicyDialKind,
)
    requires
        state.orderly(),
        all_allowed(state.mode(), addresses),
    ensures
        state.dialled(peer, tier, addresses, kind).orderly(),
        state.dialled(peer, tier, addresses, kind).mode() == state.mode(),
        state.dialled(peer, tier, addresses, kind).book == state.book,
        state.dialled(peer, tier, addresses, kind).links == state.links,
        state.dialled(peer, tier, addresses, kind).pending == state.pending,
        state.dialled(peer, tier, addresses, kind).queued == state.queued,
{
    let after = state.dialled(peer, tier, addresses, kind);
    assert forall|i: int| 0 <= i < after.actions.len() implies obeys(
        after.mode(),
        #[trigger] after.actions[i],
    ) by {
        if i < state.actions.len() {
            assert(after.actions[i] == state.actions[i]);
        }
    }
    assert forall|a: u64, b: u64|
        #![trigger after.dials[a], after.dials[b]]
        after.dials.contains_key(a) && after.dials.contains_key(b) && after.dials[a].peer
            == after.dials[b].peer && after.dials[a].tier == after.dials[b].tier implies a == b by {
        if a != b && after != state {
            if a == state.next_connection {
                assert(state.dials.contains_key(b) && state.dials[b] == after.dials[b]);
                assert(state.dial_exists(peer, tier));
            } else if b == state.next_connection {
                assert(state.dials.contains_key(a) && state.dials[a] == after.dials[a]);
                assert(state.dial_exists(peer, tier));
            } else {
                assert(state.dials[a] == after.dials[a] && state.dials[b] == after.dials[b]);
            }
        }
    }
}

proof fn lemma_ensured(state: LoopModel, peer: PeerId)
    requires
        state.orderly(),
    ensures
        state.ensured(peer).orderly(),
        state.ensured(peer).mode() == state.mode(),
        state.ensured(peer).book == state.book,
        state.ensured(peer).pending == state.pending,
        state.ensured(peer).queued == state.queued,
{
    reveal(LoopModel::ensured);
    lemma_dialled(
        state,
        peer,
        state.tier(peer),
        state.installed_for(peer),
        PolicyDialKind::Selected,
    );
}

proof fn lemma_non_policy_retired(state: LoopModel, peer: PeerId, now: u64)
    requires
        state.orderly(),
    ensures
        state.non_policy_retired(peer, now).orderly(),
        state.non_policy_retired(peer, now).mode() == state.mode(),
        state.non_policy_retired(peer, now).pending == state.pending,
        state.non_policy_retired(peer, now).queued == state.queued,
{
    reveal(LoopModel::non_policy_retired);
}

proof fn lemma_fallen_back(state: LoopModel, peer: PeerId, now: u64)
    requires
        state.orderly(),
    ensures
        state.fallen_back(peer, now).orderly(),
        state.fallen_back(peer, now).mode() == state.mode(),
        state.fallen_back(peer, now).pending == state.pending,
        state.fallen_back(peer, now).queued == state.queued,
{
    reveal(LoopModel::fallen_back);
    match state.next_tier(peer) {
        None => {},
        Some(next) => {
            let dropped = LoopModel { promotions: state.promotions.remove(peer), ..state };
            assert(dropped.orderly());
            lemma_reselected(dropped, peer, next);
            let moved = dropped.reselected(peer, next);
            lemma_non_policy_retired(moved, peer, now);
            lemma_ensured(moved, peer);
        },
    }
}

proof fn lemma_promoted(state: LoopModel, peer: PeerId, tier: u8, now: u64)
    requires
        state.orderly(),
    ensures
        state.promoted(peer, tier, now).orderly(),
        state.promoted(peer, tier, now).mode() == state.mode(),
        state.promoted(peer, tier, now).book == state.book,
        state.promoted(peer, tier, now).pending == state.pending,
        state.promoted(peer, tier, now).queued == state.queued,
{
    reveal(LoopModel::promoted);
}

proof fn lemma_tier_tried(state: LoopModel, peer: PeerId, tier: u8, current: u8, now: u64)
    requires
        state.orderly(),
    ensures
        state.tier_tried(peer, tier, current, now).orderly(),
        state.tier_tried(peer, tier, current, now).mode() == state.mode(),
{
    reveal(LoopModel::tier_tried);
    lemma_promoted(state, peer, tier, now);
    lemma_dialled(
        state,
        peer,
        tier,
        state.members(peer, tier),
        PolicyDialKind::PreferredProbe,
    );
}

proof fn lemma_preferred_tried(state: LoopModel, peer: PeerId, now: u64)
    requires
        state.orderly(),
    ensures
        state.preferred_tried(peer, now).orderly(),
        state.preferred_tried(peer, now).mode() == state.mode(),
{
    reveal(LoopModel::preferred_tried);
    let current = state.tier(peer);
    lemma_ensured(state, peer);
    let a = state.ensured(peer);
    lemma_tier_tried(a, peer, 0, current, now);
    let b = a.tier_tried(peer, 0, current, now);
    lemma_tier_tried(b, peer, 1, current, now);
    let c = b.tier_tried(peer, 1, current, now);
    lemma_tier_tried(c, peer, 2, current, now);
}

proof fn lemma_observed(state: LoopModel, peer: PeerId, connection: u64, now: u64)
    requires
        state.orderly(),
    ensures
        state.observed(peer, connection, now).orderly(),
        state.observed(peer, connection, now).mode() == state.mode(),
        state.observed(peer, connection, now).pending == state.pending,
        state.observed(peer, connection, now).queued == state.queued,
{
    reveal(LoopModel::observed);
    lemma_reconciled(state, peer);
    let start = state.reconciled(peer);
    if start.links.paths.contains_key(connection) {
        let tier = crate::policy::path_rank(state.mode(), start.links.paths[connection].path);
        lemma_promoted(start, peer, tier, now);
        lemma_ensured(start, peer);
        lemma_non_policy_retired(start.promoted(peer, tier, now), peer, now);
        lemma_non_policy_retired(start.ensured(peer), peer, now);
        lemma_non_policy_retired(start, peer, now);
    }
}

proof fn lemma_transport_restored(
    state: LoopModel,
    peer: PeerId,
    path: Option<P2pPath>,
    now: u64,
)
    requires
        state.orderly(),
    ensures
        state.transport_restored(peer, path, now).orderly(),
        state.transport_restored(peer, path, now).mode() == state.mode(),
        state.transport_restored(peer, path, now).pending == state.pending,
        state.transport_restored(peer, path, now).queued == state.queued,
{
    reveal(LoopModel::transport_restored);
    let eligible = LoopModel { links: state.links.restored(peer), ..state };
    assert(eligible.orderly());
    let dropped = LoopModel { promotions: eligible.promotions.remove(peer), ..eligible };
    assert(dropped.orderly());
    let best = eligible.links.best_tier(peer);
    if best is Some {
        lemma_reselected(dropped, peer, best->0);
        lemma_non_policy_retired(dropped.reselected(peer, best->0), peer, now);
    }
    lemma_non_policy_retired(eligible, peer, now);
    lemma_fallen_back(eligible, peer, now);
    lemma_reconciled(eligible, peer);
    lemma_ensured(eligible.reconciled(peer), peer);
}

proof fn lemma_finished(state: LoopModel, request: PendingRequest, outcome: RequestOutcome)
    requires
        state.orderly(),
    ensures
        state.finished(request, outcome).orderly(),
        state.finished(request, outcome).mode() == state.mode(),
{
    lemma_acting(
        state,
        ActionModel::Finish { cancellation_id: request.cancellation_id, outcome },
    );
}

proof fn lemma_dispatched(state: LoopModel, request: PendingRequest, now: u64)
    requires
        state.orderly(),
        request.attempts <= MAX_REQUEST_TRANSPORT_ATTEMPTS,
    ensures
        state.dispatched(request, now).orderly(),
        state.dispatched(request, now).mode() == state.mode(),
{
    reveal(LoopModel::dispatched);
    lemma_finished(state, request, RequestOutcome::DeadlineExpired);
    lemma_finished(state, request, RequestOutcome::AttemptsExhausted);
    if state.given_up(request, now) is None {
        let sent = PendingRequest {
            transport_tier: state.tier(request.peer),
            attempts: (request.attempts + 1) as u8,
            started_at: now,
            ..request
        };
        let noted = LoopModel {
            pending: state.pending.insert(state.next_request, sent),
            next_request: state.next_request.wrapping_add(1),
            ..state
        };
        assert forall|r: u64| #[trigger] noted.pending.contains_key(
            r,
        ) implies noted.pending[r].attempts <= MAX_REQUEST_TRANSPORT_ATTEMPTS by {
            if r != state.next_request {
                assert(state.pending.contains_key(r));
            }
        }
        assert(noted.orderly());
        lemma_acting(
            noted,
            ActionModel::Send {
                request: state.next_request,
                cancellation_id: request.cancellation_id,
                peer: request.peer,
            },
        );
    }
}

proof fn lemma_queued(state: LoopModel, request: PendingRequest)
    requires
        state.orderly(),
        request.attempts <= MAX_REQUEST_TRANSPORT_ATTEMPTS,
    ensures
        (LoopModel { queued: state.queued.push(request), ..state }).orderly(),
{
    let after = LoopModel { queued: state.queued.push(request), ..state };
    assert forall|i: int| 0 <= i < after.queued.len() implies (
    #[trigger] after.queued[i]).attempts <= MAX_REQUEST_TRANSPORT_ATTEMPTS by {
        if i < state.queued.len() {
            assert(after.queued[i] == state.queued[i]);
        }
    }
}

proof fn lemma_queued_or_dispatched(state: LoopModel, request: PendingRequest, now: u64)
    requires
        state.orderly(),
        request.attempts <= MAX_REQUEST_TRANSPORT_ATTEMPTS,
    ensures
        state.queued_or_dispatched(request, now).orderly(),
        state.queued_or_dispatched(request, now).mode() == state.mode(),
{
    reveal(LoopModel::queued_or_dispatched);
    lemma_finished(state, request, RequestOutcome::DeadlineExpired);
    lemma_finished(state, request, RequestOutcome::AttemptsExhausted);
    let peer = request.peer;
    lemma_reconciled(state, peer);
    let chosen = state.reconciled(peer);
    lemma_non_policy_retired(chosen, peer, now);
    lemma_ensured(chosen, peer);
    lemma_queued(chosen.non_policy_retired(peer, now), request);
    lemma_queued(chosen.ensured(peer), request);
    lemma_dispatched(chosen.non_policy_retired(peer, now), request, now);
}

proof fn lemma_first_drained(state: LoopModel, peer: PeerId, now: u64)
    requires
        state.orderly(),
        state.queued.len() > 0,
    ensures
        state.first_drained(peer, now).orderly(),
        state.first_drained(peer, now).mode() == state.mode(),
{
    let request = state.queued[0];
    let rest = LoopModel { queued: state.queued.drop_first(), ..state };
    assert forall|i: int| 0 <= i < rest.queued.len() implies (
    #[trigger] rest.queued[i]).attempts <= MAX_REQUEST_TRANSPORT_ATTEMPTS by {
        assert(rest.queued[i] == state.queued[i + 1]);
    }
    assert(rest.orderly());
    lemma_queued_or_dispatched(rest, request, now);
    lemma_queued(rest, request);
}

proof fn lemma_drained_steps(state: LoopModel, peer: PeerId, now: u64, steps: nat)
    requires
        state.orderly(),
    ensures
        state.drained_steps(peer, now, steps).orderly(),
        state.drained_steps(peer, now, steps).mode() == state.mode(),
    decreases steps,
{
    if steps > 0 && state.queued.len() > 0 {
        lemma_first_drained(state, peer, now);
        lemma_drained_steps(state.first_drained(peer, now), peer, now, (steps - 1) as nat);
    }
}

proof fn lemma_drained(state: LoopModel, peer: PeerId, now: u64)
    requires
        state.orderly(),
    ensures
        state.drained(peer, now).orderly(),
        state.drained(peer, now).mode() == state.mode(),
{
    reveal(LoopModel::drained);
    lemma_drained_steps(state, peer, now, state.queued.len());
}

proof fn lemma_each_drained(state: LoopModel, peers: Seq<PeerId>, now: u64)
    requires
        state.orderly(),
    ensures
        state.each_drained(peers, now).orderly(),
        state.each_drained(peers, now).mode() == state.mode(),
    decreases peers.len(),
{
    if peers.len() > 0 {
        lemma_each_drained(state, peers.drop_last(), now);
        lemma_drained(state.each_drained(peers.drop_last(), now), peers.last(), now);
    }
}

proof fn lemma_each_selection_forgotten(state: LoopModel, peers: Seq<PeerId>)
    requires
        state.orderly(),
    ensures
        state.each_selection_forgotten(peers).orderly(),
        state.each_selection_forgotten(peers).mode() == state.mode(),
    decreases peers.len(),
{
    if peers.len() > 0 {
        lemma_each_selection_forgotten(state, peers.drop_last());
    }
}

proof fn lemma_filtered(
    state: LoopModel,
    keep: spec_fn(PendingRequest) -> bool,
    told: Seq<ActionModel>,
)
    requires
        state.orderly(),
        forall|i: int| 0 <= i < told.len() ==> (#[trigger] told[i]) is Finish,
    ensures
        (LoopModel {
            queued: state.queued.filter(keep),
            actions: state.actions + told,
            ..state
        }).orderly(),
{
    let after = LoopModel {
        queued: state.queued.filter(keep),
        actions: state.actions + told,
        ..state
    };
    assert forall|i: int| 0 <= i < after.actions.len() implies obeys(
        after.mode(),
        #[trigger] after.actions[i],
    ) by {
        if i < state.actions.len() {
            assert(after.actions[i] == state.actions[i]);
        } else {
            assert(after.actions[i] == told[i - state.actions.len()]);
        }
    }
    assert forall|i: int| 0 <= i < after.queued.len() implies (
    #[trigger] after.queued[i]).attempts <= MAX_REQUEST_TRANSPORT_ATTEMPTS by {
        let request = after.queued[i];
        lemma_filter_member(state.queued, keep, request, i);
        let k = choose|k: int| 0 <= k < state.queued.len() && state.queued[k] == request;
        assert(state.queued[k] == request);
    }
}

proof fn lemma_filter_member(
    requests: Seq<PendingRequest>,
    keep: spec_fn(PendingRequest) -> bool,
    request: PendingRequest,
    i: int,
)
    requires
        0 <= i < requests.filter(keep).len(),
        requests.filter(keep)[i] == request,
    ensures
        exists|k: int| 0 <= k < requests.len() && requests[k] == request,
    decreases requests.len(),
{
    reveal(Seq::filter);
    if requests.len() > 0 {
        let before = requests.drop_last();
        if i < before.filter(keep).len() {
            lemma_filter_member(before, keep, request, i);
            let k = choose|k: int| 0 <= k < before.len() && before[k] == request;
            assert(requests[k] == request);
        } else {
            assert(requests[requests.len() - 1] == request);
        }
    }
}

proof fn lemma_expiry_actions(requests: Seq<PendingRequest>, now: u64)
    ensures
        forall|i: int|
            0 <= i < crate::requests::expiry_actions(requests, now).len() ==> (
            #[trigger] crate::requests::expiry_actions(requests, now)[i]) is Finish,
    decreases requests.len(),
{
    if requests.len() > 0 {
        lemma_expiry_actions(requests.drop_last(), now);
    }
}

proof fn lemma_failure_actions(
    requests: Seq<PendingRequest>,
    peer: PeerId,
    outcome: RequestOutcome,
)
    ensures
        forall|i: int|
            0 <= i < crate::requests::failure_actions(requests, peer, outcome).len() ==> (
            #[trigger] crate::requests::failure_actions(requests, peer, outcome)[i]) is Finish,
    decreases requests.len(),
{
    if requests.len() > 0 {
        lemma_failure_actions(requests.drop_last(), peer, outcome);
    }
}

proof fn lemma_queue_failed(state: LoopModel, peer: PeerId, outcome: RequestOutcome)
    requires
        state.orderly(),
    ensures
        state.queue_failed(peer, outcome).orderly(),
        state.queue_failed(peer, outcome).mode() == state.mode(),
{
    reveal(LoopModel::queue_failed);
    lemma_failure_actions(state.queued, peer, outcome);
    lemma_filtered(
        state,
        |r: PendingRequest| r.peer != peer,
        crate::requests::failure_actions(state.queued, peer, outcome),
    );
}

proof fn lemma_each_timed_out(state: LoopModel, requests: Seq<u64>)
    requires
        state.orderly(),
        forall|k: int| 0 <= k < requests.len() ==> state.pending.contains_key(#[trigger] requests[k]),
    ensures
        state.each_timed_out(requests).orderly(),
        state.each_timed_out(requests).mode() == state.mode(),
        state.each_timed_out(requests).pending.dom() == state.pending.dom(),
    decreases requests.len(),
{
    if requests.len() > 0 {
        let before = requests.drop_last();
        assert forall|k: int| 0 <= k < before.len() implies state.pending.contains_key(
            #[trigger] before[k],
        ) by {
            assert(before[k] == requests[k]);
        }
        lemma_each_timed_out(state, before);
        let s = state.each_timed_out(before);
        let last = requests.last();
        assert(state.pending.contains_key(requests[requests.len() - 1]));
        assert(s.pending.dom().contains(last));
        let marked = LoopModel {
            pending: s.pending.insert(
                last,
                (PendingRequest { waiting: false, ..s.pending[last] }),
            ),
            ..s
        };
        assert(marked.pending.dom() =~= s.pending.dom());
        assert(marked.orderly());
        lemma_acting(
            marked,
            ActionModel::Finish {
                cancellation_id: s.pending[last].cancellation_id,
                outcome: RequestOutcome::DeadlineExpired,
            },
        );
    }
}

/// Maintaining the requests keeps the loop in order.
pub proof fn maintenance_keeps_order(state: LoopModel, now: u64)
    requires
        state.orderly(),
        state.pending.dom().finite(),
    ensures
        state.maintained(now).orderly(),
{
    lemma_expiry_actions(state.queued, now);
    lemma_filtered(
        state,
        |r: PendingRequest| r.live(now),
        crate::requests::expiry_actions(state.queued, now),
    );
    let swept = state.swept(now);
    let overdue = crate::ordered::sorted_numbers(swept.overdue(now));
    assert forall|k: int| 0 <= k < overdue.len() implies swept.pending.contains_key(
        #[trigger] overdue[k],
    ) by {
        lemma_sorted_members(swept.overdue(now), overdue[k], k);
    }
    lemma_each_timed_out(swept, overdue);
    let timed = swept.each_timed_out(overdue);
    let expired = LoopModel { links: timed.links.closed_expired(now), ..timed };
    assert(expired.orderly());
    let waiting = crate::address::sorted_peers(
        crate::requests::peers_where(expired.queued, |r: PendingRequest| true),
    );
    lemma_each_drained(expired, waiting, now);
    lemma_each_selection_forgotten(
        expired.each_drained(waiting, now),
        crate::address::sorted_peers(state.released(now)),
    );
}

proof fn lemma_sorted_members(set: Set<u64>, item: u64, k: int)
    requires
        set.finite(),
        0 <= k < crate::ordered::sorted_numbers(set).len(),
        crate::ordered::sorted_numbers(set)[k] == item,
    ensures
        set.contains(item),
{
    crate::ordered::lemma_sorted_exists::<u64>(set);
    assert(crate::ordered::sorted_numbers(set).to_set().contains(item));
}

proof fn lemma_punched(state: LoopModel, peer: PeerId, connection: u64)
    requires
        state.orderly(),
    ensures
        state.punched(peer, connection).orderly(),
        state.punched(peer, connection).mode() == state.mode(),
        state.punched(peer, connection).open == state.open,
{
    reveal(LoopModel::punched);
}

proof fn lemma_paired(state: LoopModel, connection: u64, peer: PeerId)
    requires
        state.orderly(),
    ensures
        state.paired(connection, peer).orderly(),
        state.paired(connection, peer).mode() == state.mode(),
        state.paired(connection, peer).open == state.open,
{
    reveal(LoopModel::paired);
    let punches = state.links.paired_punches(peer, connection, state.prefers_dialer(peer));
    lemma_punched(state, peer, crate::ordered::sorted_numbers(punches)[0]);
}

proof fn lemma_collapsed(state: LoopModel, connection: u64)
    requires
        state.orderly(),
    ensures
        state.collapsed(connection).orderly(),
        state.collapsed(connection).mode() == state.mode(),
{
    let marked = LoopModel { links: state.links.collapsing_with(connection), ..state };
    assert(marked.orderly());
    lemma_acting(marked, ActionModel::Close { connection });
}

proof fn lemma_without_dial(state: LoopModel, connection: u64)
    requires
        state.orderly(),
    ensures
        (LoopModel { dials: state.dials.remove(connection), ..state }).orderly(),
{
    let after = LoopModel { dials: state.dials.remove(connection), ..state };
    assert forall|a: u64, b: u64|
        #![trigger after.dials[a], after.dials[b]]
        after.dials.contains_key(a) && after.dials.contains_key(b) && after.dials[a].peer
            == after.dials[b].peer && after.dials[a].tier == after.dials[b].tier implies a == b by {
        assert(state.dials[a] == after.dials[a] && state.dials[b] == after.dials[b]);
    }
}

proof fn lemma_noted(
    state: LoopModel,
    connection: u64,
    peer: PeerId,
    path: P2pPath,
    dialer: bool,
    now: u64,
    unix_now: u64,
)
    requires
        state.orderly(),
    ensures
        state.noted(connection, peer, path, dialer, now, unix_now).orderly(),
        state.noted(connection, peer, path, dialer, now, unix_now).mode() == state.mode(),
{
    lemma_without_dial(state, connection);
    let undialled = LoopModel { dials: state.dials.remove(connection), ..state };
    let after = state.noted(connection, peer, path, dialer, now, unix_now);
    assert(after.dials == undialled.dials);
    assert(after.dials_once());
}

proof fn lemma_established(
    state: LoopModel,
    connection: u64,
    peer: PeerId,
    path: P2pPath,
    dialer: bool,
    now: u64,
    unix_now: u64,
)
    requires
        state.orderly(),
    ensures
        state.established(connection, peer, path, dialer, now, unix_now).orderly(),
{
    lemma_noted(state, connection, peer, path, dialer, now, unix_now);
    let noted = state.noted(connection, peer, path, dialer, now, unix_now);
    lemma_paired(noted, connection, peer);
    let known = noted.paired(connection, peer);
    lemma_collapsed(known, connection);
    lemma_observed(known, peer, connection, now);
    let seen = known.observed(peer, connection, now);
    let scheduled = seen.duplicates_scheduled(peer, connection, now);
    assert(scheduled.orderly());
    lemma_drained(scheduled, peer, now);
}

proof fn lemma_upgraded(state: LoopModel, peer: PeerId, connection: u64, now: u64)
    requires
        state.orderly(),
    ensures
        state.upgraded(peer, connection, now).orderly(),
{
    lemma_punched(state, peer, connection);
    lemma_observed(state.punched(peer, connection), peer, connection, now);
}

proof fn lemma_closed(
    state: LoopModel,
    connection: u64,
    peer: PeerId,
    last: bool,
    failed: bool,
    now: u64,
    unix_now: u64,
)
    requires
        state.orderly(),
    ensures
        state.closed(connection, peer, last, failed, now, unix_now).orderly(),
{
    lemma_without_dial(state, connection);
    let undialled = LoopModel { dials: state.dials.remove(connection), ..state };
    let path = if state.links.paths.contains_key(connection) {
        Some(state.links.paths[connection].path)
    } else {
        None
    };
    let unlinked = state.unlinked(connection, peer, failed, now, unix_now);
    assert(unlinked.dials == undialled.dials);
    assert(unlinked.orderly());
    let gone = unlinked.relays_reconsidered(peer);
    assert(gone.orderly());
    let left = if last {
        LoopModel { last_paths: gone.last_paths.remove(peer), ..gone }
    } else {
        gone
    };
    assert(left.orderly());
    let ready = left.promotion_reconsidered(peer);
    assert(ready.orderly());
    lemma_transport_restored(ready, peer, path, now);
    lemma_drained(ready.transport_restored(peer, path, now), peer, now);
}

proof fn lemma_dial_failed(state: LoopModel, dial: PolicyDial, now: u64)
    requires
        state.orderly(),
    ensures
        state.dial_failed(dial, now).orderly(),
{
    let peer = dial.peer;
    let counted = LoopModel { log: state.log.dial_failed(dial.path), ..state };
    assert(counted.orderly());
    lemma_fallen_back(counted, peer, now);
    lemma_queue_failed(counted, peer, RequestOutcome::TiersExhausted);
    lemma_drained(counted, peer, now);
    lemma_drained(counted.fallen_back(peer, now), peer, now);
    lemma_drained(counted.queue_failed(peer, RequestOutcome::TiersExhausted), peer, now);
}

proof fn lemma_unreachable(state: LoopModel, connection: u64, peer: Option<PeerId>, now: u64)
    requires
        state.orderly(),
    ensures
        state.unreachable(connection, peer, now).orderly(),
{
    if state.dials.contains_key(connection) {
        lemma_without_dial(state, connection);
        lemma_dial_failed(
            LoopModel { dials: state.dials.remove(connection), ..state },
            state.dials[connection],
            now,
        );
    }
}

proof fn lemma_unknown_forgotten(state: LoopModel, peer: PeerId)
    requires
        state.orderly(),
    ensures
        state.unknown_forgotten(peer).orderly(),
        state.unknown_forgotten(peer).mode() == state.mode(),
{
    reveal(LoopModel::unknown_forgotten);
    if state.book.opportunistic.contains_key(peer) {
        let unused = state.book.opportunistic[peer].addresses.difference(
            state.installed_for(peer),
        );
        let forgotten = state.with_book(state.book.without_opportunistic(peer));
        assert(forgotten.orderly());
        lemma_acting(forgotten, ActionModel::RemoveRoutes { peer, addresses: unused });
    }
}

proof fn lemma_unknown_noted(state: LoopModel, peer: PeerId, address: Seq<Component>, now: u64)
    requires
        state.orderly(),
    ensures
        state.unknown_noted(peer, address, now).orderly(),
        state.unknown_noted(peer, address, now).mode() == state.mode(),
{
    reveal(LoopModel::unknown_noted);
    let roomy = match state.book.evicted(peer) {
        Some(evicted) => state.unknown_forgotten(evicted),
        None => state,
    };
    if state.book.evicted(peer) is Some {
        lemma_unknown_forgotten(state, state.book.evicted(peer)->0);
    }
    let noted = roomy.with_book(roomy.book.noted(peer, address, now));
    assert(noted.orderly());
    lemma_acting(noted, ActionModel::AddRoute { peer, address });
}

proof fn lemma_learned(state: LoopModel, peer: PeerId, address: Seq<Component>, now: u64)
    requires
        state.orderly(),
    ensures
        state.learned(peer, address, now).orderly(),
        state.learned(peer, address, now).mode() == state.mode(),
{
    let taken = state.with_book(state.book.learned_with(peer, address, now));
    assert(taken.orderly());
    lemma_reconciled(taken, peer);
}

proof fn lemma_identified(state: LoopModel, peer: PeerId, address: Seq<Component>, now: u64)
    requires
        state.orderly(),
    ensures
        state.identified(peer, address, now).0.orderly(),
        state.identified(peer, address, now).0.mode() == state.mode(),
{
    lemma_unknown_forgotten(state, peer);
    match crate::book::normalized(peer, address) {
        Err(_) => {},
        Ok(base) => {
            lemma_learned(state.unknown_forgotten(peer), peer, base, now);
            lemma_unknown_noted(state, peer, base, now);
            let known = state.unknown_forgotten(peer);
            let scoped = known.with_book(known.book.scoped_with(peer, base));
            assert(scoped.orderly());
            lemma_reconciled(scoped, peer);
        },
    }
}

proof fn lemma_each_identified(
    state: LoopModel,
    peer: PeerId,
    addresses: Seq<Seq<Component>>,
    now: u64,
)
    requires
        state.orderly(),
    ensures
        state.each_identified(peer, addresses, now).orderly(),
        state.each_identified(peer, addresses, now).mode() == state.mode(),
    decreases addresses.len(),
{
    if addresses.len() > 0 {
        lemma_each_identified(state, peer, addresses.drop_last(), now);
        lemma_identified(
            state.each_identified(peer, addresses.drop_last(), now),
            peer,
            addresses.last(),
            now,
        );
    }
}

/// Whatever becomes of connections, the loop stays in order: the addresses that
/// it has the transport use and dial are ones that the mode allows, no peer is
/// dialled twice at a tier, and no request is sent more often than it may be.
pub proof fn events_keep_order(state: LoopModel, event: ConnectionEvent, now: u64, unix_now: u64)
    requires
        state.orderly(),
    ensures
        state.after(event, now, unix_now).orderly(),
{
    match event {
        ConnectionEvent::Identified { peer, addresses } => {
            lemma_each_identified(state, peer, crate::policy::views(addresses@), now);
        },
        ConnectionEvent::HolePunchEnded { peer, connection } => {
            if let Some(connection) = connection {
                lemma_upgraded(state, peer, connection, now);
            }
        },
        ConnectionEvent::ConnectionEstablished { connection, peer, endpoint } => {
            lemma_established(
                state,
                connection,
                peer,
                crate::policy::path_of_endpoint(endpoint),
                endpoint is Dialer,
                now,
                unix_now,
            );
        },
        ConnectionEvent::ConnectionClosed { connection, peer, remaining, failed } => {
            lemma_closed(state, connection, peer, remaining == 0, failed, now, unix_now);
        },
        ConnectionEvent::OutgoingConnectionError { connection, peer } => {
            lemma_unreachable(state, connection, peer, now);
        },
    }
}

proof fn lemma_transferred(
    state: LoopModel,
    peer: PeerId,
    path: Option<P2pPath>,
    sent: u64,
    received: u64,
)
    requires
        state.orderly(),
    ensures
        state.transferred(peer, path, sent, received).orderly(),
        state.transferred(peer, path, sent, received).mode() == state.mode(),
{
}

/// However a response reads, taking it keeps the loop in order.
pub proof fn responses_keep_order(
    state: LoopModel,
    request: u64,
    peer: PeerId,
    connection: u64,
    bytes: Option<u64>,
    response: ResponseContext,
    now: u64,
)
    requires
        state.orderly(),
    ensures
        state.response_heard(request, peer, connection, bytes, response, now).orderly(),
{
    let heard = state.heard(peer, connection);
    assert(heard.orderly());
    if state.pending.contains_key(request) {
        let taken = LoopModel { pending: heard.pending.remove(request), ..heard };
        assert(taken.orderly());
        let pending = state.pending[request];
        let path = state.links.application_path(connection);
        let count = match bytes {
            Some(bytes) => bytes,
            None => 0,
        };
        reveal(LoopModel::request_answered);
        let outcome = taken.verdict(pending, peer, response);
        lemma_transferred(taken, peer, path, pending.request_bytes, count);
        let counted = if pending.peer == peer {
            taken.transferred(peer, path, pending.request_bytes, count)
        } else {
            taken
        };
        let logged = LoopModel {
            log: counted.log.request_ended(
                path,
                pending.started_at,
                now,
                outcome == RequestOutcome::Answered && response.succeeded,
            ),
            ..counted
        };
        assert(logged.orderly());
        lemma_observed(logged, peer, connection, now);
        lemma_finished(logged, pending, outcome);
        lemma_finished(logged.observed(peer, connection, now), pending, outcome);
    }
}

/// However a request fails, what is done about it keeps the loop in order.
pub proof fn failures_keep_order(
    state: LoopModel,
    request: u64,
    peer: PeerId,
    connection: u64,
    now: u64,
)
    requires
        state.orderly(),
    ensures
        state.outbound_failed(request, peer, connection, now).orderly(),
{
    if state.pending.contains_key(request) {
        let pending = state.pending[request];
        let taken = LoopModel { pending: state.pending.remove(request), ..state };
        assert(taken.orderly());
        let path = taken.links.failure_path(peer, connection);
        let logged = LoopModel {
            log: taken.log.request_ended(
                if path is Some {
                    path
                } else {
                    taken.path_hint(peer)
                },
                pending.started_at,
                now,
                false,
            ),
            ..taken
        };
        assert(logged.orderly());
        let marked = LoopModel { links: logged.links.unhealthy_with(connection), ..logged };
        assert(marked.orderly());
        lemma_acting(marked, ActionModel::Close { connection });
        let cut = logged.distrusted(connection, peer);
        assert(cut.orderly());
        lemma_ensured(cut, peer);
        lemma_queued_or_dispatched(cut.ensured(peer), pending, now);
        let duplicate = taken.links.healthy_at(peer, pending.transport_tier, Some(connection));
        lemma_retried(cut, pending, peer, duplicate, now);
    }
}

proof fn lemma_retried(
    state: LoopModel,
    request: PendingRequest,
    peer: PeerId,
    duplicate: bool,
    now: u64,
)
    requires
        state.orderly(),
        request.attempts <= MAX_REQUEST_TRANSPORT_ATTEMPTS,
    ensures
        state.retried(request, peer, duplicate, now).orderly(),
{
    reveal(LoopModel::retried);
    lemma_fallen_back(state, peer, now);
    let moved = state.fallen_back(peer, now);
    lemma_queued_or_dispatched(state, request, now);
    lemma_queued_or_dispatched(moved, request, now);
    lemma_finished(state, request, RequestOutcome::Failed);
    lemma_finished(moved, request, RequestOutcome::Failed);
}

/// Whatever the transport reports, of connections, of requests or of listeners,
/// the loop stays in order.
pub proof fn reports_keep_order(state: LoopModel, event: SwarmEvent, now: u64, unix_now: u64)
    requires
        state.orderly(),
    ensures
        state.after_swarm_event(event, now, unix_now).orderly(),
{
    match event {
        SwarmEvent::Connection(event) => {
            events_keep_order(state, event, now, unix_now);
        },
        SwarmEvent::Peer(event) => match event {
            PeerEvent::Request { .. } => {},
            PeerEvent::Response { request, peer, connection, bytes, response } => {
                responses_keep_order(state, request, peer, connection, bytes, response, now);
            },
            PeerEvent::OutboundFailure { request, peer, connection } => {
                failures_keep_order(state, request, peer, connection, now);
            },
            PeerEvent::InboundFailure { .. } => {},
            PeerEvent::ResponseSent { .. } => {},
        },
        _ => {},
    }
}

/// Taking a new request keeps the loop in order.
pub proof fn submissions_keep_order(state: LoopModel, request: PendingRequest, now: u64)
    requires
        state.orderly(),
        request.attempts == 0,
    ensures
        state.queued_or_dispatched(request, now).orderly(),
{
    lemma_queued_or_dispatched(state, request, now);
}

proof fn lemma_promotion_processed(state: LoopModel, peer: PeerId, tier: u8, now: u64)
    requires
        state.orderly(),
    ensures
        state.promotion_processed(peer, tier, now).orderly(),
        state.promotion_processed(peer, tier, now).mode() == state.mode(),
{
    reveal(LoopModel::promotion_processed);
    let done = LoopModel { promotions: state.promotions.remove(peer), ..state };
    assert(done.orderly());
    lemma_reselected(done, peer, tier);
    lemma_non_policy_retired(done.reselected(peer, tier), peer, now);
    lemma_drained(done.reselected(peer, tier).non_policy_retired(peer, now), peer, now);
    lemma_drained(done, peer, now);
}

proof fn lemma_each_promotion_processed(
    state: LoopModel,
    promotions: Map<PeerId, TransportPromotion>,
    peers: Seq<PeerId>,
    now: u64,
)
    requires
        state.orderly(),
    ensures
        state.each_promotion_processed(promotions, peers, now).orderly(),
    decreases peers.len(),
{
    if peers.len() > 0 {
        lemma_each_promotion_processed(state, promotions, peers.drop_last(), now);
        lemma_promotion_processed(
            state.each_promotion_processed(promotions, peers.drop_last(), now),
            peers.last(),
            promotions[peers.last()].tier,
            now,
        );
    }
}

proof fn lemma_retired(state: LoopModel, connection: u64, peer: PeerId, close: bool, now: u64)
    requires
        state.orderly(),
    ensures
        state.retired(connection, peer, close, now).orderly(),
{
    reveal(LoopModel::retired);
    lemma_collapsed(state, connection);
    lemma_drained(state.collapsed(connection), peer, now);
    lemma_drained(state, peer, now);
}

proof fn lemma_each_relay_retired(
    state: LoopModel,
    before: LoopModel,
    connections: Seq<u64>,
    now: u64,
)
    requires
        state.orderly(),
    ensures
        state.each_relay_retired(before, connections, now).orderly(),
    decreases connections.len(),
{
    if connections.len() > 0 {
        lemma_each_relay_retired(state, before, connections.drop_last(), now);
        let s = state.each_relay_retired(before, connections.drop_last(), now);
        let connection = connections.last();
        let peer = before.links.relay_retirement[connection].peer;
        let ended = LoopModel {
            links: crate::links::LinksModel {
                relay_retirement: s.links.relay_retirement.remove(connection),
                ..s.links
            },
            ..s
        };
        assert(ended.orderly());
        lemma_retired(
            ended,
            connection,
            peer,
            before.links.healthy_path(peer, P2pPath::HolePunched),
            now,
        );
    }
}

proof fn lemma_each_duplicate_retired(
    state: LoopModel,
    before: LoopModel,
    connections: Seq<u64>,
    now: u64,
)
    requires
        state.orderly(),
    ensures
        state.each_duplicate_retired(before, connections, now).orderly(),
    decreases connections.len(),
{
    if connections.len() > 0 {
        lemma_each_duplicate_retired(state, before, connections.drop_last(), now);
        let s = state.each_duplicate_retired(before, connections.drop_last(), now);
        let connection = connections.last();
        let ended = LoopModel {
            links: crate::links::LinksModel {
                duplicate_retirement: s.links.duplicate_retirement.remove(connection),
                ..s.links
            },
            ..s
        };
        assert(ended.orderly());
        lemma_retired(
            ended,
            connection,
            before.links.duplicate_retirement[connection].peer,
            before.duplicate_replaced(connection),
            now,
        );
    }
}

/// Promotions and retirements keep the loop in order.
pub proof fn settling_keeps_order(state: LoopModel, now: u64)
    requires
        state.orderly(),
    ensures
        state.settled(now).orderly(),
{
    let due = crate::address::sorted_peers(state.due_promotions(now));
    lemma_each_promotion_processed(state, state.promotions, due, now);
    let promoted = state.each_promotion_processed(state.promotions, due, now);
    let relays = crate::ordered::sorted_numbers(promoted.finished_relays(now));
    lemma_each_relay_retired(promoted, promoted, relays, now);
    let relayed = promoted.each_relay_retired(promoted, relays, now);
    let duplicates = crate::ordered::sorted_numbers(relayed.finished_duplicates(now));
    lemma_each_duplicate_retired(relayed, relayed, duplicates, now);
}

/// Trying the preferred tiers keeps the loop in order.
pub proof fn retries_keep_order(state: LoopModel, peers: Seq<PeerId>, now: u64)
    requires
        state.orderly(),
    ensures
        state.each_preferred_tried(peers, now).orderly(),
    decreases peers.len(),
{
    if peers.len() > 0 {
        retries_keep_order(state, peers.drop_last(), now);
        lemma_preferred_tried(
            state.each_preferred_tried(peers.drop_last(), now),
            peers.last(),
            now,
        );
    }
}

/// Dialling the peers at the entry points keeps order.
pub proof fn bootstrap_keeps_order(state: LoopModel, peers: Seq<PeerId>)
    requires
        state.orderly(),
    ensures
        state.each_ensured(peers).orderly(),
        state.each_ensured(peers).mode() == state.mode(),
        state.each_ensured(peers).book == state.book,
    decreases peers.len(),
{
    if peers.len() > 0 {
        bootstrap_keeps_order(state, peers.drop_last());
        lemma_ensured(state.each_ensured(peers.drop_last()), peers.last());
    }
}

proof fn lemma_each_reconciled(state: LoopModel, peers: Seq<PeerId>)
    requires
        state.orderly(),
    ensures
        state.each_reconciled(peers).orderly(),
        state.each_reconciled(peers).mode() == state.mode(),
        state.each_reconciled(peers).book == state.book,
    decreases peers.len(),
{
    if peers.len() > 0 {
        lemma_each_reconciled(state, peers.drop_last());
        lemma_reconciled(state.each_reconciled(peers.drop_last()), peers.last());
    }
}

/// What a node does to start keeps order.
pub proof fn starting_keeps_order(state: LoopModel, entry_points: Set<PeerId>)
    requires
        state.orderly(),
    ensures
        state.started(entry_points).orderly(),
        state.started(entry_points).mode() == state.mode(),
        state.started(entry_points).book == state.book,
{
    let peers = crate::address::sorted_peers(state.book.persistent.dom());
    lemma_each_reconciled(state, peers);
    bootstrap_keeps_order(
        state.each_reconciled(peers),
        crate::address::sorted_peers(entry_points),
    );
}

proof fn lemma_each_reconsidered(state: LoopModel, peers: Seq<PeerId>)
    requires
        state.orderly(),
    ensures
        state.each_reconsidered(peers).orderly(),
        state.each_reconsidered(peers).mode() == state.mode(),
    decreases peers.len(),
{
    if peers.len() > 0 {
        lemma_each_reconsidered(state, peers.drop_last());
        lemma_reconciled(state.each_reconsidered(peers.drop_last()), peers.last());
    }
}

proof fn lemma_recovery_cleared(state: LoopModel, scope: u128)
    requires
        state.orderly(),
    ensures
        state.recovery_cleared(scope).orderly(),
        state.recovery_cleared(scope).mode() == state.mode(),
{
    reveal(LoopModel::recovery_cleared);
    let ended = state.with_book(state.book.without_scope(scope));
    assert(ended.orderly());
    lemma_each_reconsidered(
        ended,
        crate::address::sorted_peers(state.book.scope_peers(scope)),
    );
}

proof fn lemma_each_recovery_cleared(state: LoopModel, scopes: Seq<u128>)
    requires
        state.orderly(),
    ensures
        state.each_recovery_cleared(scopes).orderly(),
        state.each_recovery_cleared(scopes).mode() == state.mode(),
    decreases scopes.len(),
{
    if scopes.len() > 0 {
        lemma_each_recovery_cleared(state, scopes.drop_last());
        lemma_recovery_cleared(state.each_recovery_cleared(scopes.drop_last()), scopes.last());
    }
}

proof fn lemma_each_learned_expired(state: LoopModel, peers: Seq<PeerId>)
    requires
        state.orderly(),
    ensures
        state.each_learned_expired(peers).orderly(),
        state.each_learned_expired(peers).mode() == state.mode(),
    decreases peers.len(),
{
    if peers.len() > 0 {
        lemma_each_learned_expired(state, peers.drop_last());
        let s = state.each_learned_expired(peers.drop_last());
        let forgotten = s.with_book(s.book.without_learned(peers.last()));
        assert(forgotten.orderly());
        lemma_reconciled(forgotten, peers.last());
    }
}

proof fn lemma_each_unknown_forgotten(state: LoopModel, peers: Seq<PeerId>)
    requires
        state.orderly(),
    ensures
        state.each_unknown_forgotten(peers).orderly(),
        state.each_unknown_forgotten(peers).mode() == state.mode(),
    decreases peers.len(),
{
    if peers.len() > 0 {
        lemma_each_unknown_forgotten(state, peers.drop_last());
        lemma_unknown_forgotten(state.each_unknown_forgotten(peers.drop_last()), peers.last());
    }
}

/// Forgetting what is past its time keeps the loop in order.
pub proof fn expiry_keeps_order(state: LoopModel, now: u64)
    requires
        state.orderly(),
    ensures
        state.addresses_expired(now).orderly(),
{
    let peers = crate::address::sorted_peers(state.book.expired_learned(now));
    lemma_each_learned_expired(state, peers);
    let learned = state.each_learned_expired(peers);
    let unknown = crate::address::sorted_peers(learned.book.expired_opportunistic(now));
    lemma_each_unknown_forgotten(learned, unknown);
    let rest = learned.each_unknown_forgotten(unknown);
    lemma_each_recovery_cleared(
        rest,
        crate::ordered::sorted_list::<u128>(rest.book.expired_scopes(now)),
    );
}

/// Whatever is learned of a peer's addresses, and by whatever right, the loop
/// stays in order.
pub proof fn learning_keeps_order(
    state: LoopModel,
    peer: PeerId,
    address: Seq<Component>,
    addresses: Seq<Seq<Component>>,
    scope: u128,
    expires_at_unix: u64,
    now_unix: u64,
    now: u64,
)
    requires
        state.orderly(),
    ensures
        state.learned(peer, address, now).orderly(),
        state.addresses_replaced(peer, addresses, expires_at_unix, now_unix, now).orderly(),
        state.with_book(
            state.book.scoped(scope, peer, addresses, expires_at_unix, now_unix, now).0,
        ).reconciled(peer).orderly(),
        state.recovery_cleared(scope).orderly(),
{
    lemma_learned(state, peer, address, now);
    let replaced = state.with_book(
        state.book.replaced(peer, addresses, expires_at_unix, now_unix, now),
    );
    assert(replaced.orderly());
    lemma_reconciled(replaced, peer);
    let scoped = state.with_book(
        state.book.scoped(scope, peer, addresses, expires_at_unix, now_unix, now).0,
    );
    assert(scoped.orderly());
    lemma_reconciled(scoped, peer);
    lemma_recovery_cleared(state, scope);
}

proof fn lemma_each_history_forgotten(state: LoopModel, peers: Seq<PeerId>)
    requires
        state.orderly(),
    ensures
        state.each_history_forgotten(peers).orderly(),
    decreases peers.len(),
{
    if peers.len() > 0 {
        lemma_each_history_forgotten(state, peers.drop_last());
    }
}

/// Whatever the rest of the node asks for, the loop stays in order.
pub proof fn commands_keep_order(state: LoopModel, command: Command, now: u64, unix_now: u64)
    requires
        state.orderly(),
    ensures
        state.commanded(command, now, unix_now).orderly(),
{
    match command {
        Command::AddLearnedAddress { peer, address } => {
            lemma_learned(state, peer, address@, now);
        },
        Command::AddRecoveryAddresses { scope, peer, addresses, expires_at_unix } => {
            let scoped = state.with_book(
                state.book.scoped(
                    scope,
                    peer,
                    crate::policy::views(addresses@),
                    expires_at_unix,
                    unix_now,
                    now,
                ).0,
            );
            assert(scoped.orderly());
            lemma_reconciled(scoped, peer);
        },
        Command::ClearRecoveryAddresses { scope } => {
            lemma_recovery_cleared(state, scope);
        },
        Command::ReplaceLearnedAddresses { peer, addresses, expires_at_unix } => {
            let replaced = state.with_book(
                state.book.replaced(
                    peer,
                    crate::policy::views(addresses@),
                    expires_at_unix,
                    unix_now,
                    now,
                ),
            );
            assert(replaced.orderly());
            lemma_reconciled(replaced, peer);
        },
        Command::SetRelayMembers { members } => {
            let changed = state.with_book(state.book.with_members(members@));
            assert(changed.orderly());
            lemma_each_history_forgotten(
                changed,
                crate::address::sorted_peers(
                    state.transfers.dom().union(state.path_transfers.dom()),
                ),
            );
        },
        Command::Request { request } => {
            if request.wanted {
                lemma_queued_or_dispatched(state, pending_request(state, request, now), now);
            }
        },
        _ => {},
    }
}

/// A connection over a path that the mode forbids is closed as soon as it is
/// established.
pub proof fn forbidden_connections_are_closed(
    state: LoopModel,
    connection: u64,
    peer: PeerId,
    path: P2pPath,
    dialer: bool,
    now: u64,
    unix_now: u64,
)
    requires
        state.orderly(),
        ({
            let known = state.noted(connection, peer, path, dialer, now, unix_now).paired(
                connection,
                peer,
            );
            !path_allowed(state.mode(), known.links.paths[connection].path)
        }),
    ensures
        ({
            let after = state.established(connection, peer, path, dialer, now, unix_now);
            &&& after.links.collapsing.contains(connection)
            &&& after.actions.last() == (ActionModel::Close { connection })
        }),
{
    lemma_noted(state, connection, peer, path, dialer, now, unix_now);
    let noted = state.noted(connection, peer, path, dialer, now, unix_now);
    lemma_paired(noted, connection, peer);
    assert(noted.open.contains(connection));
}

/// A caller that cancels a request which is with the transport cannot make
/// room for another: the request stays in flight, but nobody waits for it, and
/// it is not sent again.
pub proof fn cancelled_requests_stay_in_flight(
    state: LoopModel,
    cancellation_id: u128,
    request: u64,
    now: u64,
)
    requires
        state.pending.dom().finite(),
        crate::requests::first_with(state.queued, cancellation_id) is None,
        state.pending_with(cancellation_id) == set![request],
    ensures
        ({
            let after = state.cancelled(cancellation_id);
            &&& after.pending.dom() == state.pending.dom()
            &&& !after.pending[request].waiting
            &&& after.actions == state.actions
            &&& after.queued_or_dispatched(after.pending[request], now) == after
        }),
{
    let matching = state.pending_with(cancellation_id);
    assert(matching.contains(request));
    crate::ordered::lemma_sorted_exists::<u64>(matching);
    let sorted = crate::ordered::sorted_numbers(matching);
    assert(sorted.to_set().contains(request));
    lemma_sorted_members(matching, sorted[0], 0);
    assert(sorted[0] == request);
    let after = state.cancelled(cancellation_id);
    assert(after.pending.dom() =~= state.pending.dom());
    reveal(LoopModel::queued_or_dispatched);
}

/// Two requests are the same signed request to the same peer, sent perhaps at
/// another tier, another time and so many times more.
pub open spec fn same_request(one: PendingRequest, other: PendingRequest) -> bool {
    other == (PendingRequest {
        transport_tier: other.transport_tier,
        attempts: other.attempts,
        started_at: other.started_at,
        ..one
    })
}

/// A request is with the transport once more, counted as another attempt.
pub open spec fn sent_again(
    before: Map<u64, PendingRequest>,
    after: Map<u64, PendingRequest>,
    request: PendingRequest,
    number: u64,
) -> bool {
    &&& after == before.insert(number, after[number])
    &&& same_request(request, after[number])
    &&& after[number].attempts == request.attempts + 1
}

proof fn lemma_queued_or_sent(state: LoopModel, request: PendingRequest, now: u64)
    requires
        state.orderly(),
        request.attempts <= MAX_REQUEST_TRANSPORT_ATTEMPTS,
    ensures
        ({
            let after = state.queued_or_dispatched(request, now);
            ||| after.pending == state.pending && after.queued == state.queued
            ||| request.waiting && after.pending == state.pending && after.queued
                == state.queued.push(request)
            ||| request.waiting && after.queued == state.queued && exists|number: u64| #[trigger]
                sent_again(state.pending, after.pending, request, number)
        }),
{
    reveal(LoopModel::queued_or_dispatched);
    reveal(LoopModel::dispatched);
    let peer = request.peer;
    let chosen = state.reconciled(peer);
    lemma_reconciled(state, peer);
    lemma_non_policy_retired(chosen, peer, now);
    lemma_ensured(chosen, peer);
    let ready = chosen.non_policy_retired(peer, now);
    let after = state.queued_or_dispatched(request, now);
    if after.pending != state.pending {
        assert(after == ready.dispatched(request, now));
        assert(sent_again(state.pending, after.pending, request, ready.next_request));
    }
}

/// A request that failed is given up, waits as it was, or is with the transport
/// once more: the same signed request to the same peer, once, and one attempt
/// further. Every other request stays as it is. A request for which nobody waits
/// is not sent again.
pub proof fn a_retry_sends_the_same_request(
    state: LoopModel,
    request: u64,
    peer: PeerId,
    connection: u64,
    now: u64,
)
    requires
        state.orderly(),
        state.pending.contains_key(request),
    ensures
        ({
            let failed = state.pending[request];
            let rest = state.pending.remove(request);
            let after = state.outbound_failed(request, peer, connection, now);
            ||| after.pending == rest && after.queued == state.queued
            ||| failed.waiting && after.pending == rest && after.queued == state.queued.push(failed)
            ||| failed.waiting && after.queued == state.queued && exists|number: u64| #[trigger]
                sent_again(rest, after.pending, failed, number)
        }),
{
    let failed = state.pending[request];
    let taken = LoopModel { pending: state.pending.remove(request), ..state };
    assert(taken.orderly());
    let path = taken.links.failure_path(peer, connection);
    let logged = LoopModel {
        log: taken.log.request_ended(
            if path is Some {
                path
            } else {
                taken.path_hint(peer)
            },
            failed.started_at,
            now,
            false,
        ),
        ..taken
    };
    assert(logged.orderly());
    let marked = LoopModel { links: logged.links.unhealthy_with(connection), ..logged };
    assert(marked.orderly());
    lemma_acting(marked, ActionModel::Close { connection });
    let cut = logged.distrusted(connection, peer);
    assert(cut.orderly());
    lemma_ensured(cut, peer);
    lemma_queued_or_sent(cut.ensured(peer), failed, now);
    reveal(LoopModel::retried);
    lemma_fallen_back(cut, peer, now);
    lemma_queued_or_sent(cut, failed, now);
    lemma_queued_or_sent(cut.fallen_back(peer, now), failed, now);
}

} // verus!
