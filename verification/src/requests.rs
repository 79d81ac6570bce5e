//! Requests to peers: when they are sent, how often, and what ends them.

use crate::address::{sorted_peers, PeerId, PeerSet};
use crate::ids::Id32;
use crate::loop_state::{Action, ActionModel, LoopModel, P2pEventLoop, PendingRequest, RequestOutcome};
use crate::ordered::{sort_numbers, sorted_numbers};
use crate::table::EntryTest;
use crate::transport::sorted_vec;
use vstd::prelude::*;

verus! {

/// How often a request is handed to the transport at most.
pub const MAX_REQUEST_TRANSPORT_ATTEMPTS: u8 = 6;

/// How long a caller waits for the answer to a request at most.
pub const LOGICAL_REQUEST_TIMEOUT_MILLIS: u64 = 90_000;

impl PendingRequest {
    /// The caller wants the request sent, and there is time for it.
    pub open spec fn live(self, now: u64) -> bool {
        self.waiting && self.deadline > now
    }
}

/// The peers of requests that a test singles out.
pub open spec fn peers_where(requests: Seq<PendingRequest>, test: spec_fn(PendingRequest) -> bool) -> Set<
    PeerId,
> {
    Set::new(
        |peer: PeerId|
            exists|i: int|
                0 <= i < requests.len() && test(#[trigger] requests[i]) && requests[i].peer == peer,
    )
}

/// What callers are told whose requests are past their time.
pub open spec fn expiry_actions(requests: Seq<PendingRequest>, now: u64) -> Seq<ActionModel>
    decreases requests.len(),
{
    if requests.len() == 0 {
        Seq::empty()
    } else {
        let before = expiry_actions(requests.drop_last(), now);
        let last = requests.last();
        if last.waiting && last.deadline <= now {
            before.push(
                ActionModel::Finish {
                    cancellation_id: last.cancellation_id,
                    outcome: RequestOutcome::DeadlineExpired,
                },
            )
        } else {
            before
        }
    }
}

/// What callers of requests to a peer are told when these fail together.
pub open spec fn failure_actions(
    requests: Seq<PendingRequest>,
    peer: PeerId,
    outcome: RequestOutcome,
) -> Seq<ActionModel>
    decreases requests.len(),
{
    if requests.len() == 0 {
        Seq::empty()
    } else {
        let before = failure_actions(requests.drop_last(), peer, outcome);
        let last = requests.last();
        if last.peer == peer && last.waiting {
            before.push(
                ActionModel::Finish { cancellation_id: last.cancellation_id, outcome },
            )
        } else {
            before
        }
    }
}

/// The position of the first request with a cancellation number.
pub open spec fn first_with(requests: Seq<PendingRequest>, cancellation_id: u128) -> Option<int>
    decreases requests.len(),
{
    if requests.len() == 0 {
        None
    } else {
        match first_with(requests.drop_last(), cancellation_id) {
            Some(i) => Some(i),
            None => if requests.last().cancellation_id == cancellation_id {
                Some(requests.len() - 1)
            } else {
                None
            },
        }
    }
}

/// A request whose caller is gone.
pub open spec fn abandoned(request: PendingRequest, cancellation_id: u128) -> PendingRequest {
    if request.cancellation_id == cancellation_id {
        PendingRequest { waiting: false, ..request }
    } else {
        request
    }
}

impl LoopModel {
    /// The caller of a request is told how it ended, if it waits.
    pub open spec fn finished(self, request: PendingRequest, outcome: RequestOutcome) -> LoopModel {
        if request.waiting {
            self.acting(
                ActionModel::Finish { cancellation_id: request.cancellation_id, outcome },
            )
        } else {
            self
        }
    }

    /// Why a request is not sent: nobody waits, its time is over, or it was
    /// sent too often.
    pub open spec fn given_up(self, request: PendingRequest, now: u64) -> Option<LoopModel> {
        if !request.waiting {
            Some(self)
        } else if request.deadline <= now {
            Some(self.finished(request, RequestOutcome::DeadlineExpired))
        } else if request.attempts >= MAX_REQUEST_TRANSPORT_ATTEMPTS {
            Some(self.finished(request, RequestOutcome::AttemptsExhausted))
        } else {
            None
        }
    }

    /// A request is handed to the transport, or given up.
    #[verifier::opaque]
    pub open spec fn dispatched(self, request: PendingRequest, now: u64) -> LoopModel {
        match self.given_up(request, now) {
            Some(after) => after,
            None => LoopModel {
                pending: self.pending.insert(
                    self.next_request,
                    (PendingRequest {
                        transport_tier: self.tier(request.peer),
                        attempts: (request.attempts + 1) as u8,
                        started_at: now,
                        ..request
                    }),
                ),
                next_request: self.next_request.wrapping_add(1),
                actions: self.actions.push(
                    ActionModel::Send {
                        request: self.next_request,
                        cancellation_id: request.cancellation_id,
                        peer: request.peer,
                    },
                ),
                ..self
            },
        }
    }

    /// The connections to the peer are not settled, so the transport might use
    /// one on its way out.
    pub open spec fn unsettled(self, peer: PeerId) -> bool {
        self.promotions.contains_key(peer) || self.links.unsettled(peer)
    }

    /// A request is handed to the transport where there is a settled
    /// connection at the selected tier, else it waits for one.
    #[verifier::opaque]
    pub open spec fn queued_or_dispatched(self, request: PendingRequest, now: u64) -> LoopModel {
        match self.given_up(request, now) {
            Some(after) => after,
            None => {
                let peer = request.peer;
                let chosen = self.reconciled(peer);
                let connected = chosen.links.healthy_at(peer, chosen.tier(peer), None);
                let ready = if connected {
                    chosen.non_policy_retired(peer, now)
                } else {
                    chosen.ensured(peer)
                };
                if !connected || ready.unsettled(peer) {
                    LoopModel { queued: ready.queued.push(request), ..ready }
                } else {
                    ready.dispatched(request, now)
                }
            },
        }
    }

    /// The first waiting request is looked at again if it is for the peer,
    /// else it goes to the end.
    pub open spec fn first_drained(self, peer: PeerId, now: u64) -> LoopModel {
        let request = self.queued[0];
        let rest = LoopModel { queued: self.queued.drop_first(), ..self };
        if request.peer == peer {
            rest.queued_or_dispatched(request, now)
        } else {
            LoopModel { queued: rest.queued.push(request), ..rest }
        }
    }

    /// So many waiting requests are looked at.
    pub open spec fn drained_steps(self, peer: PeerId, now: u64, steps: nat) -> LoopModel
        decreases steps,
    {
        if steps == 0 || self.queued.len() == 0 {
            self
        } else {
            self.first_drained(peer, now).drained_steps(peer, now, (steps - 1) as nat)
        }
    }

    /// The waiting requests to the peer are looked at again.
    #[verifier::opaque]
    pub open spec fn drained(self, peer: PeerId, now: u64) -> LoopModel {
        self.drained_steps(peer, now, self.queued.len())
    }

    pub open spec fn each_drained(self, peers: Seq<PeerId>, now: u64) -> LoopModel
        decreases peers.len(),
    {
        if peers.len() == 0 {
            self
        } else {
            self.each_drained(peers.drop_last(), now).drained(peers.last(), now)
        }
    }

    pub open spec fn each_selection_forgotten(self, peers: Seq<PeerId>) -> LoopModel
        decreases peers.len(),
    {
        if peers.len() == 0 {
            self
        } else {
            self.each_selection_forgotten(peers.drop_last()).selection_forgotten(peers.last())
        }
    }

    /// The requests with the transport that have a cancellation number.
    pub open spec fn pending_with(self, cancellation_id: u128) -> Set<u64> {
        self.pending.dom().filter(|r: u64| self.pending[r].cancellation_id == cancellation_id)
    }

    /// A caller cancels its request. One that waits is dropped. One that is
    /// with the transport stays, so that it counts as in flight until the
    /// transport is done with it; nobody waits for it any more.
    pub open spec fn cancelled(self, cancellation_id: u128) -> LoopModel {
        match first_with(self.queued, cancellation_id) {
            Some(i) => LoopModel {
                queued: self.queued.remove(i),
                ..self
            }.selection_forgotten(self.queued[i].peer),
            None => if self.pending_with(cancellation_id) == Set::<u64>::empty() {
                self
            } else {
                let first = sorted_numbers(self.pending_with(cancellation_id))[0];
                LoopModel {
                    pending: self.pending.insert(
                        first,
                        (PendingRequest { waiting: false, ..self.pending[first] }),
                    ),
                    ..self
                }
            },
        }
    }

    /// A caller no longer waits, though it did not say so.
    pub open spec fn caller_gone(self, cancellation_id: u128) -> LoopModel {
        LoopModel {
            queued: self.queued.map_values(|r: PendingRequest| abandoned(r, cancellation_id)),
            pending: self.pending.map_values(|r: PendingRequest| abandoned(r, cancellation_id)),
            ..self
        }
    }

    /// A request with this cancellation number is not yet done with.
    pub open spec fn holds(self, cancellation_id: u128) -> bool {
        ||| exists|i: int|
            0 <= i < self.queued.len() && (#[trigger] self.queued[i]).cancellation_id
                == cancellation_id
        ||| exists|r: u64| #[trigger]
            self.pending.contains_key(r) && self.pending[r].cancellation_id == cancellation_id
    }

    /// The waiting requests of which nothing can come are dropped.
    pub open spec fn swept(self, now: u64) -> LoopModel {
        LoopModel {
            queued: self.queued.filter(|r: PendingRequest| r.live(now)),
            actions: self.actions + expiry_actions(self.queued, now),
            ..self
        }
    }

    /// The peers of waiting requests that are dropped.
    pub open spec fn released(self, now: u64) -> Set<PeerId> {
        peers_where(self.queued, |r: PendingRequest| !r.live(now))
    }

    /// The requests with the transport whose callers have waited too long.
    pub open spec fn overdue(self, now: u64) -> Set<u64> {
        self.pending.dom().filter(
            |r: u64| self.pending[r].deadline <= now && self.pending[r].waiting,
        )
    }

    /// The caller of a request with the transport is told that its time is
    /// over.
    pub open spec fn timed_out(self, request: u64) -> LoopModel {
        LoopModel {
            pending: self.pending.insert(
                request,
                (PendingRequest { waiting: false, ..self.pending[request] }),
            ),
            ..self
        }.acting(
            ActionModel::Finish {
                cancellation_id: self.pending[request].cancellation_id,
                outcome: RequestOutcome::DeadlineExpired,
            },
        )
    }

    pub open spec fn each_timed_out(self, requests: Seq<u64>) -> LoopModel
        decreases requests.len(),
    {
        if requests.len() == 0 {
            self
        } else {
            self.each_timed_out(requests.drop_last()).timed_out(requests.last())
        }
    }

    /// The requests are maintained: what is past its time ends, and what waits
    /// is looked at again.
    pub open spec fn maintained(self, now: u64) -> LoopModel {
        let timed = self.swept(now).each_timed_out(sorted_numbers(self.swept(now).overdue(now)));
        let expired = LoopModel { links: timed.links.closed_expired(now), ..timed };
        expired.each_drained(
            sorted_peers(peers_where(expired.queued, |r: PendingRequest| true)),
            now,
        ).each_selection_forgotten(sorted_peers(self.released(now)))
    }

    /// The waiting requests to a peer fail together.
    #[verifier::opaque]
    pub open spec fn queue_failed(self, peer: PeerId, outcome: RequestOutcome) -> LoopModel {
        LoopModel {
            queued: self.queued.filter(|r: PendingRequest| r.peer != peer),
            actions: self.actions + failure_actions(self.queued, peer, outcome),
            ..self
        }.selection_forgotten(peer)
    }

    /// No request was sent more often than it may be.
    pub open spec fn in_budget(self) -> bool {
        &&& forall|r: u64| #[trigger]
            self.pending.contains_key(r) ==> self.pending[r].attempts
                <= MAX_REQUEST_TRANSPORT_ATTEMPTS
        &&& forall|i: int|
            0 <= i < self.queued.len() ==> (#[trigger] self.queued[i]).attempts
                <= MAX_REQUEST_TRANSPORT_ATTEMPTS
    }
}

struct CancellationTest {
    cancellation_id: u128,
}

impl EntryTest<u64, PendingRequest> for CancellationTest {
    closed spec fn ready(&self) -> bool {
        true
    }

    closed spec fn passes(&self, key: u64, value: PendingRequest) -> bool {
        value.cancellation_id == self.cancellation_id
    }

    fn test(&self, key: u64, value: &PendingRequest) -> (result: bool) {
        value.cancellation_id == self.cancellation_id
    }
}

struct OverdueTest {
    now: u64,
}

impl EntryTest<u64, PendingRequest> for OverdueTest {
    closed spec fn ready(&self) -> bool {
        true
    }

    closed spec fn passes(&self, key: u64, value: PendingRequest) -> bool {
        value.deadline <= self.now && value.waiting
    }

    fn test(&self, key: u64, value: &PendingRequest) -> (result: bool) {
        value.deadline <= self.now && value.waiting
    }
}

impl P2pEventLoop {
    /// Tells the caller of a request how it ended, if it waits.
    pub fn finish(&mut self, request: PendingRequest, outcome: RequestOutcome)
        requires
            old(self).wf(),
        ensures
            final(self).wf(),
            final(self)@ == old(self)@.finished(request, outcome),
    {
        if request.waiting {
            self.act(Action::Finish { cancellation_id: request.cancellation_id, outcome });
        }
    }

    fn give_up(&mut self, request: PendingRequest, now: u64) -> (done: bool)
        requires
            old(self).wf(),
        ensures
            final(self).wf(),
            match old(self)@.given_up(request, now) {
                Some(after) => done && final(self)@ == after,
                None => !done && final(self)@ == old(self)@,
            },
    {
        if !request.waiting {
            return true;
        }
        if request.deadline <= now {
            self.finish(request, RequestOutcome::DeadlineExpired);
            return true;
        }
        if request.attempts >= MAX_REQUEST_TRANSPORT_ATTEMPTS {
            self.finish(request, RequestOutcome::AttemptsExhausted);
            return true;
        }
        false
    }

    /// Hands a request to the transport.
    pub fn dispatch_request(&mut self, request: PendingRequest, now: u64)
        requires
            old(self).wf(),
        ensures
            final(self).wf(),
            final(self)@ == old(self)@.dispatched(request, now),
    {
        proof {
            reveal(LoopModel::dispatched);
        }
        if self.give_up(request, now) {
            return ;
        }
        let mut sent: PendingRequest = request;
        sent.transport_tier = self.selected_transport_tier(request.peer);
        sent.attempts = sent.attempts + 1;
        sent.started_at = now;
        let number: u64 = self.next_request;
        self.next_request = self.next_request.wrapping_add(1);
        self.pending.insert(number, sent);
        self.act(
            Action::Send {
                request: number,
                cancellation_id: request.cancellation_id,
                peer: request.peer,
            },
        );
    }

    pub fn peer_has_unsettled_connections(&self, peer: PeerId) -> (result: bool)
        requires
            self.wf(),
        ensures
            result == self@.unsettled(peer),
    {
        self.promotions.has(peer) || self.links.has_unsettled(peer)
    }

    /// Hands a request to the transport, or lets it wait for a connection.
    pub fn queue_or_dispatch_request(&mut self, request: PendingRequest, now: u64)
        requires
            old(self).wf(),
        ensures
            final(self).wf(),
            final(self)@ == old(self)@.queued_or_dispatched(request, now),
    {
        proof {
            reveal(LoopModel::queued_or_dispatched);
        }
        if self.give_up(request, now) {
            return ;
        }
        let peer = request.peer;
        self.reconcile_policy_addresses(peer);
        let tier: u8 = self.selected_transport_tier(peer);
        let connected = self.links.healthy_connection_at_tier(peer, tier, None);
        if connected {
            self.retire_non_policy_connections(peer, now);
        } else {
            self.ensure_selected_transport(peer);
        }
        if !connected || self.peer_has_unsettled_connections(peer) {
            self.queued.push(request);
        } else {
            self.dispatch_request(request, now);
        }
    }

    /// Looks again at the waiting requests to a peer.
    pub fn drain_queued_requests(&mut self, peer: PeerId, now: u64)
        requires
            old(self).wf(),
        ensures
            final(self).wf(),
            final(self)@ == old(self)@.drained(peer, now),
    {
        proof {
            reveal(LoopModel::drained);
        }
        let total: usize = self.queued.len();
        let mut i: usize = 0;
        while i < total
            invariant
                i <= total,
                self.wf(),
                self@.drained_steps(peer, now, (total - i) as nat) == old(self)@.drained(
                    peer,
                    now,
                ),
            decreases total - i,
        {
            if self.queued.len() == 0 {
                return ;
            }
            let ghost before = self@;
            let request: PendingRequest = self.queued.remove(0);
            assert(self.queued@ =~= before.queued.drop_first());
            if request.peer.equals(&peer) {
                self.queue_or_dispatch_request(request, now);
            } else {
                self.queued.push(request);
            }
            assert(self@ == before.first_drained(peer, now));
            i += 1;
        }
    }

    fn position_of(&self, cancellation_id: u128) -> (position: Option<usize>)
        ensures
            (match position {
                Some(i) => Some(i as int),
                None => None,
            }) == first_with(self@.queued, cancellation_id),
            position matches Some(i) ==> i < self.queued@.len(),
    {
        let mut i: usize = 0;
        assert(self.queued@.take(0) =~= Seq::empty());
        while i < self.queued.len()
            invariant
                i <= self.queued@.len(),
                first_with(self.queued@.take(i as int), cancellation_id) is None,
            decreases self.queued@.len() - i,
        {
            let ghost next = self.queued@.take(i + 1);
            assert(next.drop_last() =~= self.queued@.take(i as int));
            if self.queued[i].cancellation_id == cancellation_id {
                proof {
                    lemma_first_with_stays(self.queued@, cancellation_id, i + 1);
                }
                return Some(i);
            }
            i += 1;
        }
        assert(self.queued@.take(i as int) =~= self.queued@);
        None
    }

    /// Cancels a request on its caller's word.
    pub fn cancel_request(&mut self, cancellation_id: u128)
        requires
            old(self).wf(),
        ensures
            final(self).wf(),
            final(self)@ == old(self)@.cancelled(cancellation_id),
    {
        if let Some(position) = self.position_of(cancellation_id) {
            let request: PendingRequest = self.queued.remove(position);
            self.forget_transport_selection_if_unretained(request.peer);
            return ;
        }
        let test = CancellationTest { cancellation_id };
        let found = self.pending.select(&test);
        let ghost matching = self@.pending_with(cancellation_id);
        assert(found@.to_set() =~= matching);
        let sorted = sort_numbers(&found);
        proof {
            if sorted@.len() == 0 {
                assert(matching =~= Set::empty()) by {
                    assert forall|r: u64| !matching.contains(r) by {
                        assert(matching.contains(r) == sorted@.to_set().contains(r));
                    }
                }
            } else {
                assert(sorted@.to_set().contains(sorted@[0]));
                assert(matching.contains(sorted@[0]));
            }
        }
        if sorted.len() > 0 {
            let first: u64 = sorted[0];
            if let Some(request) = self.pending.get(first) {
                let mut request: PendingRequest = *request;
                request.waiting = false;
                self.pending.insert(first, request);
            }
        }
    }

    /// Notes that a caller no longer waits, though it did not say so.
    pub fn note_caller_gone(&mut self, cancellation_id: u128)
        requires
            old(self).wf(),
        ensures
            final(self).wf(),
            final(self)@ == old(self)@.caller_gone(cancellation_id),
    {
        let ghost start = self@;
        let mut i: usize = 0;
        while i < self.queued.len()
            invariant
                i <= self.queued@.len() == start.queued.len(),
                self.wf(),
                ({
                    let changed = self@;
                    LoopModel { queued: start.queued, ..changed } == start
                }),
                forall|k: int|
                    0 <= k < start.queued.len() ==> #[trigger] self.queued@[k] == (if k < i {
                        abandoned(start.queued[k], cancellation_id)
                    } else {
                        start.queued[k]
                    }),
            decreases self.queued@.len() - i,
        {
            let mut request: PendingRequest = self.queued[i];
            if request.cancellation_id == cancellation_id {
                request.waiting = false;
            }
            self.queued.set(i, request);
            i += 1;
        }
        let ghost middle = self@;
        assert(self.queued@ =~= start.caller_gone(cancellation_id).queued);
        let test = CancellationTest { cancellation_id };
        let found = self.pending.select(&test);
        proof {
            assert forall|k: int| 0 <= k < found@.len() implies start.pending.contains_key(
                #[trigger] found@[k],
            ) && start.pending[found@[k]].cancellation_id == cancellation_id by {
                assert(found@.to_set().contains(found@[k]));
            }
        }
        let mut j: usize = 0;
        while j < found.len()
            invariant
                j <= found@.len(),
                self.wf(),
                start.pending == middle.pending,
                found@.no_duplicates(),
                forall|k: int|
                    0 <= k < found@.len() ==> start.pending.contains_key(#[trigger] found@[k])
                        && start.pending[found@[k]].cancellation_id == cancellation_id,
                ({
                    let changed = self@;
                    LoopModel { pending: start.pending, ..changed } == middle
                }),
                self.pending@.dom() == start.pending.dom(),
                forall|r: u64| #[trigger]
                    start.pending.contains_key(r) ==> self.pending@[r] == (if found@.take(
                        j as int,
                    ).contains(r) {
                        abandoned(start.pending[r], cancellation_id)
                    } else {
                        start.pending[r]
                    }),
            decreases found@.len() - j,
        {
            let number: u64 = found[j];
            let ghost prior = self.pending@;
            proof {
                assert(start.pending.contains_key(number));
                assert(self.pending@.contains_key(number));
            }
            if let Some(request) = self.pending.get(number) {
                let mut request: PendingRequest = *request;
                request.waiting = false;
                self.pending.insert(number, request);
            }
            proof {
                let taken = found@.take(j as int);
                let next = found@.take(j + 1);
                assert(next =~= taken.push(number));
                crate::ordered::lemma_push_set(taken, number);
                assert(!taken.contains(number)) by {
                    if taken.contains(number) {
                        let k = choose|k: int| 0 <= k < taken.len() && taken[k] == number;
                        assert(found@[k] == found@[j as int]);
                    }
                }
                assert(self.pending@.dom() =~= start.pending.dom());
                assert forall|r: u64| #[trigger] start.pending.contains_key(r) implies self.pending@[r]
                    == (if next.contains(r) {
                    abandoned(start.pending[r], cancellation_id)
                } else {
                    start.pending[r]
                }) by {
                    assert(next.contains(r) == next.to_set().contains(r));
                    assert(taken.contains(r) == taken.to_set().contains(r));
                }
            }
            j += 1;
        }
        proof {
            assert(found@.take(j as int) =~= found@);
            assert forall|r: u64| #[trigger] start.pending.contains_key(r) implies self.pending@[r]
                == abandoned(start.pending[r], cancellation_id) by {
                assert(found@.contains(r) == found@.to_set().contains(r));
            }
            assert(self.pending@ =~= start.caller_gone(cancellation_id).pending);
        }
    }

    /// Whether a request with this cancellation number is not yet done with.
    pub fn is_held(&self, cancellation_id: u128) -> (result: bool)
        requires
            self.wf(),
        ensures
            result == self@.holds(cancellation_id),
    {
        let mut i: usize = 0;
        while i < self.queued.len()
            invariant
                i <= self.queued@.len(),
                forall|k: int|
                    0 <= k < i ==> (#[trigger] self.queued@[k]).cancellation_id != cancellation_id,
            decreases self.queued@.len() - i,
        {
            if self.queued[i].cancellation_id == cancellation_id {
                assert(self@.queued[i as int].cancellation_id == cancellation_id);
                return true;
            }
            i += 1;
        }
        let test = CancellationTest { cancellation_id };
        let found = self.pending.any(&test);
        proof {
            if exists|r: u64| #[trigger]
                self@.pending.contains_key(r) && self@.pending[r].cancellation_id
                    == cancellation_id {
                let r = choose|r: u64| #[trigger]
                    self@.pending.contains_key(r) && self@.pending[r].cancellation_id
                        == cancellation_id;
                assert(self.pending@.contains_key(r) && test.passes(r, self.pending@[r]));
            }
            if found {
                let r = choose|r: u64| #[trigger]
                    self.pending@.contains_key(r) && test.passes(r, self.pending@[r]);
                assert(self@.pending.contains_key(r));
            }
        }
        found
    }

    fn sweep(&mut self, now: u64) -> (released: PeerSet)
        requires
            old(self).wf(),
        ensures
            final(self).wf(),
            final(self)@ == old(self)@.swept(now),
            released.wf(),
            released@ == old(self)@.released(now),
    {
        let ghost start = self@;
        let ghost keep = |r: PendingRequest| r.live(now);
        let mut queued: Vec<PendingRequest> = Vec::new();
        std::mem::swap(&mut queued, &mut self.queued);
        let mut released = PeerSet::new();
        let mut i: usize = 0;
        proof {
            reveal_with_fuel(Seq::filter, 2);
            assert(queued@.take(0) =~= Seq::empty());
            assert(self.queued@ =~= queued@.take(0).filter(keep));
            assert(self@.actions =~= start.actions + expiry_actions(queued@.take(0), now));
            assert(released@ =~= peers_where(queued@.take(0), |r: PendingRequest| !r.live(now)));
        }
        while i < queued.len()
            invariant
                i <= queued@.len(),
                self.wf(),
                released.wf(),
                keep == (|r: PendingRequest| r.live(now)),
                self.queued@ == queued@.take(i as int).filter(keep),
                self@.actions == start.actions + expiry_actions(queued@.take(i as int), now),
                released@ == peers_where(
                    queued@.take(i as int),
                    |r: PendingRequest| !r.live(now),
                ),
                ({
                    let changed = self@;
                    LoopModel { queued: start.queued, actions: start.actions, ..changed } == start
                }),
            decreases queued@.len() - i,
        {
            let request: PendingRequest = queued[i];
            let ghost taken = queued@.take(i as int);
            let ghost next = queued@.take(i + 1);
            proof {
                assert(next.drop_last() =~= taken);
                assert(next =~= taken.push(request));
                lemma_filter_push(taken, request, keep);
                lemma_peers_push(taken, request, |r: PendingRequest| !r.live(now));
            }
            if !request.waiting {
                let _ = released.insert(request.peer);
            } else if request.deadline <= now {
                let _ = released.insert(request.peer);
                self.finish(request, RequestOutcome::DeadlineExpired);
                assert(self@.actions =~= start.actions + expiry_actions(next, now));
            } else {
                self.queued.push(request);
            }
            i += 1;
        }
        proof {
            assert(queued@.take(i as int) =~= queued@);
            assert(queued@ == start.queued);
        }
        released
    }

    fn time_out(&mut self, now: u64)
        requires
            old(self).wf(),
        ensures
            final(self).wf(),
            final(self)@ == old(self)@.each_timed_out(sorted_numbers(old(self)@.overdue(now))),
    {
        let test = OverdueTest { now };
        let found = self.pending.select(&test);
        assert(found@.to_set() =~= self@.overdue(now));
        let sorted = sort_numbers(&found);
        proof {
            assert forall|k: int| 0 <= k < sorted@.len() implies self@.pending.contains_key(
                #[trigger] sorted@[k],
            ) by {
                assert(sorted@.to_set().contains(sorted@[k]));
            }
        }
        let mut i: usize = 0;
        assert(sorted@.take(0) =~= Seq::empty());
        while i < sorted.len()
            invariant
                i <= sorted@.len(),
                self.wf(),
                forall|k: int|
                    0 <= k < sorted@.len() ==> self@.pending.contains_key(#[trigger] sorted@[k]),
                self@ == old(self)@.each_timed_out(sorted@.take(i as int)),
            decreases sorted@.len() - i,
        {
            proof {
                assert(sorted@.take(i + 1).drop_last() =~= sorted@.take(i as int));
            }
            let number: u64 = sorted[i];
            let ghost before = self@;
            assert(self.pending@.contains_key(number));
            if let Some(request) = self.pending.get(number) {
                let request: PendingRequest = *request;
                let mut done: PendingRequest = request;
                done.waiting = false;
                self.pending.insert(number, done);
                self.act(
                    Action::Finish {
                        cancellation_id: request.cancellation_id,
                        outcome: RequestOutcome::DeadlineExpired,
                    },
                );
            }
            assert(self@ == before.timed_out(number));
            i += 1;
        }
        assert(sorted@.take(i as int) =~= sorted@);
    }

    fn waiting_peers(&self) -> (peers: PeerSet)
        ensures
            peers.wf(),
            peers@ == peers_where(self@.queued, |r: PendingRequest| true),
    {
        let mut peers = PeerSet::new();
        let mut i: usize = 0;
        assert(peers@ =~= peers_where(self.queued@.take(0), |r: PendingRequest| true));
        while i < self.queued.len()
            invariant
                i <= self.queued@.len(),
                peers.wf(),
                peers@ == peers_where(self.queued@.take(i as int), |r: PendingRequest| true),
            decreases self.queued@.len() - i,
        {
            let request: PendingRequest = self.queued[i];
            proof {
                let taken = self.queued@.take(i as int);
                assert(self.queued@.take(i + 1) =~= taken.push(request));
                lemma_peers_push(taken, request, |r: PendingRequest| true);
            }
            let _ = peers.insert(request.peer);
            i += 1;
        }
        assert(self.queued@.take(i as int) =~= self.queued@);
        peers
    }

    fn drain_each(&mut self, peers: &Vec<PeerId>, now: u64)
        requires
            old(self).wf(),
        ensures
            final(self).wf(),
            final(self)@ == old(self)@.each_drained(peers@, now),
    {
        let mut i: usize = 0;
        assert(peers@.take(0) =~= Seq::empty());
        while i < peers.len()
            invariant
                i <= peers@.len(),
                self.wf(),
                self@ == old(self)@.each_drained(peers@.take(i as int), now),
            decreases peers@.len() - i,
        {
            assert(peers@.take(i + 1).drop_last() =~= peers@.take(i as int));
            self.drain_queued_requests(peers[i], now);
            i += 1;
        }
        assert(peers@.take(i as int) =~= peers@);
    }

    fn forget_each(&mut self, peers: &Vec<PeerId>)
        requires
            old(self).wf(),
        ensures
            final(self).wf(),
            final(self)@ == old(self)@.each_selection_forgotten(peers@),
    {
        let mut i: usize = 0;
        assert(peers@.take(0) =~= Seq::empty());
        while i < peers.len()
            invariant
                i <= peers@.len(),
                self.wf(),
                self@ == old(self)@.each_selection_forgotten(peers@.take(i as int)),
            decreases peers@.len() - i,
        {
            assert(peers@.take(i + 1).drop_last() =~= peers@.take(i as int));
            self.forget_transport_selection_if_unretained(peers[i]);
            i += 1;
        }
        assert(peers@.take(i as int) =~= peers@);
    }

    /// Ends what is past its time and looks again at what waits.
    pub fn maintain_requests(&mut self, now: u64)
        requires
            old(self).wf(),
        ensures
            final(self).wf(),
            final(self)@ == old(self)@.maintained(now),
    {
        let released = self.sweep(now);
        self.time_out(now);
        self.links.expire_closed(now);
        let waiting = self.waiting_peers();
        let peers = sorted_vec(&waiting);
        self.drain_each(&peers, now);
        let done = sorted_vec(&released);
        self.forget_each(&done);
    }

    /// Lets the waiting requests to a peer fail together.
    pub fn fail_queued_requests(&mut self, peer: PeerId, outcome: RequestOutcome)
        requires
            old(self).wf(),
        ensures
            final(self).wf(),
            final(self)@ == old(self)@.queue_failed(peer, outcome),
    {
        proof {
            reveal(LoopModel::queue_failed);
        }
        let ghost start = self@;
        let ghost keep = |r: PendingRequest| r.peer != peer;
        let mut queued: Vec<PendingRequest> = Vec::new();
        std::mem::swap(&mut queued, &mut self.queued);
        let mut i: usize = 0;
        proof {
            reveal_with_fuel(Seq::filter, 2);
            assert(queued@.take(0) =~= Seq::empty());
            assert(self.queued@ =~= queued@.take(0).filter(keep));
            assert(self@.actions =~= start.actions + failure_actions(
                queued@.take(0),
                peer,
                outcome,
            ));
        }
        while i < queued.len()
            invariant
                i <= queued@.len(),
                self.wf(),
                keep == (|r: PendingRequest| r.peer != peer),
                self.queued@ == queued@.take(i as int).filter(keep),
                self@.actions == start.actions + failure_actions(
                    queued@.take(i as int),
                    peer,
                    outcome,
                ),
                ({
                    let changed = self@;
                    LoopModel { queued: start.queued, actions: start.actions, ..changed } == start
                }),
            decreases queued@.len() - i,
        {
            let request: PendingRequest = queued[i];
            let ghost taken = queued@.take(i as int);
            let ghost next = queued@.take(i + 1);
            proof {
                assert(next.drop_last() =~= taken);
                assert(next =~= taken.push(request));
                lemma_filter_push(taken, request, keep);
            }
            if request.peer.equals(&peer) {
                self.finish(request, outcome);
                assert(self@.actions =~= start.actions + failure_actions(next, peer, outcome));
            } else {
                self.queued.push(request);
            }
            i += 1;
        }
        proof {
            assert(queued@.take(i as int) =~= queued@);
        }
        self.forget_transport_selection_if_unretained(peer);
    }
}

proof fn lemma_first_with_stays(requests: Seq<PendingRequest>, cancellation_id: u128, n: int)
    requires
        0 <= n <= requests.len(),
        first_with(requests.take(n), cancellation_id) is Some,
    ensures
        first_with(requests, cancellation_id) == first_with(requests.take(n), cancellation_id),
    decreases requests.len() - n,
{
    if n < requests.len() {
        assert(requests.take(n + 1).drop_last() =~= requests.take(n));
        lemma_first_with_stays(requests, cancellation_id, n + 1);
    } else {
        assert(requests.take(n) =~= requests);
    }
}

proof fn lemma_filter_push(
    requests: Seq<PendingRequest>,
    request: PendingRequest,
    keep: spec_fn(PendingRequest) -> bool,
)
    ensures
        requests.push(request).filter(keep) == (if keep(request) {
            requests.filter(keep).push(request)
        } else {
            requests.filter(keep)
        }),
{
    reveal(Seq::filter);
    assert(requests.push(request).drop_last() =~= requests);
}

proof fn lemma_peers_push(
    requests: Seq<PendingRequest>,
    request: PendingRequest,
    test: spec_fn(PendingRequest) -> bool,
)
    ensures
        peers_where(requests.push(request), test) == (if test(request) {
            peers_where(requests, test).insert(request.peer)
        } else {
            peers_where(requests, test)
        }),
{
    let all = requests.push(request);
    let expected = if test(request) {
        peers_where(requests, test).insert(request.peer)
    } else {
        peers_where(requests, test)
    };
    assert forall|peer: PeerId| peers_where(all, test).contains(peer) == expected.contains(
        peer,
    ) by {
        if peers_where(requests, test).contains(peer) {
            let i = choose|i: int|
                0 <= i < requests.len() && test(#[trigger] requests[i]) && requests[i].peer == peer;
            assert(all[i] == requests[i]);
        }
        if test(request) && peer == request.peer {
            assert(all[requests.len() as int] == request);
        }
        if peers_where(all, test).contains(peer) {
            let i = choose|i: int|
                0 <= i < all.len() && test(#[trigger] all[i]) && all[i].peer == peer;
            if i < requests.len() {
                assert(requests[i] == all[i]);
            }
        }
    }
    assert(peers_where(all, test) =~= expected);
}

} // verus!
