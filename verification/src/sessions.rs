//! What becomes of the connections: how they are classified, promoted and
//! retired.

use crate::address::{peer_precedes, sorted_peers, PeerId};
use crate::links::{newest_of, RELAY_RETIREMENT_GRACE_MILLIS};
use crate::loop_state::{
    Action, ActionModel, LoopModel, P2pEventLoop, PolicyDial, PolicyDialKind, RequestOutcome,
    TransportPromotion,
};
use crate::metrics::{LogModel, P2pSessionDirection};
use crate::ordered::{sort_numbers, sort_ranked, sorted_numbers};
use crate::policy::{
    merge_established_path, merged_path, path_allowed, path_preference_rank, path_rank,
    transport_path_allowed, P2pPath,
};
use crate::links::{LinksModel, Retirement};
use crate::table::{EntryTest, Stored};
use vstd::prelude::*;

verus! {

/// The sessions over connections use another path than was thought.
pub open spec fn each_repathed(log: LogModel, connections: Seq<u64>, path: P2pPath) -> LogModel
    decreases connections.len(),
{
    if connections.len() == 0 {
        log
    } else {
        each_repathed(log, connections.drop_last(), path).repathed(connections.last(), path)
    }
}

impl LoopModel {
    /// Both ends keep the connections that this node dialled.
    pub open spec fn prefers_dialer(self, peer: PeerId) -> bool {
        peer_precedes(self.local_peer, peer)
    }

    pub open spec fn classified(self, connection: u64, peer: PeerId, path: P2pPath) -> LoopModel {
        LoopModel {
            links: self.links.with_path(connection, peer, path),
            log: self.log.repathed(connection, path),
            ..self
        }
    }

    /// A connection is known to be hole punched. A punch can establish one
    /// connection in each direction, and the one that both ends keep may be
    /// the other: then that one counts as hole punched too.
    #[verifier::opaque]
    pub open spec fn punched(self, peer: PeerId, connection: u64) -> LoopModel {
        let prefers = self.prefers_dialer(peer);
        let first = self.classified(connection, peer, P2pPath::HolePunched);
        if first.links.dialers.contains_key(connection) && first.links.dialers[connection]
            == prefers {
            first
        } else {
            match newest_of(
                first.links.counterparts(peer, connection, prefers),
                first.log.sessions,
            ) {
                Some(counterpart) => first.classified(counterpart, peer, P2pPath::HolePunched),
                None => first,
            }
        }
    }

    /// No hole could be punched: relayed connections stay what they are.
    pub open spec fn punch_failed(self, peer: PeerId) -> LoopModel {
        let relayed = self.links.relayed(peer);
        LoopModel {
            links: self.links.with_paths(relayed, peer, P2pPath::RelayFallback),
            log: each_repathed(self.log, sorted_numbers(relayed), P2pPath::RelayFallback),
            ..self
        }
    }

    /// Duplicates among the connections to the peer are retired, but not those
    /// to a relay on which the node has a reservation.
    pub open spec fn duplicates_scheduled(
        self,
        peer: PeerId,
        connection: u64,
        now: u64,
    ) -> LoopModel {
        if self.relay_reservation_peers.contains(peer) {
            self
        } else {
            LoopModel {
                links: self.links.scheduled(
                    self.links.duplicates(peer, connection, self.prefers_dialer(peer)),
                    peer,
                    now.saturating_add(RELAY_RETIREMENT_GRACE_MILLIS),
                ),
                ..self
            }
        }
    }

    /// A hole was punched: the connection is used, and relayed ones to the
    /// same peer are retired.
    pub open spec fn upgraded(self, peer: PeerId, connection: u64, now: u64) -> LoopModel {
        let after = self.punched(peer, connection).observed(
            peer,
            connection,
            now,
        ).duplicates_scheduled(peer, connection, now);
        LoopModel {
            links: after.links.relays_scheduled(
                after.links.any_relayed(peer),
                peer,
                now.saturating_add(RELAY_RETIREMENT_GRACE_MILLIS),
            ),
            ..after
        }
    }

    /// A connection is closed by this node, if the transport still holds it.
    pub open spec fn collapsed(self, connection: u64) -> LoopModel {
        if self.open.contains(connection) {
            LoopModel { links: self.links.collapsing_with(connection), ..self }.acting(
                ActionModel::Close { connection },
            )
        } else {
            LoopModel { links: self.links.collapsing_without(connection), ..self }
        }
    }

    /// A connection is noted, with its session.
    pub open spec fn noted(
        self,
        connection: u64,
        peer: PeerId,
        path: P2pPath,
        dialer: bool,
        now: u64,
        unix_now: u64,
    ) -> LoopModel {
        let recorded = if self.links.paths.contains_key(connection) {
            Some(self.links.paths[connection].path)
        } else {
            None
        };
        let established = merged_path(recorded, path);
        let linked = self.links.with_path(connection, peer, established);
        LoopModel {
            dials: self.dials.remove(connection),
            open: self.open.insert(connection),
            links: LinksModel { dialers: linked.dialers.insert(connection, dialer), ..linked },
            log: self.log.opened(
                connection,
                peer,
                established,
                if dialer {
                    P2pSessionDirection::Outbound
                } else {
                    P2pSessionDirection::Inbound
                },
                now,
                unix_now,
            ),
            ..self
        }
    }

    /// A direct connection may be the other half of a hole punch.
    #[verifier::opaque]
    pub open spec fn paired(self, connection: u64, peer: PeerId) -> LoopModel {
        let punches = self.links.paired_punches(peer, connection, self.prefers_dialer(peer));
        if self.links.paths[connection].path != P2pPath::Direct || punches.len() == 0 {
            self
        } else {
            self.punched(peer, sorted_numbers(punches)[0])
        }
    }

    /// A connection to a peer is established.
    pub open spec fn established(
        self,
        connection: u64,
        peer: PeerId,
        path: P2pPath,
        dialer: bool,
        now: u64,
        unix_now: u64,
    ) -> LoopModel {
        let known = self.noted(connection, peer, path, dialer, now, unix_now).paired(
            connection,
            peer,
        );
        if !path_allowed(self.mode(), known.links.paths[connection].path) {
            known.collapsed(connection)
        } else {
            let used = known.observed(peer, connection, now).duplicates_scheduled(
                peer,
                connection,
                now,
            ).drained(peer, now);
            if self.dials.contains_key(connection) && self.dials[connection].peer != peer {
                used.selection_forgotten(self.dials[connection].peer)
            } else {
                used
            }
        }
    }

    /// A connection is gone; its session ends.
    pub open spec fn unlinked(
        self,
        connection: u64,
        peer: PeerId,
        failed: bool,
        now: u64,
        unix_now: u64,
    ) -> LoopModel {
        let gone = self.links.without(connection);
        let links = if self.links.paths.contains_key(connection) {
            gone.remembered(connection, peer, self.links.paths[connection].path, now)
        } else {
            gone
        };
        LoopModel {
            open: self.open.remove(connection),
            dials: self.dials.remove(connection),
            links: if self.log.sessions.contains_key(connection) {
                links.collapsing_without(connection)
            } else {
                links
            },
            log: self.log.closed(
                connection,
                self.links.collapsing.contains(connection),
                failed || self.links.unhealthy.contains(connection),
                now,
                unix_now,
            ),
            ..self
        }
    }

    /// Without a hole punched connection to the peer no relayed one is
    /// retired.
    pub open spec fn relays_reconsidered(self, peer: PeerId) -> LoopModel {
        if self.links.connected_by(peer, P2pPath::HolePunched) {
            self
        } else {
            LoopModel { links: self.links.relays_kept(peer), ..self }
        }
    }

    /// A promotion is dropped where its connection is gone.
    pub open spec fn promotion_reconsidered(self, peer: PeerId) -> LoopModel {
        if self.promotions.contains_key(peer) && !self.links.healthy_at(
            peer,
            self.promotions[peer].tier,
            None,
        ) {
            LoopModel { promotions: self.promotions.remove(peer), ..self }
        } else {
            self
        }
    }

    /// A connection to a peer is closed. `last` says that it was the last one.
    pub open spec fn closed(
        self,
        connection: u64,
        peer: PeerId,
        last: bool,
        failed: bool,
        now: u64,
        unix_now: u64,
    ) -> LoopModel {
        let path = if self.links.paths.contains_key(connection) {
            Some(self.links.paths[connection].path)
        } else {
            None
        };
        let gone = self.unlinked(connection, peer, failed, now, unix_now).relays_reconsidered(peer);
        let left = if last {
            LoopModel { last_paths: gone.last_paths.remove(peer), ..gone }
        } else {
            gone
        };
        left.promotion_reconsidered(peer).transport_restored(peer, path, now).drained(
            peer,
            now,
        ).selection_forgotten(peer)
    }

    /// A dial that this node asked for failed.
    pub open spec fn dial_failed(self, dial: PolicyDial, now: u64) -> LoopModel {
        let peer = dial.peer;
        let counted = LoopModel { log: self.log.dial_failed(dial.path), ..self };
        let lost = dial.kind == PolicyDialKind::Selected && counted.tier(peer) == dial.tier
            && !counted.links.healthy_at(peer, dial.tier, None);
        let decided = if !lost {
            counted
        } else if counted.next_tier(peer) is Some {
            counted.fallen_back(peer, now)
        } else if counted.outstanding(peer) {
            counted.queue_failed(peer, RequestOutcome::TiersExhausted)
        } else {
            counted
        };
        decided.drained(peer, now).selection_forgotten(peer)
    }

    /// An outgoing connection could not be established.
    pub open spec fn unreachable(
        self,
        connection: u64,
        peer: Option<PeerId>,
        now: u64,
    ) -> LoopModel {
        if self.dials.contains_key(connection) {
            LoopModel { dials: self.dials.remove(connection), ..self }.dial_failed(
                self.dials[connection],
                now,
            )
        } else {
            match peer {
                None => self,
                Some(peer) => {
                    let counted = match self.path_hint(peer) {
                        Some(path) => LoopModel { log: self.log.dial_failed(path), ..self },
                        None => self,
                    };
                    counted.selection_forgotten(peer)
                },
            }
        }
    }

    /// The peers whose promotion is due.
    pub open spec fn due_promotions(self, now: u64) -> Set<PeerId> {
        self.promotions.dom().filter(|peer: PeerId| self.promotions[peer].deadline <= now)
    }

    /// A promotion is due: its tier is selected if its connection has lasted.
    #[verifier::opaque]
    pub open spec fn promotion_processed(self, peer: PeerId, tier: u8, now: u64) -> LoopModel {
        let done = LoopModel { promotions: self.promotions.remove(peer), ..self };
        (if done.links.healthy_at(peer, tier, None) {
            done.reselected(peer, tier).non_policy_retired(peer, now)
        } else {
            done
        }).drained(peer, now).selection_forgotten(peer)
    }

    pub open spec fn each_promotion_processed(
        self,
        promotions: Map<PeerId, TransportPromotion>,
        peers: Seq<PeerId>,
        now: u64,
    ) -> LoopModel
        decreases peers.len(),
    {
        if peers.len() == 0 {
            self
        } else {
            self.each_promotion_processed(promotions, peers.drop_last(), now).promotion_processed(
                peers.last(),
                promotions[peers.last()].tier,
                now,
            )
        }
    }

    /// A retirement ends: the connection is closed, or it is kept. Where no
    /// closing is awaited, the waiting requests are looked at again.
    #[verifier::opaque]
    pub open spec fn retired(
        self,
        connection: u64,
        peer: PeerId,
        close: bool,
        now: u64,
    ) -> LoopModel {
        if close && self.open.contains(connection) {
            self.collapsed(connection)
        } else if close {
            self.collapsed(connection).drained(peer, now)
        } else {
            self.drained(peer, now)
        }
    }

    /// The relayed connections whose retirement ends: there is no hole punched
    /// connection any more, or the time is over and the peer is idle.
    pub open spec fn finished_relays(self, now: u64) -> Set<u64> {
        self.links.relay_retirement.dom().filter(
            |c: u64|
                {
                    let entry = self.links.relay_retirement[c];
                    !self.links.healthy_path(entry.peer, P2pPath::HolePunched) || (entry.deadline
                        <= now && !self.busy(entry.peer))
                },
        )
    }

    pub open spec fn each_relay_retired(
        self,
        before: LoopModel,
        connections: Seq<u64>,
        now: u64,
    ) -> LoopModel
        decreases connections.len(),
    {
        if connections.len() == 0 {
            self
        } else {
            let state = self.each_relay_retired(before, connections.drop_last(), now);
            let connection = connections.last();
            let peer = before.links.relay_retirement[connection].peer;
            LoopModel {
                links: LinksModel {
                    relay_retirement: state.links.relay_retirement.remove(connection),
                    ..state.links
                },
                ..state
            }.retired(
                connection,
                peer,
                before.links.healthy_path(peer, P2pPath::HolePunched),
                now,
            )
        }
    }

    /// The duplicate connections whose retirement ends: the time is over and
    /// the peer is idle.
    pub open spec fn finished_duplicates(self, now: u64) -> Set<u64> {
        self.links.duplicate_retirement.dom().filter(
            |c: u64|
                {
                    let entry = self.links.duplicate_retirement[c];
                    entry.deadline <= now && !self.busy(entry.peer)
                },
        )
    }

    /// A duplicate connection is closed only where another one that is as good
    /// remains.
    pub open spec fn duplicate_replaced(self, connection: u64) -> bool {
        self.links.paths.contains_key(connection) && self.links.replaceable(
            self.links.duplicate_retirement[connection].peer,
            connection,
            path_rank(self.mode(), self.links.paths[connection].path),
        )
    }

    pub open spec fn each_duplicate_retired(
        self,
        before: LoopModel,
        connections: Seq<u64>,
        now: u64,
    ) -> LoopModel
        decreases connections.len(),
    {
        if connections.len() == 0 {
            self
        } else {
            let state = self.each_duplicate_retired(before, connections.drop_last(), now);
            let connection = connections.last();
            LoopModel {
                links: LinksModel {
                    duplicate_retirement: state.links.duplicate_retirement.remove(connection),
                    ..state.links
                },
                ..state
            }.retired(
                connection,
                before.links.duplicate_retirement[connection].peer,
                before.duplicate_replaced(connection),
                now,
            )
        }
    }
}

struct DuePromotionTest {
    now: u64,
}

impl EntryTest<PeerId, TransportPromotion> for DuePromotionTest {
    closed spec fn ready(&self) -> bool {
        true
    }

    closed spec fn passes(&self, key: PeerId, value: TransportPromotion) -> bool {
        value.deadline <= self.now
    }

    fn test(&self, key: PeerId, value: &TransportPromotion) -> (result: bool) {
        value.deadline <= self.now
    }
}

struct FinishedRelayTest<'a> {
    state: &'a P2pEventLoop,
    now: u64,
}

impl<'a> EntryTest<u64, Retirement> for FinishedRelayTest<'a> {
    closed spec fn ready(&self) -> bool {
        self.state.wf()
    }

    closed spec fn passes(&self, key: u64, value: Retirement) -> bool {
        !self.state@.links.healthy_path(value.peer, P2pPath::HolePunched) || (value.deadline
            <= self.now && !self.state@.busy(value.peer))
    }

    fn test(&self, key: u64, value: &Retirement) -> (result: bool) {
        !self.state.links.healthy_path_exists(value.peer, P2pPath::HolePunched) || (value.deadline
            <= self.now && !self.state.is_busy(value.peer))
    }
}

struct FinishedDuplicateTest<'a> {
    state: &'a P2pEventLoop,
    now: u64,
}

impl<'a> EntryTest<u64, Retirement> for FinishedDuplicateTest<'a> {
    closed spec fn ready(&self) -> bool {
        self.state.wf()
    }

    closed spec fn passes(&self, key: u64, value: Retirement) -> bool {
        value.deadline <= self.now && !self.state@.busy(value.peer)
    }

    fn test(&self, key: u64, value: &Retirement) -> (result: bool) {
        value.deadline <= self.now && !self.state.is_busy(value.peer)
    }
}

impl P2pEventLoop {
    pub fn prefers_dialer(&self, peer: PeerId) -> (result: bool)
        ensures
            result == self@.prefers_dialer(peer),
    {
        self.local_peer.precedes(&peer)
    }

    fn classify(&mut self, connection: u64, peer: PeerId, path: P2pPath)
        requires
            old(self).wf(),
        ensures
            final(self).wf(),
            final(self)@ == old(self)@.classified(connection, peer, path),
    {
        self.links.set_path(connection, peer, path);
        self.log.update_session_path(connection, path);
    }

    /// Notes that a connection is hole punched.
    pub fn classify_dcutr_connection(&mut self, peer: PeerId, connection: u64)
        requires
            old(self).wf(),
        ensures
            final(self).wf(),
            final(self)@ == old(self)@.punched(peer, connection),
    {
        proof {
            reveal(LoopModel::punched);
        }
        self.classify(connection, peer, P2pPath::HolePunched);
        let prefers = self.prefers_dialer(peer);
        if let Some(dialer) = self.links.dialers.get(connection) {
            if *dialer == prefers {
                return ;
            }
        }
        let counterpart = self.links.punch_counterpart(
            peer,
            connection,
            prefers,
            &self.log.sessions,
        );
        if let Some(counterpart) = counterpart {
            self.classify(counterpart, peer, P2pPath::HolePunched);
        }
    }

    /// Notes that no hole could be punched to a peer.
    pub fn classify_failed_dcutr(&mut self, peer: PeerId)
        requires
            old(self).wf(),
        ensures
            final(self).wf(),
            final(self)@ == old(self)@.punch_failed(peer),
    {
        let ghost start = self@;
        let relayed = self.links.relayed_connections(peer);
        let mut i: usize = 0;
        proof {
            assert(relayed@.take(0) =~= Seq::empty());
            assert(self@.links =~= start.links.with_paths(
                relayed@.take(0).to_set(),
                peer,
                P2pPath::RelayFallback,
            ));
        }
        while i < relayed.len()
            invariant
                i <= relayed@.len(),
                self.wf(),
                self@.links == start.links.with_paths(
                    relayed@.take(i as int).to_set(),
                    peer,
                    P2pPath::RelayFallback,
                ),
                self@.log == each_repathed(
                    start.log,
                    relayed@.take(i as int),
                    P2pPath::RelayFallback,
                ),
                ({
                    let changed = self@;
                    LoopModel { links: start.links, log: start.log, ..changed } == start
                }),
            decreases relayed@.len() - i,
        {
            let connection: u64 = relayed[i];
            proof {
                let taken = relayed@.take(i as int);
                let next = relayed@.take(i + 1);
                assert(next.drop_last() =~= taken);
                assert(next =~= taken.push(connection));
                crate::ordered::lemma_push_set(taken, connection);
            }
            self.classify(connection, peer, P2pPath::RelayFallback);
            assert(self@.links.paths =~= start.links.with_paths(
                relayed@.take(i + 1).to_set(),
                peer,
                P2pPath::RelayFallback,
            ).paths);
            i += 1;
        }
        assert(relayed@.take(i as int) =~= relayed@);
    }

    fn schedule_duplicates(&mut self, peer: PeerId, connection: u64, now: u64)
        requires
            old(self).wf(),
        ensures
            final(self).wf(),
            final(self)@ == old(self)@.duplicates_scheduled(peer, connection, now),
    {
        let is_relay = self.relay_reservation_peers.contains(peer);
        let prefers = self.prefers_dialer(peer);
        self.links.schedule_duplicate_session_collapse(peer, connection, is_relay, prefers, now);
    }

    /// Notes how an attempt to punch a hole to a peer ended: with a
    /// connection, or without.
    pub fn hole_punch_ended(&mut self, peer: PeerId, connection: Option<u64>, now: u64)
        requires
            old(self).wf(),
        ensures
            final(self).wf(),
            final(self)@ == (match connection {
                Some(connection) => old(self)@.upgraded(peer, connection, now),
                None => old(self)@.punch_failed(peer),
            }),
    {
        match connection {
            Some(connection) => {
                self.classify_dcutr_connection(peer, connection);
                self.observe_established_transport(peer, connection, now);
                self.schedule_duplicates(peer, connection, now);
                self.links.schedule_relay_retirement(peer, now);
            },
            None => {
                self.classify_failed_dcutr(peer);
            },
        }
    }

    /// Closes a connection, if the transport still holds it.
    fn collapse(&mut self, connection: u64) -> (awaited: bool)
        requires
            old(self).wf(),
        ensures
            final(self).wf(),
            final(self)@ == old(self)@.collapsed(connection),
            awaited == old(self)@.open.contains(connection),
    {
        if self.open.contains(connection) {
            self.links.collapsing.insert(connection);
            self.act(Action::Close { connection });
            true
        } else {
            let _ = self.links.collapsing.remove(connection);
            false
        }
    }

    fn note_connection(
        &mut self,
        connection: u64,
        peer: PeerId,
        path: P2pPath,
        dialer: bool,
        now: u64,
        unix_now: u64,
    )
        requires
            old(self).wf(),
        ensures
            final(self).wf(),
            final(self)@ == old(self)@.noted(connection, peer, path, dialer, now, unix_now),
    {
        let _ = self.dials.remove(connection);
        self.open.insert(connection);
        let recorded: Option<P2pPath> = match self.links.paths.get(connection) {
            Some(link) => Some(link.path),
            None => None,
        };
        let established = merge_established_path(recorded, path);
        self.links.set_path(connection, peer, established);
        self.links.dialers.insert(connection, dialer);
        let direction = if dialer {
            P2pSessionDirection::Outbound
        } else {
            P2pSessionDirection::Inbound
        };
        self.log.record_session_open(connection, peer, established, direction, now, unix_now);
    }

    fn pair_punch(&mut self, connection: u64, peer: PeerId, path: P2pPath)
        requires
            old(self).wf(),
            path == old(self)@.links.paths[connection].path,
        ensures
            final(self).wf(),
            final(self)@ == old(self)@.paired(connection, peer),
    {
        proof {
            reveal(LoopModel::paired);
        }
        if path == P2pPath::Direct {
            let prefers = self.prefers_dialer(peer);
            if let Some(punch) = self.links.paired_punch(peer, connection, prefers) {
                self.classify_dcutr_connection(peer, punch);
            }
        }
    }

    /// Notes that a connection to a peer is established.
    pub fn connection_established(
        &mut self,
        connection: u64,
        peer: PeerId,
        path: P2pPath,
        dialer: bool,
        now: u64,
        unix_now: u64,
    )
        requires
            old(self).wf(),
        ensures
            final(self).wf(),
            final(self)@ == old(self)@.established(
                connection,
                peer,
                path,
                dialer,
                now,
                unix_now,
            ),
    {
        let dialled: Option<PeerId> = match self.dials.get(connection) {
            Some(dial) => Some(dial.peer),
            None => None,
        };
        self.note_connection(connection, peer, path, dialer, now, unix_now);
        let ghost noted = self@;
        let established: P2pPath = match self.links.paths.get(connection) {
            Some(link) => link.path,
            None => path,
        };
        self.pair_punch(connection, peer, established);
        proof {
            lemma_paired_keeps(noted, connection, peer);
        }
        let used: P2pPath = match self.links.paths.get(connection) {
            Some(link) => link.path,
            None => established,
        };
        if !transport_path_allowed(self.book.mode, used) {
            let _ = self.collapse(connection);
            return ;
        }
        self.observe_established_transport(peer, connection, now);
        self.schedule_duplicates(peer, connection, now);
        self.drain_queued_requests(peer, now);
        if let Some(other) = dialled {
            if !other.equals(&peer) {
                self.forget_transport_selection_if_unretained(other);
            }
        }
    }

    fn unlink(&mut self, connection: u64, peer: PeerId, failed: bool, now: u64, unix_now: u64) -> (
    path: Option<P2pPath>)
        requires
            old(self).wf(),
        ensures
            final(self).wf(),
            final(self)@ == old(self)@.unlinked(connection, peer, failed, now, unix_now),
            path == (if old(self)@.links.paths.contains_key(connection) {
                Some(old(self)@.links.paths[connection].path)
            } else {
                None
            }),
    {
        let _ = self.open.remove(connection);
        let _ = self.dials.remove(connection);
        let (path, unhealthy) = self.links.close(connection);
        if let Some(path) = path {
            self.links.remember_closed_connection_path(connection, peer, path, now);
        }
        let collapsed = self.links.collapsing.contains(connection);
        if self.log.sessions.has(connection) {
            let _ = self.links.collapsing.remove(connection);
        }
        self.log.record_session_close(connection, collapsed, failed || unhealthy, now, unix_now);
        path
    }

    /// Notes that a connection to a peer is closed. `last` says that it was
    /// the last one.
    pub fn connection_closed(
        &mut self,
        connection: u64,
        peer: PeerId,
        last: bool,
        failed: bool,
        now: u64,
        unix_now: u64,
    )
        requires
            old(self).wf(),
        ensures
            final(self).wf(),
            final(self)@ == old(self)@.closed(connection, peer, last, failed, now, unix_now),
    {
        let path = self.unlink(connection, peer, failed, now, unix_now);
        if !self.links.is_connected_by(peer, P2pPath::HolePunched) {
            self.links.keep_relays(peer);
        }
        if last {
            let _ = self.last_paths.remove(peer);
        }
        let lost = match self.promotions.get(peer) {
            Some(promotion) => !self.links.healthy_connection_at_tier(peer, promotion.tier, None),
            None => false,
        };
        if lost {
            let _ = self.promotions.remove(peer);
        }
        self.restore_selected_transport_after_close(peer, path, now);
        self.drain_queued_requests(peer, now);
        self.forget_transport_selection_if_unretained(peer);
    }

    fn fail_dial(&mut self, dial: PolicyDial, now: u64)
        requires
            old(self).wf(),
        ensures
            final(self).wf(),
            final(self)@ == old(self)@.dial_failed(dial, now),
    {
        self.log.record_dial_failure_path(dial.path);
        if dial.kind == PolicyDialKind::Selected && self.selected_transport_tier(dial.peer)
            == dial.tier && !self.links.healthy_connection_at_tier(dial.peer, dial.tier, None) {
            if !self.activate_fallback(dial.peer, now) {
                if self.has_outstanding_request(dial.peer) {
                    self.fail_queued_requests(dial.peer, RequestOutcome::TiersExhausted);
                }
            }
        }
        self.drain_queued_requests(dial.peer, now);
        self.forget_transport_selection_if_unretained(dial.peer);
    }

    /// Notes that an outgoing connection could not be established.
    pub fn outgoing_connection_failed(
        &mut self,
        connection: u64,
        peer: Option<PeerId>,
        now: u64,
    )
        requires
            old(self).wf(),
        ensures
            final(self).wf(),
            final(self)@ == old(self)@.unreachable(connection, peer, now),
    {
        match self.dials.remove(connection) {
            Some(dial) => {
                self.fail_dial(dial, now);
            },
            None => {
                if let Some(peer) = peer {
                    if let Some(path) = self.selected_path_hint(peer) {
                        self.log.record_dial_failure_path(path);
                    }
                    self.forget_transport_selection_if_unretained(peer);
                }
            },
        }
    }

    fn process_promotion(&mut self, peer: PeerId, tier: u8, now: u64)
        requires
            old(self).wf(),
        ensures
            final(self).wf(),
            final(self)@ == old(self)@.promotion_processed(peer, tier, now),
    {
        proof {
            reveal(LoopModel::promotion_processed);
        }
        let _ = self.promotions.remove(peer);
        if self.links.healthy_connection_at_tier(peer, tier, None) {
            self.set_transport_tier(peer, tier);
            self.retire_non_policy_connections(peer, now);
        }
        self.drain_queued_requests(peer, now);
        self.forget_transport_selection_if_unretained(peer);
    }

    /// Selects the tiers whose connections have lasted.
    pub fn process_transport_promotions(&mut self, now: u64)
        requires
            old(self).wf(),
        ensures
            final(self).wf(),
            final(self)@ == old(self)@.each_promotion_processed(
                old(self)@.promotions,
                sorted_peers(old(self)@.due_promotions(now)),
                now,
            ),
    {
        let ghost promotions = self@.promotions;
        let test = DuePromotionTest { now };
        let found = self.promotions.select(&test);
        proof {
            crate::address::lemma_peer_rank_tells_apart();
            assert(found@.to_set() =~= self@.due_promotions(now));
        }
        let peers = sort_ranked(&found);
        proof {
            assert(crate::ordered::models(found@) =~= found@);
            assert(crate::ordered::models(peers@) =~= peers@);
            assert forall|k: int| 0 <= k < peers@.len() implies promotions.contains_key(
                #[trigger] peers@[k],
            ) by {
                assert(peers@.to_set().contains(peers@[k]));
            }
        }
        let mut tiers: Vec<u8> = Vec::new();
        let mut k: usize = 0;
        while k < peers.len()
            invariant
                k <= peers@.len(),
                k == tiers@.len(),
                self.wf(),
                *self == *old(self),
                promotions == self@.promotions,
                forall|j: int|
                    0 <= j < peers@.len() ==> promotions.contains_key(#[trigger] peers@[j]),
                forall|j: int| 0 <= j < k ==> tiers@[j] == promotions[#[trigger] peers@[j]].tier,
            decreases peers@.len() - k,
        {
            let peer = peers[k];
            assert(promotions.contains_key(peer));
            let tier: u8 = match self.promotions.get(peer) {
                Some(promotion) => promotion.tier,
                None => 0,
            };
            tiers.push(tier);
            k += 1;
        }
        let mut i: usize = 0;
        assert(peers@.take(0) =~= Seq::empty());
        while i < peers.len()
            invariant
                i <= peers@.len() == tiers@.len(),
                self.wf(),
                forall|j: int|
                    0 <= j < peers@.len() ==> tiers@[j] == promotions[#[trigger] peers@[j]].tier,
                self@ == old(self)@.each_promotion_processed(
                    promotions,
                    peers@.take(i as int),
                    now,
                ),
            decreases peers@.len() - i,
        {
            assert(peers@.take(i + 1).drop_last() =~= peers@.take(i as int));
            self.process_promotion(peers[i], tiers[i], now);
            i += 1;
        }
        assert(peers@.take(i as int) =~= peers@);
    }

    fn retire(&mut self, connection: u64, peer: PeerId, close: bool, now: u64)
        requires
            old(self).wf(),
        ensures
            final(self).wf(),
            final(self)@ == old(self)@.retired(connection, peer, close, now),
    {
        proof {
            reveal(LoopModel::retired);
        }
        let mut awaited = false;
        if close {
            awaited = self.collapse(connection);
        }
        if !awaited {
            self.drain_queued_requests(peer, now);
        }
    }

    fn end_relay_retirement(&mut self, connection: u64)
        requires
            old(self).wf(),
        ensures
            final(self).wf(),
            final(self)@ == ({
                let state = old(self)@;
                LoopModel {
                    links: LinksModel {
                        relay_retirement: state.links.relay_retirement.remove(connection),
                        ..state.links
                    },
                    ..state
                }
            }),
    {
        let _ = self.links.relay_retirement.remove(connection);
    }

    fn end_duplicate_retirement(&mut self, connection: u64)
        requires
            old(self).wf(),
        ensures
            final(self).wf(),
            final(self)@ == ({
                let state = old(self)@;
                LoopModel {
                    links: LinksModel {
                        duplicate_retirement: state.links.duplicate_retirement.remove(connection),
                        ..state.links
                    },
                    ..state
                }
            }),
    {
        let _ = self.links.duplicate_retirement.remove(connection);
    }

    /// Closes relayed connections that a hole punch has made idle.
    pub fn retire_idle_relay_connections(&mut self, now: u64)
        requires
            old(self).wf(),
        ensures
            final(self).wf(),
            final(self)@ == old(self)@.each_relay_retired(
                old(self)@,
                sorted_numbers(old(self)@.finished_relays(now)),
                now,
            ),
    {
        let ghost start = self@;
        let found = {
            let test = FinishedRelayTest { state: &*self, now };
            let found = self.links.relay_retirement.select(&test);
            assert(found@.to_set() =~= start.finished_relays(now));
            found
        };
        let sorted = sort_numbers(&found);
        proof {
            assert forall|k: int| 0 <= k < sorted@.len() implies start.links.relay_retirement.contains_key(
                #[trigger] sorted@[k],
            ) by {
                assert(sorted@.to_set().contains(sorted@[k]));
            }
        }
        let mut plan: Vec<(PeerId, bool)> = Vec::new();
        let mut k: usize = 0;
        while k < sorted.len()
            invariant
                k <= sorted@.len(),
                k == plan@.len(),
                self.wf(),
                *self == *old(self),
                start == self@,
                forall|j: int|
                    0 <= j < sorted@.len() ==> start.links.relay_retirement.contains_key(
                        #[trigger] sorted@[j],
                    ),
                forall|j: int|
                    0 <= j < k ==> plan@[j].0 == start.links.relay_retirement[#[trigger] sorted@[j]].peer
                        && plan@[j].1 == start.links.healthy_path(
                        start.links.relay_retirement[sorted@[j]].peer,
                        P2pPath::HolePunched,
                    ),
            decreases sorted@.len() - k,
        {
            let connection: u64 = sorted[k];
            assert(start.links.relay_retirement.contains_key(connection));
            match self.links.relay_retirement.get(connection) {
                Some(entry) => {
                    let close = self.links.healthy_path_exists(entry.peer, P2pPath::HolePunched);
                    plan.push((entry.peer, close));
                },
                None => {
                    plan.push((self.local_peer, false));
                },
            }
            k += 1;
        }
        let mut i: usize = 0;
        assert(sorted@.take(0) =~= Seq::empty());
        while i < sorted.len()
            invariant
                i <= sorted@.len() == plan@.len(),
                self.wf(),
                start == old(self)@,
                forall|j: int|
                    0 <= j < sorted@.len() ==> plan@[j].0
                        == start.links.relay_retirement[#[trigger] sorted@[j]].peer && plan@[j].1
                        == start.links.healthy_path(
                        start.links.relay_retirement[sorted@[j]].peer,
                        P2pPath::HolePunched,
                    ),
                self@ == start.each_relay_retired(start, sorted@.take(i as int), now),
            decreases sorted@.len() - i,
        {
            assert(sorted@.take(i + 1).drop_last() =~= sorted@.take(i as int));
            let connection: u64 = sorted[i];
            let (peer, close) = plan[i];
            self.end_relay_retirement(connection);
            self.retire(connection, peer, close, now);
            i += 1;
        }
        assert(sorted@.take(i as int) =~= sorted@);
    }

    /// Closes duplicate connections that are idle and past their time.
    pub fn retire_duplicate_sessions(&mut self, now: u64)
        requires
            old(self).wf(),
        ensures
            final(self).wf(),
            final(self)@ == old(self)@.each_duplicate_retired(
                old(self)@,
                sorted_numbers(old(self)@.finished_duplicates(now)),
                now,
            ),
    {
        let ghost start = self@;
        let found = {
            let test = FinishedDuplicateTest { state: &*self, now };
            let found = self.links.duplicate_retirement.select(&test);
            assert(found@.to_set() =~= start.finished_duplicates(now));
            found
        };
        let sorted = sort_numbers(&found);
        proof {
            assert forall|k: int| 0 <= k < sorted@.len() implies start.links.duplicate_retirement.contains_key(
                #[trigger] sorted@[k],
            ) by {
                assert(sorted@.to_set().contains(sorted@[k]));
            }
        }
        let mut plan: Vec<(PeerId, bool)> = Vec::new();
        let mut k: usize = 0;
        while k < sorted.len()
            invariant
                k <= sorted@.len(),
                k == plan@.len(),
                self.wf(),
                *self == *old(self),
                start == self@,
                forall|j: int|
                    0 <= j < sorted@.len() ==> start.links.duplicate_retirement.contains_key(
                        #[trigger] sorted@[j],
                    ),
                forall|j: int|
                    0 <= j < k ==> plan@[j].0
                        == start.links.duplicate_retirement[#[trigger] sorted@[j]].peer
                        && plan@[j].1 == start.duplicate_replaced(sorted@[j]),
            decreases sorted@.len() - k,
        {
            let connection: u64 = sorted[k];
            assert(start.links.duplicate_retirement.contains_key(connection));
            let peer: PeerId = match self.links.duplicate_retirement.get(connection) {
                Some(entry) => entry.peer,
                None => self.local_peer,
            };
            let close = match self.links.paths.get(connection) {
                Some(link) => self.links.healthy_replacement_exists(
                    peer,
                    connection,
                    path_preference_rank(self.book.mode, link.path),
                ),
                None => false,
            };
            plan.push((peer, close));
            k += 1;
        }
        let mut i: usize = 0;
        assert(sorted@.take(0) =~= Seq::empty());
        while i < sorted.len()
            invariant
                i <= sorted@.len() == plan@.len(),
                self.wf(),
                start == old(self)@,
                forall|j: int|
                    0 <= j < sorted@.len() ==> plan@[j].0
                        == start.links.duplicate_retirement[#[trigger] sorted@[j]].peer
                        && plan@[j].1 == start.duplicate_replaced(sorted@[j]),
                self@ == start.each_duplicate_retired(start, sorted@.take(i as int), now),
            decreases sorted@.len() - i,
        {
            assert(sorted@.take(i + 1).drop_last() =~= sorted@.take(i as int));
            let connection: u64 = sorted[i];
            let (peer, close) = plan[i];
            self.end_duplicate_retirement(connection);
            self.retire(connection, peer, close, now);
            i += 1;
        }
        assert(sorted@.take(i as int) =~= sorted@);
    }
}

/// Pairing a connection with a hole punch forgets no connection.
proof fn lemma_paired_keeps(state: LoopModel, connection: u64, peer: PeerId)
    requires
        state.links.paths.contains_key(connection),
    ensures
        state.paired(connection, peer).links.paths.contains_key(connection),
        state.paired(connection, peer).book == state.book,
        state.paired(connection, peer).dials == state.dials,
{
    reveal(LoopModel::paired);
    reveal(LoopModel::punched);
}

} // verus!
