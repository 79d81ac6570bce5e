//! The established connections: their paths, their health, and which of them
//! are on their way out.

use crate::address::PeerId;
use crate::metrics::{SessionRuntime, MAX_SESSION_HISTORY};
use crate::policy::{
    path_preference_rank, path_rank, retires, should_retire_non_policy_connection, P2pPath,
};
use crate::table::{EntryTest, KeySet, Stored, Table};
use crate::tor::TorMode;
use vstd::prelude::*;

verus! {

/// How long the path of a closed connection is remembered.
pub const CLOSED_CONNECTION_PATH_RETENTION_MILLIS: u64 = 40_000;

/// How long a duplicate or relayed connection lives on after its replacement.
pub const RELAY_RETIREMENT_GRACE_MILLIS: u64 = 500;

/// How long a connection at a better tier must last before it is selected, and
/// how long the others live on after that.
pub const TRANSPORT_PROMOTION_GRACE_MILLIS: u64 = 500;

/// The peer of a connection and the path to it.
#[derive(Clone, Copy, Debug)]
pub struct LinkPath {
    pub peer: PeerId,
    pub path: P2pPath,
}

/// The path that a closed connection had.
#[derive(Clone, Copy, Debug)]
pub struct ClosedConnectionPath {
    pub peer: PeerId,
    pub path: P2pPath,
    pub expires_at: u64,
}

/// A connection that is to be closed once it is idle and past its deadline.
#[derive(Clone, Copy, Debug)]
pub struct Retirement {
    pub peer: PeerId,
    pub deadline: u64,
}

impl Stored for LinkPath {
    type Model = LinkPath;

    open spec fn stored(&self) -> LinkPath {
        *self
    }

    open spec fn sound(&self) -> bool {
        true
    }
}

impl Stored for ClosedConnectionPath {
    type Model = ClosedConnectionPath;

    open spec fn stored(&self) -> ClosedConnectionPath {
        *self
    }

    open spec fn sound(&self) -> bool {
        true
    }
}

impl Stored for Retirement {
    type Model = Retirement;

    open spec fn stored(&self) -> Retirement {
        *self
    }

    open spec fn sound(&self) -> bool {
        true
    }
}

/// The connections of a node.
pub struct Links {
    pub mode: TorMode,
    pub paths: Table<u64, LinkPath>,
    pub closed: Table<u64, ClosedConnectionPath>,
    pub dialers: Table<u64, bool>,
    pub relay_retirement: Table<u64, Retirement>,
    pub duplicate_retirement: Table<u64, Retirement>,
    pub collapsing: KeySet<u64>,
    pub unhealthy: KeySet<u64>,
}

/// What the connections are, for contracts.
#[verifier::ext_equal]
pub struct LinksModel {
    pub mode: TorMode,
    pub paths: Map<u64, LinkPath>,
    pub closed: Map<u64, ClosedConnectionPath>,
    pub dialers: Map<u64, bool>,
    pub relay_retirement: Map<u64, Retirement>,
    pub duplicate_retirement: Map<u64, Retirement>,
    pub collapsing: Set<u64>,
    pub unhealthy: Set<u64>,
}

/// The path by which traffic over a connection is counted: what was not
/// upgraded from a relay is a fallback.
pub open spec fn counted_path(path: P2pPath) -> P2pPath {
    if path == P2pPath::Relayed {
        P2pPath::RelayFallback
    } else {
        path
    }
}

fn count_as(path: P2pPath) -> (counted: P2pPath)
    ensures
        counted == counted_path(path),
{
    match path {
        P2pPath::Relayed => P2pPath::RelayFallback,
        other => other,
    }
}

impl LinksModel {
    /// A connection is unhealthy or on its way out.
    pub open spec fn retiring(self, connection: u64) -> bool {
        ||| self.unhealthy.contains(connection)
        ||| self.collapsing.contains(connection)
        ||| self.relay_retirement.contains_key(connection)
        ||| self.duplicate_retirement.contains_key(connection)
    }

    /// A healthy connection to the peer.
    pub open spec fn healthy(self, connection: u64, peer: PeerId) -> bool {
        &&& self.paths.contains_key(connection)
        &&& self.paths[connection].peer == peer
        &&& !self.retiring(connection)
    }

    /// There is a healthy connection to the peer at a tier.
    pub open spec fn healthy_at(self, peer: PeerId, tier: u8, excluded: Option<u64>) -> bool {
        exists|connection: u64| #[trigger]
            self.paths.contains_key(connection) && self.healthy(connection, peer) && excluded
                != Some(connection) && path_rank(self.mode, self.paths[connection].path) == tier
    }

    /// The best tier at which there is a healthy connection to the peer.
    pub open spec fn best_tier(self, peer: PeerId) -> Option<u8> {
        if self.healthy_at(peer, 0, None) {
            Some(0)
        } else if self.healthy_at(peer, 1, None) {
            Some(1)
        } else if self.healthy_at(peer, 2, None) {
            Some(2)
        } else {
            None
        }
    }

    /// There is a healthy connection to the peer over a path.
    pub open spec fn healthy_path(self, peer: PeerId, path: P2pPath) -> bool {
        exists|connection: u64| #[trigger]
            self.paths.contains_key(connection) && self.healthy(connection, peer)
                && self.paths[connection].path == path
    }

    /// There is another healthy connection to the peer, of a rank not behind.
    pub open spec fn replaceable(self, peer: PeerId, connection: u64, maximum_rank: u8) -> bool {
        exists|other: u64| #[trigger]
            self.paths.contains_key(other) && other != connection && self.healthy(other, peer)
                && path_rank(self.mode, self.paths[other].path) <= maximum_rank
    }

    /// Some connection to the peer is unhealthy or on its way out.
    pub open spec fn unsettled(self, peer: PeerId) -> bool {
        exists|connection: u64| #[trigger]
            self.paths.contains_key(connection) && self.paths[connection].peer == peer
                && self.retiring(connection)
    }

    /// There is a connection to the peer.
    pub open spec fn connected(self, peer: PeerId) -> bool {
        exists|connection: u64| #[trigger]
            self.paths.contains_key(connection) && self.paths[connection].peer == peer
    }

    /// There is a connection to the peer over a path, healthy or not.
    pub open spec fn connected_by(self, peer: PeerId, path: P2pPath) -> bool {
        exists|connection: u64| #[trigger]
            self.paths.contains_key(connection) && self.paths[connection].peer == peer
                && self.paths[connection].path == path
    }

    /// The path of a connection, open or lately closed.
    pub open spec fn application_path(self, connection: u64) -> Option<P2pPath> {
        if self.paths.contains_key(connection) {
            Some(counted_path(self.paths[connection].path))
        } else if self.closed.contains_key(connection) {
            Some(counted_path(self.closed[connection].path))
        } else {
            None
        }
    }

    /// The path of a connection to the peer, open or lately closed.
    pub open spec fn failure_path(self, peer: PeerId, connection: u64) -> Option<P2pPath> {
        if self.paths.contains_key(connection) && self.paths[connection].peer == peer {
            Some(counted_path(self.paths[connection].path))
        } else if self.closed.contains_key(connection) && self.closed[connection].peer == peer {
            Some(counted_path(self.closed[connection].path))
        } else {
            None
        }
    }

    /// The closed connection that is forgotten first: the one that expires
    /// first, and of those the one with the smallest number.
    pub open spec fn oldest_closed(self) -> u64 {
        choose|connection: u64| #[trigger] self.is_oldest_closed(connection)
    }

    pub open spec fn is_oldest_closed(self, connection: u64) -> bool {
        &&& self.closed.contains_key(connection)
        &&& forall|other: u64| #[trigger]
            self.closed.contains_key(other) ==> self.closed[connection].expires_at
                < self.closed[other].expires_at || self.closed[connection].expires_at
                == self.closed[other].expires_at && connection <= other
    }

    /// The path of a closed connection is remembered.
    pub open spec fn remembered(
        self,
        connection: u64,
        peer: PeerId,
        path: P2pPath,
        now: u64,
    ) -> LinksModel {
        let kept = if self.closed.dom().len() >= MAX_SESSION_HISTORY {
            self.closed.remove(self.oldest_closed())
        } else {
            self.closed
        };
        LinksModel {
            closed: kept.insert(
                connection,
                (ClosedConnectionPath {
                    peer,
                    path,
                    expires_at: now.saturating_add(CLOSED_CONNECTION_PATH_RETENTION_MILLIS),
                }),
            ),
            ..self
        }
    }

    /// The closed connections whose time is over are forgotten.
    pub open spec fn closed_expired(self, now: u64) -> LinksModel {
        LinksModel {
            closed: self.closed.restrict(
                self.closed.dom().filter(|c: u64| self.closed[c].expires_at > now),
            ),
            ..self
        }
    }

    /// A connection has a path to a peer.
    pub open spec fn with_path(self, connection: u64, peer: PeerId, path: P2pPath) -> LinksModel {
        LinksModel { paths: self.paths.insert(connection, (LinkPath { peer, path })), ..self }
    }

    /// The connections to the peer that are to be retired now that a tier is
    /// selected. One at the tier of a pending promotion is kept.
    pub open spec fn non_policy(self, peer: PeerId, selected: u8, promotion: Option<u8>) -> Set<
        u64,
    > {
        self.paths.dom().filter(
            |c: u64|
                self.healthy(c, peer) && promotion != Some(path_rank(self.mode, self.paths[c].path))
                    && retires(
                    self.mode,
                    self.paths[c].path,
                    Some(selected),
                    self.healthy_at(peer, selected, None),
                ),
        )
    }

    /// Connections are scheduled to be retired.
    pub open spec fn scheduled(
        self,
        connections: Set<u64>,
        peer: PeerId,
        deadline: u64,
    ) -> LinksModel {
        LinksModel {
            duplicate_retirement: self.duplicate_retirement.union_prefer_right(
                Map::new(
                    |c: u64| connections.contains(c),
                    |c: u64| Retirement { peer, deadline },
                ),
            ),
            ..self
        }
    }

    /// The connections to the peer that the policy does not want are scheduled
    /// to be retired.
    pub open spec fn non_policy_retired(
        self,
        peer: PeerId,
        selected: u8,
        promotion: Option<u8>,
        now: u64,
    ) -> LinksModel {
        self.scheduled(
            self.non_policy(peer, selected, promotion),
            peer,
            now.saturating_add(TRANSPORT_PROMOTION_GRACE_MILLIS),
        )
    }

    /// The direct connections that may be the other half of a hole punch: in
    /// the direction that both ends keep.
    pub open spec fn counterparts(
        self,
        peer: PeerId,
        connection: u64,
        prefers_dialer: bool,
    ) -> Set<u64> {
        self.paths.dom().filter(
            |c: u64|
                c != connection && self.paths[c].peer == peer && self.paths[c].path
                    == P2pPath::Direct && self.dialers.contains_key(c) && self.dialers[c]
                    == prefers_dialer,
        )
    }

    /// The relayed connections to the peer that were not upgraded.
    pub open spec fn relayed(self, peer: PeerId) -> Set<u64> {
        self.paths.dom().filter(
            |c: u64| self.paths[c].peer == peer && self.paths[c].path == P2pPath::Relayed,
        )
    }

    /// The relayed connections to the peer, upgraded or not.
    pub open spec fn any_relayed(self, peer: PeerId) -> Set<u64> {
        self.paths.dom().filter(
            |c: u64|
                self.paths[c].peer == peer && (self.paths[c].path == P2pPath::Relayed
                    || self.paths[c].path == P2pPath::RelayFallback),
        )
    }

    /// Connections get a path.
    pub open spec fn with_paths(self, connections: Set<u64>, peer: PeerId, path: P2pPath) -> LinksModel {
        LinksModel {
            paths: self.paths.union_prefer_right(
                Map::new(|c: u64| connections.contains(c), |c: u64| LinkPath { peer, path }),
            ),
            ..self
        }
    }

    /// Relayed connections are scheduled to be retired after a hole punch.
    pub open spec fn relays_scheduled(
        self,
        connections: Set<u64>,
        peer: PeerId,
        deadline: u64,
    ) -> LinksModel {
        LinksModel {
            relay_retirement: self.relay_retirement.union_prefer_right(
                Map::new(
                    |c: u64| connections.contains(c),
                    |c: u64| Retirement { peer, deadline },
                ),
            ),
            ..self
        }
    }

    /// The best rank among the connections to the peer.
    pub open spec fn best_rank(self, peer: PeerId) -> u8 {
        if self.rank_present(peer, 0) {
            0
        } else if self.rank_present(peer, 1) {
            1
        } else {
            2
        }
    }

    pub open spec fn rank_present(self, peer: PeerId, rank: u8) -> bool {
        exists|c: u64| #[trigger]
            self.paths.contains_key(c) && self.paths[c].peer == peer && path_rank(
                self.mode,
                self.paths[c].path,
            ) == rank
    }

    /// A connection to the peer of the best rank.
    pub open spec fn is_best(self, connection: u64, peer: PeerId) -> bool {
        &&& self.paths.contains_key(connection)
        &&& self.paths[connection].peer == peer
        &&& path_rank(self.mode, self.paths[connection].path) == self.best_rank(peer)
    }

    /// The node dialled the connection.
    pub open spec fn dialled(self, connection: u64) -> bool {
        self.dialers.contains_key(connection) && self.dialers[connection]
    }

    /// The duplicate connections to the peer: of the best rank, and not in the
    /// direction that both ends keep; and, where the node keeps those that it
    /// dialled, the new one if there is an older.
    pub open spec fn duplicates(
        self,
        peer: PeerId,
        new_connection: u64,
        prefers_dialer: bool,
    ) -> Set<u64> {
        let keeps = exists|c: u64| #[trigger]
            self.paths.contains_key(c) && self.is_best(c, peer) && self.dialled(c)
                == prefers_dialer;
        self.paths.dom().filter(
            |c: u64|
                keeps && self.is_best(c, peer) && (self.dialled(c) != prefers_dialer
                    || prefers_dialer && c == new_connection && exists|older: u64| #[trigger]
                    self.paths.contains_key(older) && older != new_connection && self.is_best(
                        older,
                        peer,
                    ) && self.dialled(older)),
        )
    }

    /// A connection is gone, but for the path that it had.
    pub open spec fn without(self, connection: u64) -> LinksModel {
        LinksModel {
            paths: self.paths.remove(connection),
            dialers: self.dialers.remove(connection),
            relay_retirement: self.relay_retirement.remove(connection),
            duplicate_retirement: self.duplicate_retirement.remove(connection),
            unhealthy: self.unhealthy.remove(connection),
            ..self
        }
    }

    /// No relayed connection to the peer is retired any more.
    pub open spec fn relays_kept(self, peer: PeerId) -> LinksModel {
        LinksModel {
            relay_retirement: self.relay_retirement.restrict(
                self.relay_retirement.dom().filter(
                    |c: u64| self.relay_retirement[c].peer != peer,
                ),
            ),
            ..self
        }
    }

    /// No duplicate connection to the peer is retired any more, unless it is
    /// being closed.
    pub open spec fn duplicates_kept(self, peer: PeerId) -> LinksModel {
        LinksModel {
            duplicate_retirement: self.duplicate_retirement.restrict(
                self.duplicate_retirement.dom().filter(
                    |c: u64|
                        self.duplicate_retirement[c].peer != peer || self.collapsing.contains(c),
                ),
            ),
            ..self
        }
    }

    /// After the replacement of some connections is lost, those not yet being
    /// closed are eligible again.
    pub open spec fn restored(self, peer: PeerId) -> LinksModel {
        let kept = self.duplicates_kept(peer);
        if kept.healthy_path(peer, P2pPath::HolePunched) {
            kept
        } else {
            kept.relays_kept(peer)
        }
    }

    pub open spec fn collapsing_with(self, connection: u64) -> LinksModel {
        LinksModel { collapsing: self.collapsing.insert(connection), ..self }
    }

    pub open spec fn collapsing_without(self, connection: u64) -> LinksModel {
        LinksModel { collapsing: self.collapsing.remove(connection), ..self }
    }

    pub open spec fn unhealthy_with(self, connection: u64) -> LinksModel {
        LinksModel { unhealthy: self.unhealthy.insert(connection), ..self }
    }

    pub open spec fn unhealthy_without(self, connection: u64) -> LinksModel {
        LinksModel { unhealthy: self.unhealthy.remove(connection), ..self }
    }
}

/// Tests the entries of the paths table for a healthy connection.
struct HealthyTest<'a> {
    links: &'a Links,
    peer: PeerId,
    excluded: Option<u64>,
    tier: Option<u8>,
    path: Option<P2pPath>,
    maximum_rank: u8,
}

impl<'a> EntryTest<u64, LinkPath> for HealthyTest<'a> {
    closed spec fn ready(&self) -> bool {
        self.links.wf()
    }

    closed spec fn passes(&self, key: u64, value: LinkPath) -> bool {
        &&& value.peer == self.peer
        &&& self.excluded != Some(key)
        &&& !self.links@.retiring(key)
        &&& self.tier matches Some(tier) ==> path_rank(self.links@.mode, value.path) == tier
        &&& self.path matches Some(path) ==> value.path == path
        &&& path_rank(self.links@.mode, value.path) <= self.maximum_rank
    }

    fn test(&self, key: u64, value: &LinkPath) -> (result: bool) {
        if !value.peer.equals(&self.peer) {
            return false;
        }
        if let Some(excluded) = self.excluded {
            if excluded == key {
                return false;
            }
        }
        if self.links.is_retiring(key) {
            return false;
        }
        let rank: u8 = path_preference_rank(self.links.mode, value.path);
        if let Some(tier) = self.tier {
            if rank != tier {
                return false;
            }
        }
        if let Some(path) = self.path {
            if value.path != path {
                return false;
            }
        }
        rank <= self.maximum_rank
    }
}

/// Tests the entries of the paths table for a connection to a peer.
struct PeerTest<'a> {
    links: &'a Links,
    peer: PeerId,
    retiring: bool,
    rank: Option<u8>,
    path: Option<P2pPath>,
}

impl<'a> EntryTest<u64, LinkPath> for PeerTest<'a> {
    closed spec fn ready(&self) -> bool {
        self.links.wf()
    }

    closed spec fn passes(&self, key: u64, value: LinkPath) -> bool {
        &&& value.peer == self.peer
        &&& self.retiring ==> self.links@.retiring(key)
        &&& self.rank matches Some(rank) ==> path_rank(self.links@.mode, value.path) == rank
        &&& self.path matches Some(path) ==> value.path == path
    }

    fn test(&self, key: u64, value: &LinkPath) -> (result: bool) {
        if !value.peer.equals(&self.peer) {
            return false;
        }
        if self.retiring && !self.links.is_retiring(key) {
            return false;
        }
        if let Some(rank) = self.rank {
            if path_preference_rank(self.links.mode, value.path) != rank {
                return false;
            }
        }
        if let Some(path) = self.path {
            if value.path != path {
                return false;
            }
        }
        true
    }
}

/// Tests for connections that the policy does not want.
struct NonPolicyTest<'a> {
    links: &'a Links,
    peer: PeerId,
    selected: u8,
    promotion: Option<u8>,
    selected_exists: bool,
}

impl<'a> EntryTest<u64, LinkPath> for NonPolicyTest<'a> {
    closed spec fn ready(&self) -> bool {
        self.links.wf()
    }

    closed spec fn passes(&self, key: u64, value: LinkPath) -> bool {
        &&& value.peer == self.peer
        &&& !self.links@.retiring(key)
        &&& self.promotion != Some(path_rank(self.links@.mode, value.path))
        &&& retires(self.links@.mode, value.path, Some(self.selected), self.selected_exists)
    }

    fn test(&self, key: u64, value: &LinkPath) -> (result: bool) {
        if !value.peer.equals(&self.peer) || self.links.is_retiring(key) {
            return false;
        }
        if let Some(promotion) = self.promotion {
            if promotion == path_preference_rank(self.links.mode, value.path) {
                return false;
            }
        }
        should_retire_non_policy_connection(
            self.links.mode,
            value.path,
            Some(self.selected),
            self.selected_exists,
        )
    }
}

/// Tests for the other half of a hole punch.
struct CounterpartTest<'a> {
    links: &'a Links,
    peer: PeerId,
    connection: u64,
    prefers_dialer: bool,
}

impl<'a> EntryTest<u64, LinkPath> for CounterpartTest<'a> {
    closed spec fn ready(&self) -> bool {
        self.links.wf()
    }

    closed spec fn passes(&self, key: u64, value: LinkPath) -> bool {
        &&& key != self.connection
        &&& value.peer == self.peer
        &&& value.path == P2pPath::Direct
        &&& self.links@.dialers.contains_key(key)
        &&& self.links@.dialers[key] == self.prefers_dialer
    }

    fn test(&self, key: u64, value: &LinkPath) -> (result: bool) {
        if key == self.connection || !value.peer.equals(&self.peer) || value.path
            != P2pPath::Direct {
            return false;
        }
        match self.links.dialers.get(key) {
            Some(dialer) => *dialer == self.prefers_dialer,
            None => false,
        }
    }
}

/// Tests for hole-punched connections that are not in the direction that both
/// ends keep.
struct PunchTest<'a> {
    links: &'a Links,
    peer: PeerId,
    connection: u64,
    prefers_dialer: bool,
}

impl<'a> EntryTest<u64, LinkPath> for PunchTest<'a> {
    closed spec fn ready(&self) -> bool {
        self.links.wf()
    }

    closed spec fn passes(&self, key: u64, value: LinkPath) -> bool {
        self.links@.is_paired_punch(self.peer, self.connection, self.prefers_dialer, key, value)
    }

    fn test(&self, key: u64, value: &LinkPath) -> (result: bool) {
        if key == self.connection || !value.peer.equals(&self.peer) || value.path
            != P2pPath::HolePunched {
            return false;
        }
        match self.links.dialers.get(key) {
            Some(dialer) => *dialer != self.prefers_dialer,
            None => true,
        }
    }
}

impl LinksModel {
    pub open spec fn is_paired_punch(
        self,
        peer: PeerId,
        connection: u64,
        prefers_dialer: bool,
        candidate: u64,
        link: LinkPath,
    ) -> bool {
        &&& candidate != connection
        &&& link.peer == peer
        &&& link.path == P2pPath::HolePunched
        &&& !(self.dialers.contains_key(candidate) && self.dialers[candidate] == prefers_dialer)
    }

    /// The hole-punched connections to the peer whose provenance a new direct
    /// connection may take over.
    pub open spec fn paired_punches(
        self,
        peer: PeerId,
        connection: u64,
        prefers_dialer: bool,
    ) -> Set<u64> {
        self.paths.dom().filter(
            |c: u64| self.is_paired_punch(peer, connection, prefers_dialer, c, self.paths[c]),
        )
    }
}

/// Tests for duplicate connections.
struct DuplicateTest<'a> {
    links: &'a Links,
    peer: PeerId,
    best: u8,
    new_connection: u64,
    prefers_dialer: bool,
    older: bool,
}

impl<'a> EntryTest<u64, LinkPath> for DuplicateTest<'a> {
    closed spec fn ready(&self) -> bool {
        self.links.wf()
    }

    closed spec fn passes(&self, key: u64, value: LinkPath) -> bool {
        &&& value.peer == self.peer
        &&& path_rank(self.links@.mode, value.path) == self.best
        &&& (self.links@.dialled(key) != self.prefers_dialer || self.prefers_dialer && key
            == self.new_connection && self.older)
    }

    fn test(&self, key: u64, value: &LinkPath) -> (result: bool) {
        if !value.peer.equals(&self.peer) || path_preference_rank(self.links.mode, value.path)
            != self.best {
            return false;
        }
        self.links.was_dialled(key) != self.prefers_dialer || (self.prefers_dialer && key
            == self.new_connection && self.older)
    }
}

/// Tests for connections of a rank in a direction.
struct DirectionTest<'a> {
    links: &'a Links,
    peer: PeerId,
    best: u8,
    dialer: bool,
    excluded: Option<u64>,
}

impl<'a> EntryTest<u64, LinkPath> for DirectionTest<'a> {
    closed spec fn ready(&self) -> bool {
        self.links.wf()
    }

    closed spec fn passes(&self, key: u64, value: LinkPath) -> bool {
        &&& value.peer == self.peer
        &&& path_rank(self.links@.mode, value.path) == self.best
        &&& self.links@.dialled(key) == self.dialer
        &&& self.excluded != Some(key)
    }

    fn test(&self, key: u64, value: &LinkPath) -> (result: bool) {
        if !value.peer.equals(&self.peer) || path_preference_rank(self.links.mode, value.path)
            != self.best || self.links.was_dialled(key) != self.dialer {
            return false;
        }
        match self.excluded {
            Some(excluded) => excluded != key,
            None => true,
        }
    }
}

/// Tests retirements by their peer.
struct RetirementTest<'a> {
    peer: PeerId,
    spared: Option<&'a KeySet<u64>>,
}

impl<'a> EntryTest<u64, Retirement> for RetirementTest<'a> {
    closed spec fn ready(&self) -> bool {
        true
    }

    closed spec fn passes(&self, key: u64, value: Retirement) -> bool {
        &&& value.peer == self.peer
        &&& self.spared matches Some(spared) ==> !spared@.contains(key)
    }

    fn test(&self, key: u64, value: &Retirement) -> (result: bool) {
        if !value.peer.equals(&self.peer) {
            return false;
        }
        match self.spared {
            Some(spared) => !spared.contains(key),
            None => true,
        }
    }
}

/// Tests closed connections for the end of their time.
struct ClosedTest {
    now: u64,
}

impl EntryTest<u64, ClosedConnectionPath> for ClosedTest {
    closed spec fn ready(&self) -> bool {
        true
    }

    closed spec fn passes(&self, key: u64, value: ClosedConnectionPath) -> bool {
        value.expires_at <= self.now
    }

    fn test(&self, key: u64, value: &ClosedConnectionPath) -> (result: bool) {
        value.expires_at <= self.now
    }
}

impl Links {
    pub open spec fn view(&self) -> LinksModel {
        LinksModel {
            mode: self.mode,
            paths: self.paths@,
            closed: self.closed@,
            dialers: self.dialers@,
            relay_retirement: self.relay_retirement@,
            duplicate_retirement: self.duplicate_retirement@,
            collapsing: self.collapsing@,
            unhealthy: self.unhealthy@,
        }
    }

    pub open spec fn wf(&self) -> bool {
        &&& self.paths.wf()
        &&& self.closed.wf()
        &&& self.dialers.wf()
        &&& self.relay_retirement.wf()
        &&& self.duplicate_retirement.wf()
        &&& self.collapsing.wf()
        &&& self.unhealthy.wf()
    }

    pub fn new(mode: TorMode) -> (links: Self)
        ensures
            links.wf(),
            links@ == (LinksModel {
                mode,
                paths: Map::empty(),
                closed: Map::empty(),
                dialers: Map::empty(),
                relay_retirement: Map::empty(),
                duplicate_retirement: Map::empty(),
                collapsing: Set::empty(),
                unhealthy: Set::empty(),
            }),
    {
        Links {
            mode,
            paths: Table::new(),
            closed: Table::new(),
            dialers: Table::new(),
            relay_retirement: Table::new(),
            duplicate_retirement: Table::new(),
            collapsing: KeySet::new(),
            unhealthy: KeySet::new(),
        }
    }

    pub fn is_retiring(&self, connection: u64) -> (result: bool)
        requires
            self.wf(),
        ensures
            result == self@.retiring(connection),
    {
        self.unhealthy.contains(connection) || self.collapsing.contains(connection)
            || self.relay_retirement.has(connection) || self.duplicate_retirement.has(connection)
    }

    pub fn was_dialled(&self, connection: u64) -> (result: bool)
        requires
            self.wf(),
        ensures
            result == self@.dialled(connection),
    {
        match self.dialers.get(connection) {
            Some(dialer) => *dialer,
            None => false,
        }
    }

    pub fn healthy_connection_at_tier(
        &self,
        peer: PeerId,
        tier: u8,
        excluded: Option<u64>,
    ) -> (result: bool)
        requires
            self.wf(),
        ensures
            result == self@.healthy_at(peer, tier, excluded),
    {
        let test = HealthyTest {
            links: self,
            peer,
            excluded,
            tier: Some(tier),
            path: None,
            maximum_rank: 255,
        };
        let found = self.paths.any(&test);
        proof {
            if self@.healthy_at(peer, tier, excluded) {
                let c = choose|c: u64| #[trigger]
                    self@.paths.contains_key(c) && self@.healthy(c, peer) && excluded != Some(c)
                        && path_rank(self@.mode, self@.paths[c].path) == tier;
                assert(self.paths@.contains_key(c) && test.passes(c, self.paths@[c]));
            }
        }
        found
    }

    pub fn best_healthy_connection_tier(&self, peer: PeerId) -> (tier: Option<u8>)
        requires
            self.wf(),
        ensures
            tier == self@.best_tier(peer),
    {
        if self.healthy_connection_at_tier(peer, 0, None) {
            Some(0)
        } else if self.healthy_connection_at_tier(peer, 1, None) {
            Some(1)
        } else if self.healthy_connection_at_tier(peer, 2, None) {
            Some(2)
        } else {
            None
        }
    }

    pub fn healthy_path_exists(&self, peer: PeerId, path: P2pPath) -> (result: bool)
        requires
            self.wf(),
        ensures
            result == self@.healthy_path(peer, path),
    {
        let test = HealthyTest {
            links: self,
            peer,
            excluded: None,
            tier: None,
            path: Some(path),
            maximum_rank: 255,
        };
        let found = self.paths.any(&test);
        proof {
            if self@.healthy_path(peer, path) {
                let c = choose|c: u64| #[trigger]
                    self@.paths.contains_key(c) && self@.healthy(c, peer) && self@.paths[c].path
                        == path;
                assert(self.paths@.contains_key(c) && test.passes(c, self.paths@[c]));
            }
        }
        found
    }

    pub fn healthy_replacement_exists(
        &self,
        peer: PeerId,
        retiring: u64,
        maximum_rank: u8,
    ) -> (result: bool)
        requires
            self.wf(),
        ensures
            result == self@.replaceable(peer, retiring, maximum_rank),
    {
        let test = HealthyTest {
            links: self,
            peer,
            excluded: Some(retiring),
            tier: None,
            path: None,
            maximum_rank,
        };
        let found = self.paths.any(&test);
        proof {
            if self@.replaceable(peer, retiring, maximum_rank) {
                let c = choose|c: u64| #[trigger]
                    self@.paths.contains_key(c) && c != retiring && self@.healthy(c, peer)
                        && path_rank(self@.mode, self@.paths[c].path) <= maximum_rank;
                assert(self.paths@.contains_key(c) && test.passes(c, self.paths@[c]));
            }
        }
        found
    }

    pub fn has_unsettled(&self, peer: PeerId) -> (result: bool)
        requires
            self.wf(),
        ensures
            result == self@.unsettled(peer),
    {
        let test = PeerTest { links: self, peer, retiring: true, rank: None, path: None };
        let found = self.paths.any(&test);
        proof {
            if self@.unsettled(peer) {
                let c = choose|c: u64| #[trigger]
                    self@.paths.contains_key(c) && self@.paths[c].peer == peer && self@.retiring(c);
                assert(self.paths@.contains_key(c) && test.passes(c, self.paths@[c]));
            }
        }
        found
    }

    pub fn is_connected(&self, peer: PeerId) -> (result: bool)
        requires
            self.wf(),
        ensures
            result == self@.connected(peer),
    {
        let test = PeerTest { links: self, peer, retiring: false, rank: None, path: None };
        let found = self.paths.any(&test);
        proof {
            if self@.connected(peer) {
                let c = choose|c: u64| #[trigger]
                    self@.paths.contains_key(c) && self@.paths[c].peer == peer;
                assert(self.paths@.contains_key(c) && test.passes(c, self.paths@[c]));
            }
        }
        found
    }

    pub fn is_connected_by(&self, peer: PeerId, path: P2pPath) -> (result: bool)
        requires
            self.wf(),
        ensures
            result == self@.connected_by(peer, path),
    {
        let test = PeerTest { links: self, peer, retiring: false, rank: None, path: Some(path) };
        let found = self.paths.any(&test);
        proof {
            if self@.connected_by(peer, path) {
                let c = choose|c: u64| #[trigger]
                    self@.paths.contains_key(c) && self@.paths[c].peer == peer
                        && self@.paths[c].path == path;
                assert(self.paths@.contains_key(c) && test.passes(c, self.paths@[c]));
            }
        }
        found
    }

    pub fn application_path(&self, connection: u64) -> (path: Option<P2pPath>)
        requires
            self.wf(),
        ensures
            path == self@.application_path(connection),
    {
        match self.paths.get(connection) {
            Some(link) => Some(count_as(link.path)),
            None => match self.closed.get(connection) {
                Some(closed) => Some(count_as(closed.path)),
                None => None,
            },
        }
    }

    pub fn request_failure_path(&self, peer: PeerId, connection: u64) -> (path: Option<P2pPath>)
        requires
            self.wf(),
        ensures
            path == self@.failure_path(peer, connection),
    {
        if let Some(link) = self.paths.get(connection) {
            if link.peer.equals(&peer) {
                return Some(count_as(link.path));
            }
        }
        match self.closed.get(connection) {
            Some(closed) => {
                if closed.peer.equals(&peer) {
                    Some(count_as(closed.path))
                } else {
                    None
                }
            },
            None => None,
        }
    }

    fn oldest_closed(&self) -> (oldest: Option<u64>)
        requires
            self.wf(),
        ensures
            oldest is None ==> self.closed@.dom().len() == 0,
            oldest matches Some(connection) ==> self@.is_oldest_closed(connection),
    {
        let total: usize = self.closed.len();
        if total == 0 {
            return None;
        }
        let mut oldest: u64 = self.closed.key_at(0);
        let mut expires_at: u64 = self.closed.value_at(0).expires_at;
        let mut i: usize = 1;
        while i < total
            invariant
                1 <= i <= total == self.closed.order().len(),
                self.wf(),
                self.closed@.contains_key(oldest),
                self.closed@[oldest].expires_at == expires_at,
                forall|k: int|
                    0 <= k < i ==> {
                        let other = #[trigger] self.closed.order()[k];
                        expires_at < self.closed@[other].expires_at || expires_at
                            == self.closed@[other].expires_at && oldest <= other
                    },
            decreases total - i,
        {
            let key: u64 = self.closed.key_at(i);
            let other: u64 = self.closed.value_at(i).expires_at;
            if other < expires_at || (other == expires_at && key < oldest) {
                oldest = key;
                expires_at = other;
            }
            i += 1;
        }
        proof {
            self.closed.lemma_order();
            assert forall|other: u64| #[trigger] self.closed@.contains_key(other) implies expires_at
                < self.closed@[other].expires_at || expires_at == self.closed@[other].expires_at
                && oldest <= other by {
                let k = choose|k: int|
                    0 <= k < self.closed.order().len() && self.closed.order()[k] == other;
                assert(self.closed.order()[k] == other);
            }
        }
        Some(oldest)
    }

    /// Remembers the path of a closed connection. At the limit the one that
    /// expires first is forgotten.
    pub fn remember_closed_connection_path(
        &mut self,
        connection: u64,
        peer: PeerId,
        path: P2pPath,
        now: u64,
    )
        requires
            old(self).wf(),
        ensures
            final(self).wf(),
            final(self)@ == old(self)@.remembered(connection, peer, path, now),
    {
        if self.closed.len() >= MAX_SESSION_HISTORY {
            if let Some(oldest) = self.oldest_closed() {
                proof {
                    let chosen = self@.oldest_closed();
                    assert(self@.is_oldest_closed(oldest));
                    assert(self@.is_oldest_closed(chosen));
                    assert(self@.closed.contains_key(chosen));
                    assert(self@.closed.contains_key(oldest));
                }
                let _ = self.closed.remove(oldest);
            }
        }
        self.closed.insert(
            connection,
            ClosedConnectionPath {
                peer,
                path,
                expires_at: now.saturating_add(CLOSED_CONNECTION_PATH_RETENTION_MILLIS),
            },
        );
    }

    pub fn expire_closed(&mut self, now: u64)
        requires
            old(self).wf(),
        ensures
            final(self).wf(),
            final(self)@ == old(self)@.closed_expired(now),
    {
        let test = ClosedTest { now };
        self.closed.discard(&test);
        assert(self.closed@ =~= old(self)@.closed_expired(now).closed);
    }

    pub fn set_path(&mut self, connection: u64, peer: PeerId, path: P2pPath)
        requires
            old(self).wf(),
        ensures
            final(self).wf(),
            final(self)@ == old(self)@.with_path(connection, peer, path),
    {
        self.paths.insert(connection, LinkPath { peer, path });
    }

    fn schedule(&mut self, connections: &Vec<u64>, peer: PeerId, deadline: u64)
        requires
            old(self).wf(),
        ensures
            final(self).wf(),
            final(self)@ == old(self)@.scheduled(connections@.to_set(), peer, deadline),
    {
        let mut i: usize = 0;
        assert(self@ =~= old(self)@.scheduled(connections@.take(0).to_set(), peer, deadline));
        while i < connections.len()
            invariant
                i <= connections@.len(),
                self.wf(),
                self@ == old(self)@.scheduled(
                    connections@.take(i as int).to_set(),
                    peer,
                    deadline,
                ),
            decreases connections@.len() - i,
        {
            self.duplicate_retirement.insert(connections[i], Retirement { peer, deadline });
            proof {
                let taken = connections@.take(i as int);
                assert(connections@.take(i + 1) =~= taken.push(connections@[i as int]));
                crate::ordered::lemma_push_set(taken, connections@[i as int]);
                assert(self@ =~= old(self)@.scheduled(
                    connections@.take(i + 1).to_set(),
                    peer,
                    deadline,
                ));
            }
            i += 1;
        }
        assert(connections@.take(i as int) =~= connections@);
    }

    /// Schedules the connections to the peer that the policy does not want.
    /// One of a fallback tier stays until a connection at the selected tier
    /// is there.
    pub fn retire_non_policy_connections(
        &mut self,
        peer: PeerId,
        selected: u8,
        promotion: Option<u8>,
        now: u64,
    )
        requires
            old(self).wf(),
        ensures
            final(self).wf(),
            final(self)@ == old(self)@.non_policy_retired(peer, selected, promotion, now),
    {
        let selected_exists = self.healthy_connection_at_tier(peer, selected, None);
        let test = NonPolicyTest { links: self, peer, selected, promotion, selected_exists };
        let connections = self.paths.select(&test);
        assert(connections@.to_set() =~= self@.non_policy(peer, selected, promotion));
        self.schedule(
            &connections,
            peer,
            now.saturating_add(TRANSPORT_PROMOTION_GRACE_MILLIS),
        );
    }

    /// The other half of a hole punch: of the candidates the one whose session
    /// was opened last.
    pub fn punch_counterpart(
        &self,
        peer: PeerId,
        connection: u64,
        prefers_dialer: bool,
        sessions: &Table<u64, SessionRuntime>,
    ) -> (counterpart: Option<u64>)
        requires
            self.wf(),
            sessions.wf(),
        ensures
            counterpart == newest_of(
                self@.counterparts(peer, connection, prefers_dialer),
                sessions@,
            ),
    {
        let test = CounterpartTest { links: self, peer, connection, prefers_dialer };
        let candidates = self.paths.select(&test);
        let ghost all = self@.counterparts(peer, connection, prefers_dialer);
        assert(candidates@.to_set() =~= all);
        if candidates.len() == 0 {
            proof {
                if exists|c: u64| is_newest(c, all, sessions@) {
                    let c = choose|c: u64| is_newest(c, all, sessions@);
                    assert(candidates@.to_set().contains(c));
                }
            }
            return None;
        }
        let mut best: u64 = candidates[0];
        let mut i: usize = 1;
        while i < candidates.len()
            invariant
                1 <= i <= candidates@.len(),
                sessions.wf(),
                exists|k: int| 0 <= k < i && candidates@[k] == best,
                forall|k: int|
                    0 <= k < i ==> not_newer(#[trigger] candidates@[k], best, sessions@),
            decreases candidates@.len() - i,
        {
            let other: u64 = candidates[i];
            let best_sequence: u64 = sequence_or_zero(sessions, best);
            let other_sequence: u64 = sequence_or_zero(sessions, other);
            if other_sequence > best_sequence || (other_sequence == best_sequence && other > best) {
                best = other;
            }
            i += 1;
        }
        proof {
            assert(all.contains(best)) by {
                let k = choose|k: int| 0 <= k < i && candidates@[k] == best;
                assert(candidates@.to_set().contains(candidates@[k]));
            }
            assert(is_newest(best, all, sessions@)) by {
                assert forall|other: u64| #[trigger] all.contains(other) implies not_newer(
                    other,
                    best,
                    sessions@,
                ) by {
                    assert(candidates@.to_set().contains(other));
                    let k = choose|k: int| 0 <= k < candidates@.len() && candidates@[k] == other;
                    assert(not_newer(candidates@[k], best, sessions@));
                }
            }
            let chosen = choose|c: u64| is_newest(c, all, sessions@);
            assert(is_newest(chosen, all, sessions@));
            assert(not_newer(best, chosen, sessions@));
            assert(not_newer(chosen, best, sessions@));
        }
        Some(best)
    }

    /// The relayed connections to the peer that were not upgraded, in order.
    pub fn relayed_connections(&self, peer: PeerId) -> (connections: Vec<u64>)
        requires
            self.wf(),
        ensures
            connections@.to_set() == self@.relayed(peer),
            connections@ == crate::ordered::sorted_numbers(self@.relayed(peer)),
    {
        let test = PeerTest {
            links: self,
            peer,
            retiring: false,
            rank: None,
            path: Some(P2pPath::Relayed),
        };
        let found = self.paths.select(&test);
        assert(found@.to_set() =~= self@.relayed(peer));
        crate::ordered::sort_numbers(&found)
    }

    /// One of the hole-punched connections to the peer whose provenance a new
    /// direct connection may take over: the one with the smallest number.
    pub fn paired_punch(&self, peer: PeerId, connection: u64, prefers_dialer: bool) -> (found:
        Option<u64>)
        requires
            self.wf(),
        ensures
            found == (if self@.paired_punches(peer, connection, prefers_dialer).len() == 0 {
                None
            } else {
                Some(
                    crate::ordered::sorted_numbers(
                        self@.paired_punches(peer, connection, prefers_dialer),
                    )[0],
                )
            }),
    {
        let test = PunchTest { links: self, peer, connection, prefers_dialer };
        let candidates = self.paths.select(&test);
        let sorted = crate::ordered::sort_numbers(&candidates);
        proof {
            assert(candidates@.to_set() =~= self@.paired_punches(peer, connection, prefers_dialer));
            crate::ordered::lemma_distinct_len(sorted@);
        }
        if sorted.len() == 0 {
            None
        } else {
            Some(sorted[0])
        }
    }

    /// Schedules every relayed connection to the peer after a hole punch.
    pub fn schedule_relay_retirement(&mut self, peer: PeerId, now: u64)
        requires
            old(self).wf(),
        ensures
            final(self).wf(),
            final(self)@ == old(self)@.relays_scheduled(
                old(self)@.any_relayed(peer),
                peer,
                now.saturating_add(RELAY_RETIREMENT_GRACE_MILLIS),
            ),
    {
        let deadline: u64 = now.saturating_add(RELAY_RETIREMENT_GRACE_MILLIS);
        let first = PeerTest {
            links: self,
            peer,
            retiring: false,
            rank: None,
            path: Some(P2pPath::Relayed),
        };
        let mut connections = self.paths.select(&first);
        let ghost one = connections@;
        let second = PeerTest {
            links: self,
            peer,
            retiring: false,
            rank: None,
            path: Some(P2pPath::RelayFallback),
        };
        let mut more = self.paths.select(&second);
        let ghost two = more@;
        connections.append(&mut more);
        proof {
            assert(connections@ == one + two);
            assert forall|c: u64| connections@.to_set().contains(c) == self@.any_relayed(
                peer,
            ).contains(c) by {
                if one.contains(c) {
                    let k = choose|k: int| 0 <= k < one.len() && one[k] == c;
                    assert(connections@[k] == c);
                    assert(one.to_set().contains(c));
                }
                if two.contains(c) {
                    let k = choose|k: int| 0 <= k < two.len() && two[k] == c;
                    assert(connections@[one.len() + k] == c);
                    assert(two.to_set().contains(c));
                }
                if connections@.contains(c) {
                    let k = choose|k: int| 0 <= k < connections@.len() && connections@[k] == c;
                    if k < one.len() {
                        assert(one[k] == c);
                        assert(one.to_set().contains(c));
                    } else {
                        assert(two[k - one.len()] == c);
                        assert(two.to_set().contains(c));
                    }
                }
                if self@.any_relayed(peer).contains(c) {
                    if self@.paths[c].path == P2pPath::Relayed {
                        assert(one.to_set().contains(c));
                    } else {
                        assert(two.to_set().contains(c));
                    }
                }
            }
            assert(connections@.to_set() =~= self@.any_relayed(peer));
        }
        let ghost all = connections@;
        let mut i: usize = 0;
        assert(self@ =~= old(self)@.relays_scheduled(all.take(0).to_set(), peer, deadline));
        while i < connections.len()
            invariant
                i <= connections@.len(),
                all == connections@,
                self.wf(),
                self@ == old(self)@.relays_scheduled(
                    all.take(i as int).to_set(),
                    peer,
                    deadline,
                ),
            decreases connections@.len() - i,
        {
            self.relay_retirement.insert(connections[i], Retirement { peer, deadline });
            proof {
                let taken = all.take(i as int);
                assert(all.take(i + 1) =~= taken.push(all[i as int]));
                crate::ordered::lemma_push_set(taken, all[i as int]);
                assert(self@ =~= old(self)@.relays_scheduled(
                    all.take(i + 1).to_set(),
                    peer,
                    deadline,
                ));
            }
            i += 1;
        }
        assert(all.take(i as int) =~= all);
    }

    fn rank_present(&self, peer: PeerId, rank: u8) -> (result: bool)
        requires
            self.wf(),
        ensures
            result == self@.rank_present(peer, rank),
    {
        let test = PeerTest { links: self, peer, retiring: false, rank: Some(rank), path: None };
        let found = self.paths.any(&test);
        proof {
            if self@.rank_present(peer, rank) {
                let c = choose|c: u64| #[trigger]
                    self@.paths.contains_key(c) && self@.paths[c].peer == peer && path_rank(
                        self@.mode,
                        self@.paths[c].path,
                    ) == rank;
                assert(self.paths@.contains_key(c) && test.passes(c, self.paths@[c]));
            }
        }
        found
    }

    fn direction_present(
        &self,
        peer: PeerId,
        best: u8,
        dialer: bool,
        excluded: Option<u64>,
    ) -> (result: bool)
        requires
            self.wf(),
            best == self@.best_rank(peer),
        ensures
            result == exists|c: u64| #[trigger]
                self@.paths.contains_key(c) && self@.is_best(c, peer) && self@.dialled(c) == dialer
                    && excluded != Some(c),
    {
        let test = DirectionTest { links: self, peer, best, dialer, excluded };
        let found = self.paths.any(&test);
        proof {
            if exists|c: u64| #[trigger]
                self@.paths.contains_key(c) && self@.is_best(c, peer) && self@.dialled(c) == dialer
                    && excluded != Some(c) {
                let c = choose|c: u64| #[trigger]
                    self@.paths.contains_key(c) && self@.is_best(c, peer) && self@.dialled(c)
                        == dialer && excluded != Some(c);
                assert(self.paths@.contains_key(c) && test.passes(c, self.paths@[c]));
            }
            if found {
                let c = choose|c: u64| #[trigger]
                    self.paths@.contains_key(c) && test.passes(c, self.paths@[c]);
                assert(self@.paths.contains_key(c) && self@.is_best(c, peer) && self@.dialled(c)
                    == dialer && excluded != Some(c));
            }
        }
        found
    }

    /// Schedules the duplicates among the connections to the peer of the best
    /// rank, so that both ends keep the same one. Duplicates to a relay that
    /// holds a reservation are kept.
    pub fn schedule_duplicate_session_collapse(
        &mut self,
        peer: PeerId,
        new_connection: u64,
        is_relay: bool,
        prefers_dialer: bool,
        now: u64,
    )
        requires
            old(self).wf(),
        ensures
            final(self).wf(),
            final(self)@ == (if is_relay {
                old(self)@
            } else {
                old(self)@.scheduled(
                    old(self)@.duplicates(peer, new_connection, prefers_dialer),
                    peer,
                    now.saturating_add(RELAY_RETIREMENT_GRACE_MILLIS),
                )
            }),
    {
        if is_relay {
            return ;
        }
        let best: u8 = if self.rank_present(peer, 0) {
            0
        } else if self.rank_present(peer, 1) {
            1
        } else {
            2
        };
        let keeps = self.direction_present(peer, best, prefers_dialer, None);
        if !keeps {
            proof {
                assert(self@.duplicates(peer, new_connection, prefers_dialer) =~= Set::empty());
                assert(self@ =~= self@.scheduled(
                    Set::empty(),
                    peer,
                    now.saturating_add(RELAY_RETIREMENT_GRACE_MILLIS),
                ));
            }
            return ;
        }
        let older = prefers_dialer && self.direction_present(
            peer,
            best,
            true,
            Some(new_connection),
        );
        let test = DuplicateTest { links: self, peer, best, new_connection, prefers_dialer, older };
        let connections = self.paths.select(&test);
        proof {
            let keeps_spec = exists|c: u64| #[trigger]
                self@.paths.contains_key(c) && self@.is_best(c, peer) && self@.dialled(c)
                    == prefers_dialer;
            assert(keeps_spec);
            if prefers_dialer {
                assert(older == exists|o: u64| #[trigger]
                    self@.paths.contains_key(o) && o != new_connection && self@.is_best(o, peer)
                        && self@.dialled(o)) by {
                    if exists|o: u64| #[trigger]
                        self@.paths.contains_key(o) && o != new_connection && self@.is_best(o, peer)
                            && self@.dialled(o) {
                        let o = choose|o: u64| #[trigger]
                            self@.paths.contains_key(o) && o != new_connection && self@.is_best(
                                o,
                                peer,
                            ) && self@.dialled(o);
                        assert(self@.paths.contains_key(o) && self@.is_best(o, peer)
                            && self@.dialled(o) == true && Some(new_connection) != Some(o));
                    }
                }
            }
            assert(connections@.to_set() =~= self@.duplicates(
                peer,
                new_connection,
                prefers_dialer,
            ));
        }
        self.schedule(&connections, peer, now.saturating_add(RELAY_RETIREMENT_GRACE_MILLIS));
    }

    /// Takes a closed connection out; its path, and whether it was unhealthy.
    pub fn close(&mut self, connection: u64) -> (closed: (Option<P2pPath>, bool))
        requires
            old(self).wf(),
        ensures
            final(self).wf(),
            final(self)@ == old(self)@.without(connection),
            closed.0 == (if old(self)@.paths.contains_key(connection) {
                Some(old(self)@.paths[connection].path)
            } else {
                None
            }),
            closed.1 == old(self)@.unhealthy.contains(connection),
    {
        let path = match self.paths.remove(connection) {
            Some(link) => Some(link.path),
            None => None,
        };
        let _ = self.dialers.remove(connection);
        let _ = self.relay_retirement.remove(connection);
        let _ = self.duplicate_retirement.remove(connection);
        let unhealthy = self.unhealthy.remove(connection);
        (path, unhealthy)
    }

    pub fn keep_relays(&mut self, peer: PeerId)
        requires
            old(self).wf(),
        ensures
            final(self).wf(),
            final(self)@ == old(self)@.relays_kept(peer),
    {
        let test = RetirementTest { peer, spared: None };
        self.relay_retirement.discard(&test);
        assert(self.relay_retirement@ =~= old(self)@.relays_kept(peer).relay_retirement);
    }

    /// Makes the connections to the peer that were to be retired eligible
    /// again, after what should replace them is gone.
    pub fn restore(&mut self, peer: PeerId)
        requires
            old(self).wf(),
        ensures
            final(self).wf(),
            final(self)@ == old(self)@.restored(peer),
    {
        let test = RetirementTest { peer, spared: Some(&self.collapsing) };
        self.duplicate_retirement.discard(&test);
        assert(self.duplicate_retirement@ =~= old(self)@.duplicates_kept(
            peer,
        ).duplicate_retirement);
        if !self.healthy_path_exists(peer, P2pPath::HolePunched) {
            self.keep_relays(peer);
        }
    }
}

fn sequence_or_zero(sessions: &Table<u64, SessionRuntime>, connection: u64) -> (sequence: u64)
    requires
        sessions.wf(),
    ensures
        sequence == session_sequence(sessions@, connection),
{
    match sessions.get(connection) {
        Some(session) => session.sequence,
        None => 0,
    }
}

/// The sequence number of a connection's session; zero without one.
pub open spec fn session_sequence(
    sessions: Map<u64, SessionRuntime>,
    connection: u64,
) -> u64 {
    if sessions.contains_key(connection) {
        sessions[connection].sequence
    } else {
        0
    }
}

/// One connection's session was opened before another's, or is that one.
pub open spec fn not_newer(a: u64, b: u64, sessions: Map<u64, SessionRuntime>) -> bool {
    session_sequence(sessions, a) < session_sequence(sessions, b) || session_sequence(sessions, a)
        == session_sequence(sessions, b) && a <= b
}

/// The connection of a set whose session was opened last.
pub open spec fn is_newest(
    connection: u64,
    set: Set<u64>,
    sessions: Map<u64, SessionRuntime>,
) -> bool {
    set.contains(connection) && forall|other: u64| #[trigger]
        set.contains(other) ==> not_newer(other, connection, sessions)
}

/// The connection of a set whose session was opened last, if there is one.
pub open spec fn newest_of(set: Set<u64>, sessions: Map<u64, SessionRuntime>) -> Option<u64> {
    if exists|c: u64| is_newest(c, set, sessions) {
        Some(choose|c: u64| is_newest(c, set, sessions))
    } else {
        None
    }
}

/// The number of closed connections that are remembered never passes its
/// limit.
pub proof fn closed_paths_stay_bounded(
    links: LinksModel,
    connection: u64,
    peer: PeerId,
    path: P2pPath,
    now: u64,
    oldest: u64,
)
    requires
        links.closed.dom().finite(),
        links.closed.dom().len() <= MAX_SESSION_HISTORY,
        links.closed.dom().len() > 0 ==> links.is_oldest_closed(oldest),
    ensures
        links.remembered(connection, peer, path, now).closed.dom().len() <= MAX_SESSION_HISTORY,
{
    let kept = if links.closed.dom().len() >= MAX_SESSION_HISTORY {
        links.closed.remove(links.oldest_closed())
    } else {
        links.closed
    };
    if links.closed.dom().len() >= MAX_SESSION_HISTORY {
        assert(links.is_oldest_closed(links.oldest_closed()));
        assert(kept.dom() =~= links.closed.dom().remove(links.oldest_closed()));
    }
    let entry = ClosedConnectionPath {
        peer,
        path,
        expires_at: now.saturating_add(CLOSED_CONNECTION_PATH_RETENTION_MILLIS),
    };
    assert(kept.insert(connection, entry).dom() =~= kept.dom().insert(connection));
}

/// No healthy connection whose path the mode allows is scheduled to be retired
/// for the policy's sake unless a healthy connection at the selected tier is
/// there, and that one is not itself scheduled.
pub proof fn policy_retirement_leaves_a_connection(
    links: LinksModel,
    peer: PeerId,
    selected: u8,
    promotion: Option<u8>,
    connection: u64,
)
    requires
        links.non_policy(peer, selected, promotion).contains(connection),
        crate::policy::path_allowed(links.mode, links.paths[connection].path),
    ensures
        exists|kept: u64| #[trigger]
            links.paths.contains_key(kept) && links.healthy(kept, peer) && path_rank(
                links.mode,
                links.paths[kept].path,
            ) == selected && kept != connection,
{
    assert(links.healthy_at(peer, selected, None));
    let kept = choose|kept: u64| #[trigger]
        links.paths.contains_key(kept) && links.healthy(kept, peer) && None::<u64> != Some(kept)
            && path_rank(links.mode, links.paths[kept].path) == selected;
    assert(links.paths.contains_key(kept) && links.healthy(kept, peer));
}

} // verus!
