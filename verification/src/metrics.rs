//! Counters of transports, and the history of sessions.

use crate::address::{peer_text, PeerId};
use crate::policy::P2pPath;
use crate::table::{Stored, Table};
use vstd::prelude::*;

verus! {

/// How many closed sessions are remembered.
pub const MAX_SESSION_HISTORY: usize = 256;

/// One optional value for each path.
#[derive(Clone, Copy, Debug)]
pub struct ByPath<T: Copy> {
    pub direct: Option<T>,
    pub relayed: Option<T>,
    pub hole_punched: Option<T>,
    pub relay_fallback: Option<T>,
    pub tor: Option<T>,
}

impl<T: Copy> ByPath<T> {
    pub open spec fn none() -> Self {
        ByPath {
            direct: None,
            relayed: None,
            hole_punched: None,
            relay_fallback: None,
            tor: None,
        }
    }

    pub open spec fn at(self, path: P2pPath) -> Option<T> {
        match path {
            P2pPath::Direct => self.direct,
            P2pPath::Relayed => self.relayed,
            P2pPath::HolePunched => self.hole_punched,
            P2pPath::RelayFallback => self.relay_fallback,
            P2pPath::Tor => self.tor,
        }
    }

    pub open spec fn with(self, path: P2pPath, value: T) -> Self {
        match path {
            P2pPath::Direct => ByPath { direct: Some(value), ..self },
            P2pPath::Relayed => ByPath { relayed: Some(value), ..self },
            P2pPath::HolePunched => ByPath { hole_punched: Some(value), ..self },
            P2pPath::RelayFallback => ByPath { relay_fallback: Some(value), ..self },
            P2pPath::Tor => ByPath { tor: Some(value), ..self },
        }
    }

    pub fn new() -> (values: Self)
        ensures
            values == Self::none(),
    {
        ByPath {
            direct: None,
            relayed: None,
            hole_punched: None,
            relay_fallback: None,
            tor: None,
        }
    }

    pub fn get(&self, path: P2pPath) -> (value: Option<T>)
        ensures
            value == self.at(path),
    {
        match path {
            P2pPath::Direct => self.direct,
            P2pPath::Relayed => self.relayed,
            P2pPath::HolePunched => self.hole_punched,
            P2pPath::RelayFallback => self.relay_fallback,
            P2pPath::Tor => self.tor,
        }
    }

    pub fn set(&mut self, path: P2pPath, value: T)
        ensures
            *final(self) == old(self).with(path, value),
    {
        match path {
            P2pPath::Direct => {
                self.direct = Some(value);
            },
            P2pPath::Relayed => {
                self.relayed = Some(value);
            },
            P2pPath::HolePunched => {
                self.hole_punched = Some(value);
            },
            P2pPath::RelayFallback => {
                self.relay_fallback = Some(value);
            },
            P2pPath::Tor => {
                self.tor = Some(value);
            },
        }
    }
}

/// The counters of one path.
#[derive(Clone, Copy, Debug, PartialEq, Eq, Structural)]
pub struct PathMetrics {
    pub sessions_opened: u64,
    pub sessions_closed: u64,
    pub dial_failures: u64,
    pub requests_succeeded: u64,
    pub requests_failed: u64,
    pub request_latency_millis_total: u64,
    pub application_bytes_sent: u64,
    pub application_bytes_received: u64,
}

impl PathMetrics {
    pub open spec fn zero() -> Self {
        PathMetrics {
            sessions_opened: 0,
            sessions_closed: 0,
            dial_failures: 0,
            requests_succeeded: 0,
            requests_failed: 0,
            request_latency_millis_total: 0,
            application_bytes_sent: 0,
            application_bytes_received: 0,
        }
    }
}

impl Default for PathMetrics {
    fn default() -> (metrics: Self)
        ensures
            metrics == Self::zero(),
    {
        PathMetrics {
            sessions_opened: 0,
            sessions_closed: 0,
            dial_failures: 0,
            requests_succeeded: 0,
            requests_failed: 0,
            request_latency_millis_total: 0,
            application_bytes_sent: 0,
            application_bytes_received: 0,
        }
    }
}

/// The counters of a path; all zero where it has none yet.
pub open spec fn metrics_at(metrics: ByPath<PathMetrics>, path: P2pPath) -> PathMetrics {
    match metrics.at(path) {
        Some(found) => found,
        None => PathMetrics::zero(),
    }
}

fn metrics_or_zero(metrics: &ByPath<PathMetrics>, path: P2pPath) -> (found: PathMetrics)
    ensures
        found == metrics_at(*metrics, path),
{
    match metrics.get(path) {
        Some(found) => found,
        None => PathMetrics::default(),
    }
}

/// Bytes of applications, sent and received.
#[derive(Clone, Copy, Debug, PartialEq, Eq, Structural)]
pub struct TransferCounters {
    pub sent: u64,
    pub received: u64,
}

impl Stored for TransferCounters {
    type Model = TransferCounters;

    open spec fn stored(&self) -> TransferCounters {
        *self
    }

    open spec fn sound(&self) -> bool {
        true
    }
}

impl Stored for ByPath<TransferCounters> {
    type Model = ByPath<TransferCounters>;

    open spec fn stored(&self) -> ByPath<TransferCounters> {
        *self
    }

    open spec fn sound(&self) -> bool {
        true
    }
}

impl TransferCounters {
    /// Counters with more bytes.
    pub open spec fn plus(counters: Option<TransferCounters>, sent: u64, received: u64) -> Self {
        let before = match counters {
            Some(found) => found,
            None => TransferCounters { sent: 0, received: 0 },
        };
        TransferCounters {
            sent: before.sent.saturating_add(sent),
            received: before.received.saturating_add(received),
        }
    }

    pub fn add_to(counters: Option<TransferCounters>, sent: u64, received: u64) -> (sum: Self)
        ensures
            sum == Self::plus(counters, sent, received),
    {
        let before = match counters {
            Some(found) => found,
            None => TransferCounters { sent: 0, received: 0 },
        };
        TransferCounters {
            sent: before.sent.saturating_add(sent),
            received: before.received.saturating_add(received),
        }
    }
}

/// Who opened a session.
#[derive(Clone, Copy, Debug, PartialEq, Eq, Structural)]
pub enum P2pSessionDirection {
    Inbound,
    Outbound,
}

/// How a session ended.
#[derive(Clone, Copy, Debug, PartialEq, Eq, Structural)]
pub enum P2pSessionOutcome {
    Closed,
    Collapsed,
    TransportError,
}

/// An open session. Times are milliseconds of a steady clock, but for the one
/// in seconds since 1970.
#[derive(Clone, Copy, Debug)]
pub struct SessionRuntime {
    pub sequence: u64,
    pub peer: PeerId,
    pub path: P2pPath,
    pub direction: P2pSessionDirection,
    pub opened_at_unix_seconds: u64,
    pub opened_at: u64,
}

impl Stored for SessionRuntime {
    type Model = SessionRuntime;

    open spec fn stored(&self) -> SessionRuntime {
        *self
    }

    open spec fn sound(&self) -> bool {
        true
    }
}

/// A closed session.
#[derive(Debug)]
pub struct P2pSessionHistory {
    pub sequence: u64,
    pub peer_id: String,
    pub path: P2pPath,
    pub direction: P2pSessionDirection,
    pub opened_at_unix_seconds: u64,
    pub closed_at_unix_seconds: u64,
    pub duration_millis: u64,
    pub outcome: P2pSessionOutcome,
}

/// What a closed session is, for contracts.
pub struct HistoryModel {
    pub sequence: u64,
    pub peer_id: Seq<char>,
    pub path: P2pPath,
    pub direction: P2pSessionDirection,
    pub opened_at_unix_seconds: u64,
    pub closed_at_unix_seconds: u64,
    pub duration_millis: u64,
    pub outcome: P2pSessionOutcome,
}

impl View for P2pSessionHistory {
    type V = HistoryModel;

    open spec fn view(&self) -> HistoryModel {
        HistoryModel {
            sequence: self.sequence,
            peer_id: self.peer_id@,
            path: self.path,
            direction: self.direction,
            opened_at_unix_seconds: self.opened_at_unix_seconds,
            closed_at_unix_seconds: self.closed_at_unix_seconds,
            duration_millis: self.duration_millis,
            outcome: self.outcome,
        }
    }
}

impl P2pSessionHistory {
    pub fn duplicate(&self) -> (copy: Self)
        ensures
            copy@ == self@,
    {
        P2pSessionHistory {
            sequence: self.sequence,
            peer_id: self.peer_id.clone(),
            path: self.path,
            direction: self.direction,
            opened_at_unix_seconds: self.opened_at_unix_seconds,
            closed_at_unix_seconds: self.closed_at_unix_seconds,
            duration_millis: self.duration_millis,
            outcome: self.outcome,
        }
    }
}

/// The open sessions, the recent ones and the counters of every path.
pub struct SessionLog {
    pub next_sequence: u64,
    pub sessions: Table<u64, SessionRuntime>,
    pub recent: Vec<P2pSessionHistory>,
    pub metrics: ByPath<PathMetrics>,
}

/// What a session log is, for contracts.
#[verifier::ext_equal]
pub struct LogModel {
    pub next_sequence: u64,
    pub sessions: Map<u64, SessionRuntime>,
    pub recent: Seq<HistoryModel>,
    pub metrics: ByPath<PathMetrics>,
}

/// The last items of a list, so many at most.
pub open spec fn last_items<T>(items: Seq<T>, max: int) -> Seq<T> {
    if items.len() > max {
        items.skip(items.len() - max)
    } else {
        items
    }
}

impl LogModel {
    /// The history stays within its limit.
    pub open spec fn bounded(self) -> bool {
        self.recent.len() <= MAX_SESSION_HISTORY
    }

    /// A dial on a path failed.
    pub open spec fn dial_failed(self, path: P2pPath) -> LogModel {
        let before = metrics_at(self.metrics, path);
        LogModel {
            metrics: self.metrics.with(
                path,
                (PathMetrics { dial_failures: before.dial_failures.saturating_add(1), ..before }),
            ),
            ..self
        }
    }

    /// Bytes went over a path.
    pub open spec fn transferred(self, path: P2pPath, sent: u64, received: u64) -> LogModel {
        let before = metrics_at(self.metrics, path);
        LogModel {
            metrics: self.metrics.with(
                path,
                (PathMetrics {
                    application_bytes_sent: before.application_bytes_sent.saturating_add(sent),
                    application_bytes_received: before.application_bytes_received.saturating_add(
                        received,
                    ),
                    ..before
                }),
            ),
            ..self
        }
    }

    /// A request over a path ended; where no path is known nothing is counted.
    pub open spec fn request_ended(
        self,
        path: Option<P2pPath>,
        started_at: u64,
        now: u64,
        succeeded: bool,
    ) -> LogModel {
        match path {
            None => self,
            Some(path) => {
                let before = metrics_at(self.metrics, path);
                LogModel {
                    metrics: self.metrics.with(
                        path,
                        (PathMetrics {
                            requests_succeeded: if succeeded {
                                before.requests_succeeded.saturating_add(1)
                            } else {
                                before.requests_succeeded
                            },
                            requests_failed: if succeeded {
                                before.requests_failed
                            } else {
                                before.requests_failed.saturating_add(1)
                            },
                            request_latency_millis_total:
                                before.request_latency_millis_total.saturating_add(
                                now.saturating_sub(started_at),
                            ),
                            ..before
                        }),
                    ),
                    ..self
                }
            },
        }
    }

    /// A session is opened.
    pub open spec fn opened(
        self,
        connection: u64,
        peer: PeerId,
        path: P2pPath,
        direction: P2pSessionDirection,
        now: u64,
        unix_now: u64,
    ) -> LogModel {
        let before = metrics_at(self.metrics, path);
        LogModel {
            next_sequence: self.next_sequence.saturating_add(1),
            sessions: self.sessions.insert(
                connection,
                (SessionRuntime {
                    sequence: self.next_sequence,
                    peer,
                    path,
                    direction,
                    opened_at_unix_seconds: unix_now,
                    opened_at: now,
                }),
            ),
            metrics: self.metrics.with(
                path,
                (PathMetrics {
                    sessions_opened: before.sessions_opened.saturating_add(1),
                    ..before
                }),
            ),
            ..self
        }
    }

    /// A session is found to use another path: its one opening moves to the
    /// counters of that path.
    pub open spec fn repathed(self, connection: u64, path: P2pPath) -> LogModel {
        if !self.sessions.contains_key(connection) || self.sessions[connection].path == path {
            self
        } else {
            let session = self.sessions[connection];
            let left = metrics_at(self.metrics, session.path);
            let without = self.metrics.with(
                session.path,
                (PathMetrics { sessions_opened: left.sessions_opened.saturating_sub(1), ..left }),
            );
            let joined = metrics_at(without, path);
            LogModel {
                sessions: self.sessions.insert(connection, (SessionRuntime { path, ..session })),
                metrics: without.with(
                    path,
                    (PathMetrics {
                        sessions_opened: joined.sessions_opened.saturating_add(1),
                        ..joined
                    }),
                ),
                ..self
            }
        }
    }

    /// A session is closed and remembered; the oldest are forgotten over the
    /// limit.
    pub open spec fn closed(
        self,
        connection: u64,
        collapsed: bool,
        transport_error: bool,
        now: u64,
        unix_now: u64,
    ) -> LogModel {
        if !self.sessions.contains_key(connection) {
            self
        } else {
            let session = self.sessions[connection];
            let before = metrics_at(self.metrics, session.path);
            LogModel {
                sessions: self.sessions.remove(connection),
                recent: last_items(
                    self.recent.push(
                        HistoryModel {
                            sequence: session.sequence,
                            peer_id: peer_text(session.peer),
                            path: session.path,
                            direction: session.direction,
                            opened_at_unix_seconds: session.opened_at_unix_seconds,
                            closed_at_unix_seconds: unix_now,
                            duration_millis: now.saturating_sub(session.opened_at),
                            outcome: if collapsed {
                                P2pSessionOutcome::Collapsed
                            } else if transport_error {
                                P2pSessionOutcome::TransportError
                            } else {
                                P2pSessionOutcome::Closed
                            },
                        },
                    ),
                    MAX_SESSION_HISTORY as int,
                ),
                metrics: self.metrics.with(
                    session.path,
                    (PathMetrics {
                        sessions_closed: before.sessions_closed.saturating_add(1),
                        ..before
                    }),
                ),
                ..self
            }
        }
    }
}

/// What the items of a history are.
pub open spec fn histories(items: Seq<P2pSessionHistory>) -> Seq<HistoryModel> {
    items.map_values(|item: P2pSessionHistory| item@)
}

impl SessionLog {
    pub open spec fn view(&self) -> LogModel {
        LogModel {
            next_sequence: self.next_sequence,
            sessions: self.sessions@,
            recent: histories(self.recent@),
            metrics: self.metrics,
        }
    }

    pub open spec fn wf(&self) -> bool {
        self.sessions.wf()
    }

    pub fn new() -> (log: Self)
        ensures
            log.wf(),
            log@ == (LogModel {
                next_sequence: 1,
                sessions: Map::empty(),
                recent: Seq::empty(),
                metrics: ByPath::none(),
            }),
            log@.bounded(),
    {
        let log = SessionLog {
            next_sequence: 1,
            sessions: Table::new(),
            recent: Vec::new(),
            metrics: ByPath::new(),
        };
        assert(histories(log.recent@) =~= Seq::empty());
        log
    }

    /// Counts a failed dial.
    pub fn record_dial_failure_path(&mut self, path: P2pPath)
        requires
            old(self).wf(),
        ensures
            final(self).wf(),
            final(self)@ == old(self)@.dial_failed(path),
    {
        let mut metrics = metrics_or_zero(&self.metrics, path);
        metrics.dial_failures = metrics.dial_failures.saturating_add(1);
        self.metrics.set(path, metrics);
    }

    /// Counts bytes that went over a path.
    pub fn record_path_transfer(&mut self, path: P2pPath, sent: u64, received: u64)
        requires
            old(self).wf(),
        ensures
            final(self).wf(),
            final(self)@ == old(self)@.transferred(path, sent, received),
    {
        let mut metrics = metrics_or_zero(&self.metrics, path);
        metrics.application_bytes_sent = metrics.application_bytes_sent.saturating_add(sent);
        metrics.application_bytes_received = metrics.application_bytes_received.saturating_add(
            received,
        );
        self.metrics.set(path, metrics);
    }

    /// Counts a request that ended.
    pub fn record_request_result(
        &mut self,
        path: Option<P2pPath>,
        started_at: u64,
        now: u64,
        succeeded: bool,
    )
        requires
            old(self).wf(),
        ensures
            final(self).wf(),
            final(self)@ == old(self)@.request_ended(path, started_at, now, succeeded),
    {
        let path = match path {
            Some(path) => path,
            None => {
                return ;
            },
        };
        let mut metrics = metrics_or_zero(&self.metrics, path);
        if succeeded {
            metrics.requests_succeeded = metrics.requests_succeeded.saturating_add(1);
        } else {
            metrics.requests_failed = metrics.requests_failed.saturating_add(1);
        }
        metrics.request_latency_millis_total = metrics.request_latency_millis_total.saturating_add(
            now.saturating_sub(started_at),
        );
        self.metrics.set(path, metrics);
    }

    /// Notes an opened session.
    pub fn record_session_open(
        &mut self,
        connection: u64,
        peer: PeerId,
        path: P2pPath,
        direction: P2pSessionDirection,
        now: u64,
        unix_now: u64,
    )
        requires
            old(self).wf(),
        ensures
            final(self).wf(),
            final(self)@ == old(self)@.opened(connection, peer, path, direction, now, unix_now),
    {
        let sequence: u64 = self.next_sequence;
        self.next_sequence = self.next_sequence.saturating_add(1);
        self.sessions.insert(
            connection,
            SessionRuntime {
                sequence,
                peer,
                path,
                direction,
                opened_at_unix_seconds: unix_now,
                opened_at: now,
            },
        );
        let mut metrics = metrics_or_zero(&self.metrics, path);
        metrics.sessions_opened = metrics.sessions_opened.saturating_add(1);
        self.metrics.set(path, metrics);
    }

    /// Notes that a session uses another path than was thought. Its one
    /// opening moves between the counters instead of being counted twice.
    pub fn update_session_path(&mut self, connection: u64, path: P2pPath)
        requires
            old(self).wf(),
        ensures
            final(self).wf(),
            final(self)@ == old(self)@.repathed(connection, path),
    {
        let mut session: SessionRuntime = match self.sessions.get(connection) {
            Some(session) => *session,
            None => {
                return ;
            },
        };
        if session.path == path {
            return ;
        }
        let previous = session.path;
        session.path = path;
        self.sessions.insert(connection, session);
        let mut left = metrics_or_zero(&self.metrics, previous);
        left.sessions_opened = left.sessions_opened.saturating_sub(1);
        self.metrics.set(previous, left);
        let mut joined = metrics_or_zero(&self.metrics, path);
        joined.sessions_opened = joined.sessions_opened.saturating_add(1);
        self.metrics.set(path, joined);
    }

    /// Notes a closed session.
    pub fn record_session_close(
        &mut self,
        connection: u64,
        collapsed: bool,
        transport_error: bool,
        now: u64,
        unix_now: u64,
    )
        requires
            old(self).wf(),
        ensures
            final(self).wf(),
            final(self)@ == old(self)@.closed(
                connection,
                collapsed,
                transport_error,
                now,
                unix_now,
            ),
    {
        let session: SessionRuntime = match self.sessions.remove(connection) {
            Some(session) => session,
            None => {
                return ;
            },
        };
        let outcome = if collapsed {
            P2pSessionOutcome::Collapsed
        } else if transport_error {
            P2pSessionOutcome::TransportError
        } else {
            P2pSessionOutcome::Closed
        };
        let entry = P2pSessionHistory {
            sequence: session.sequence,
            peer_id: session.peer.text(),
            path: session.path,
            direction: session.direction,
            opened_at_unix_seconds: session.opened_at_unix_seconds,
            closed_at_unix_seconds: unix_now,
            duration_millis: now.saturating_sub(session.opened_at),
            outcome,
        };
        let ghost model = entry@;
        self.recent.push(entry);
        let ghost pushed = histories(self.recent@);
        assert(pushed =~= histories(old(self).recent@).push(model));
        let ghost mut dropped: int = 0;
        while self.recent.len() > MAX_SESSION_HISTORY
            invariant
                0 <= dropped <= pushed.len(),
                histories(self.recent@) == pushed.skip(dropped),
                self.recent@.len() == pushed.len() - dropped,
                dropped > 0 ==> self.recent@.len() >= MAX_SESSION_HISTORY,
                self.sessions@ == old(self).sessions@.remove(connection),
                self.sessions.wf(),
                self.next_sequence == old(self).next_sequence,
                self.metrics == old(self).metrics,
            decreases self.recent@.len(),
        {
            let ghost prior = histories(self.recent@);
            let _ = self.recent.remove(0);
            proof {
                assert forall|k: int| 0 <= k < self.recent@.len() implies #[trigger] histories(
                    self.recent@,
                )[k] == pushed[dropped + 1 + k] by {
                    assert(histories(self.recent@)[k] == prior[k + 1]);
                }
                assert(histories(self.recent@) =~= pushed.skip(dropped + 1));
                dropped = dropped + 1;
            }
        }
        assert(histories(self.recent@) =~= last_items(pushed, MAX_SESSION_HISTORY as int));
        let mut metrics = metrics_or_zero(&self.metrics, session.path);
        metrics.sessions_closed = metrics.sessions_closed.saturating_add(1);
        self.metrics.set(session.path, metrics);
    }
}

/// The openings counted over all paths.
pub open spec fn openings(metrics: ByPath<PathMetrics>) -> int {
    metrics_at(metrics, P2pPath::Direct).sessions_opened + metrics_at(
        metrics,
        P2pPath::Relayed,
    ).sessions_opened + metrics_at(metrics, P2pPath::HolePunched).sessions_opened + metrics_at(
        metrics,
        P2pPath::RelayFallback,
    ).sessions_opened + metrics_at(metrics, P2pPath::Tor).sessions_opened
}

/// Finding that a session uses another path changes no total: its opening
/// leaves one path and joins another. The opening must have been counted, and
/// the other counter must have room.
pub proof fn repathing_keeps_the_number_of_openings(log: LogModel, connection: u64, path: P2pPath)
    requires
        log.sessions.contains_key(connection) ==> metrics_at(
            log.metrics,
            log.sessions[connection].path,
        ).sessions_opened > 0,
        metrics_at(log.metrics, path).sessions_opened < u64::MAX,
    ensures
        openings(log.repathed(connection, path).metrics) == openings(log.metrics),
{
}

/// The history never grows over its limit, whatever session is closed.
pub proof fn history_stays_bounded(
    log: LogModel,
    connection: u64,
    collapsed: bool,
    transport_error: bool,
    now: u64,
    unix_now: u64,
)
    requires
        log.bounded(),
    ensures
        log.closed(connection, collapsed, transport_error, now, unix_now).bounded(),
{
}

/// Bytes count on the path over which they went, as long as its counters have
/// room, and on no other.
pub proof fn bytes_count_on_their_own_path(
    log: LogModel,
    path: P2pPath,
    other: P2pPath,
    sent: u64,
    received: u64,
)
    requires
        other != path,
    ensures
        ({
            let after = log.transferred(path, sent, received);
            let (before, now) = (metrics_at(log.metrics, path), metrics_at(after.metrics, path));
            &&& metrics_at(after.metrics, other) == metrics_at(log.metrics, other)
            &&& before.application_bytes_sent + sent <= u64::MAX ==> now.application_bytes_sent
                == before.application_bytes_sent + sent
            &&& before.application_bytes_received + received <= u64::MAX
                ==> now.application_bytes_received == before.application_bytes_received + received
            &&& now.sessions_opened == before.sessions_opened
            &&& now.requests_succeeded == before.requests_succeeded
        }),
{
}

/// A path has its own counters: counting for one leaves those of every other
/// path as they are. A failed dial counts once; a request that ended counts once,
/// as succeeded or as failed, with the time that it took; a session counts when
/// it opens and when it closes.
pub proof fn everything_counts_once_on_its_own_path(
    log: LogModel,
    path: P2pPath,
    other: P2pPath,
    connection: u64,
    peer: PeerId,
    direction: P2pSessionDirection,
    succeeded: bool,
    started_at: u64,
    now: u64,
    unix_now: u64,
)
    ensures
        ({
            let before = metrics_at(log.metrics, path);
            let dialled = log.dial_failed(path);
            let ended = log.request_ended(Some(path), started_at, now, succeeded);
            let opened = log.opened(connection, peer, path, direction, now, unix_now);
            &&& metrics_at(dialled.metrics, path) == (PathMetrics {
                dial_failures: before.dial_failures.saturating_add(1),
                ..before
            })
            &&& dialled.sessions == log.sessions && dialled.recent == log.recent
            &&& metrics_at(ended.metrics, path) == (PathMetrics {
                requests_succeeded: before.requests_succeeded.saturating_add(
                    if succeeded {
                        1
                    } else {
                        0
                    },
                ),
                requests_failed: before.requests_failed.saturating_add(
                    if succeeded {
                        0
                    } else {
                        1
                    },
                ),
                request_latency_millis_total: before.request_latency_millis_total.saturating_add(
                    now.saturating_sub(started_at),
                ),
                ..before
            })
            &&& ended.sessions == log.sessions && ended.recent == log.recent
            &&& log.request_ended(None, started_at, now, succeeded) == log
            &&& metrics_at(opened.metrics, path) == (PathMetrics {
                sessions_opened: before.sessions_opened.saturating_add(1),
                ..before
            })
            &&& opened.next_sequence == log.next_sequence.saturating_add(1)
            &&& path != other ==> {
                &&& metrics_at(dialled.metrics, other) == metrics_at(log.metrics, other)
                &&& metrics_at(ended.metrics, other) == metrics_at(log.metrics, other)
                &&& metrics_at(opened.metrics, other) == metrics_at(log.metrics, other)
            }
        }),
        log.sessions.contains_key(connection) ==> ({
            let at = log.sessions[connection].path;
            let closed = log.closed(connection, false, false, now, unix_now);
            let before = metrics_at(log.metrics, at);
            &&& metrics_at(closed.metrics, at) == (PathMetrics {
                sessions_closed: before.sessions_closed.saturating_add(1),
                ..before
            })
            &&& at != other ==> metrics_at(closed.metrics, other) == metrics_at(log.metrics, other)
            &&& closed.sessions == log.sessions.remove(connection)
        }),
        log.sessions.contains_key(connection) && log.sessions[connection].path != path ==> ({
            let at = log.sessions[connection].path;
            let moved = log.repathed(connection, path);
            &&& moved.sessions[connection].path == path
            &&& metrics_at(moved.metrics, at).sessions_opened == metrics_at(
                log.metrics,
                at,
            ).sessions_opened.saturating_sub(1)
            &&& metrics_at(moved.metrics, path).sessions_opened == metrics_at(
                log.metrics,
                path,
            ).sessions_opened.saturating_add(1)
        }),
{
}

} // verus!
